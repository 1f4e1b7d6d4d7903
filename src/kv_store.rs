//! The log-structured store.
//!
//! Every mutation is appended as a record to the active segment of the log,
//! and an in-memory index maps each live key to the place of its latest `Set`
//! record. Overwritten and removed records are counted as dead bytes; once
//! they reach `COMPACTION_THRESHOLD` the live records are copied into a fresh
//! segment and every older segment is retired.
//!
//! The store keeps the bytes of its segments and describes every change to
//! them as a list of file operations (`LogOp`), which the caller performs on
//! the data directory: after `take_log_ops`, the directory holds exactly the
//! segments of the store.

use vstd::prelude::*;
use vstd::string::StringExecFns;
use crate::codec::{Command, Decoded, Mutation, append_bytes, encode_mutation, holds_at, match_token};
use crate::error::{Error, ErrorKind, Result};

verus! {

/// The number of dead bytes at which the log is compacted.
pub const COMPACTION_THRESHOLD: u64 = 1048576;

/// One generation of the log: the file `<gen>.log` and its bytes.
pub struct Segment {
    pub gen: u64,
    pub data: Vec<u8>,
}

/// A change to the data directory.
pub enum LogOp {
    /// Create the empty file of generation `gen`.
    Create { gen: u64 },
    /// Append bytes to the file of generation `gen`.
    Append { gen: u64, bytes: Vec<u8> },
    /// Delete the file of generation `gen`.
    Delete { gen: u64 },
}

/// A change to the data directory, as a value.
pub enum FileOp {
    Create(u64),
    Append(u64, Seq<u8>),
    Delete(u64),
}

impl View for LogOp {
    type V = FileOp;

    open spec fn view(&self) -> FileOp {
        match self {
            LogOp::Create { gen } => FileOp::Create(*gen),
            LogOp::Append { gen, bytes } => FileOp::Append(*gen, bytes@),
            LogOp::Delete { gen } => FileOp::Delete(*gen),
        }
    }
}

/// A data directory after one file operation.
pub open spec fn apply_op(d: Map<u64, Seq<u8>>, op: FileOp) -> Map<u64, Seq<u8>> {
    match op {
        FileOp::Create(g) => d.insert(g, Seq::empty()),
        FileOp::Append(g, b) => d.insert(
            g,
            if d.contains_key(g) {
                d[g] + b
            } else {
                b
            },
        ),
        FileOp::Delete(g) => d.remove(g),
    }
}

/// A data directory after the file operations `ops`, in order.
pub open spec fn apply_ops(d: Map<u64, Seq<u8>>, ops: Seq<FileOp>) -> Map<u64, Seq<u8>>
    decreases ops.len(),
{
    if ops.len() == 0 {
        d
    } else {
        apply_op(apply_ops(d, ops.drop_last()), ops.last())
    }
}

/// The bytes of a sequence of records.
pub open spec fn encode_all(rs: Seq<Mutation>) -> Seq<u8>
    decreases rs.len(),
{
    if rs.len() == 0 {
        Seq::empty()
    } else {
        encode_all(rs.drop_last()) + encode_mutation(rs.last())
    }
}

/// The key/value state after one more record.
pub open spec fn apply_mutation(m: Map<Seq<char>, Seq<char>>, x: Mutation) -> Map<Seq<char>, Seq<char>> {
    match x {
        Mutation::Put(k, v) => m.insert(k, v),
        Mutation::Del(k) => m.remove(k),
    }
}

/// The key/value state that a sequence of records leaves, from an empty store.
pub open spec fn replay(rs: Seq<Mutation>) -> Map<Seq<char>, Seq<char>>
    decreases rs.len(),
{
    if rs.len() == 0 {
        Map::empty()
    } else {
        apply_mutation(replay(rs.drop_last()), rs.last())
    }
}

/// The records of several segments, in order.
pub open spec fn flatten(rss: Seq<Seq<Mutation>>) -> Seq<Mutation>
    decreases rss.len(),
{
    if rss.len() == 0 {
        Seq::empty()
    } else {
        flatten(rss.drop_last()) + rss.last()
    }
}

/// The data directory that holds the segments `v`.
pub open spec fn image_of(v: Seq<(u64, Seq<u8>)>) -> Map<u64, Seq<u8>>
    decreases v.len(),
{
    if v.len() == 0 {
        Map::empty()
    } else {
        image_of(v.drop_last()).insert(v.last().0, v.last().1)
    }
}

/// What `get` returns for `k` on the state `m`.
pub open spec fn value_of(m: Map<Seq<char>, Seq<char>>, k: Seq<char>) -> Option<Seq<char>> {
    if m.contains_key(k) {
        Some(m[k])
    } else {
        None
    }
}

/// The text of an optional string.
pub open spec fn text_of(o: Option<String>) -> Option<Seq<char>> {
    match o {
        Some(s) => Some(s@),
        None => None,
    }
}

proof fn lemma_holds_extend(d: Seq<u8>, p: int, t: Seq<u8>, x: Seq<u8>)
    requires
        holds_at(d, p, t),
    ensures
        holds_at(d + x, p, t),
{
    assert((d + x).subrange(p, p + t.len()) =~= d.subrange(p, p + t.len()));
}

proof fn lemma_flatten_push(rss: Seq<Seq<Mutation>>, m: Mutation)
    requires
        rss.len() > 0,
    ensures
        flatten(rss.update(rss.len() - 1, rss.last().push(m))) == flatten(rss).push(m),
{
    let n = rss.len() - 1;
    let r2 = rss.update(n, rss.last().push(m));
    assert(r2.drop_last() =~= rss.drop_last());
    assert(flatten(r2) =~= flatten(rss).push(m));
}

/// `a + b`, or `u64::MAX` where the sum does not fit.
pub open spec fn sat_add(a: u64, b: nat) -> u64 {
    if a + b > u64::MAX {
        u64::MAX
    } else {
        (a + b) as u64
    }
}

/// `rs` holds one `Set` record for each key of `m`, with its value, and nothing else.
pub open spec fn live_records(rs: Seq<Mutation>, m: Map<Seq<char>, Seq<char>>) -> bool {
    &&& forall|a: int| 0 <= a < rs.len() ==> (#[trigger] rs[a] matches Mutation::Put(k, v) && m.contains_key(k) && m[k] == v)
    &&& forall|a: int, b: int| 0 <= a < b < rs.len() ==> rs[a] != rs[b]
    &&& forall|k: Seq<char>| m.contains_key(k) ==> exists|a: int| 0 <= a < rs.len() && #[trigger] rs[a] == Mutation::Put(k, m[k])
}

proof fn lemma_image_dom(v: Seq<(u64, Seq<u8>)>, g: u64)
    ensures
        image_of(v).contains_key(g) <==> exists|a: int| 0 <= a < v.len() && #[trigger] v[a].0 == g,
    decreases v.len(),
{
    if v.len() > 0 {
        lemma_image_dom(v.drop_last(), g);
        if image_of(v.drop_last()).contains_key(g) {
            let a = choose|a: int| 0 <= a < v.drop_last().len() && #[trigger] v.drop_last()[a].0 == g;
            assert(v[a].0 == g);
        }
        if exists|a: int| 0 <= a < v.len() && #[trigger] v[a].0 == g {
            let a = choose|a: int| 0 <= a < v.len() && #[trigger] v[a].0 == g;
            if a < v.len() - 1 {
                assert(v.drop_last()[a].0 == g);
            }
        }
    }
}

proof fn lemma_encode_all_append(a: Seq<Mutation>, b: Seq<Mutation>)
    ensures
        encode_all(a + b) == encode_all(a) + encode_all(b),
    decreases b.len(),
{
    if b.len() == 0 {
        assert(a + b =~= a);
        assert(encode_all(a) + encode_all(b) =~= encode_all(a));
    } else {
        lemma_encode_all_append(a, b.drop_last());
        assert((a + b).drop_last() =~= a + b.drop_last());
        assert(encode_all(a + b) =~= encode_all(a) + encode_all(b));
    }
}

proof fn lemma_encode_nonempty(m: Mutation)
    ensures
        encode_mutation(m).len() > 0,
{
}

/// The record `k` of `rs` lies right after the records before it.
proof fn lemma_encode_all_at(rs: Seq<Mutation>, k: int)
    requires
        0 <= k < rs.len(),
    ensures
        holds_at(encode_all(rs), encode_all(rs.take(k)).len() as int, encode_mutation(rs[k])),
        encode_all(rs.take(k + 1)) == encode_all(rs.take(k)) + encode_mutation(rs[k]),
{
    let t = rs.take(k + 1);
    assert(t.drop_last() =~= rs.take(k));
    assert(rs =~= t + rs.skip(k + 1));
    lemma_encode_all_append(t, rs.skip(k + 1));
    let e = encode_all(rs);
    let p = encode_all(rs.take(k)).len() as int;
    let x = encode_mutation(rs[k]);
    assert(e.subrange(p, p + x.len()) =~= x);
}

/// The generation and the bytes of each segment.
pub open spec fn segment_views(logs: Seq<Segment>) -> Seq<(u64, Seq<u8>)> {
    logs.map_values(|s: Segment| (s.gen, s.data@))
}

/// The generations of `v` increase strictly.
pub open spec fn gens_increasing(v: Seq<(u64, Seq<u8>)>) -> bool {
    forall|i: int, j: int| 0 <= i < j < v.len() ==> v[i].0 < v[j].0
}

/// `b` is a sequence of whole records, each in the form that `Command::encode` writes.
pub open spec fn is_log(b: Seq<u8>) -> bool {
    exists|rs: Seq<Mutation>| b == encode_all(rs)
}

/// The generation that a store opened on `logs` appends to.
pub open spec fn next_gen(logs: Seq<Segment>) -> u64 {
    if logs.len() == 0 {
        1
    } else {
        (logs.last().gen + 1) as u64
    }
}

/// The generations of `logs` increase and the last one leaves room for a new one.
pub open spec fn gens_fit(logs: Seq<Segment>) -> bool {
    &&& gens_increasing(segment_views(logs))
    &&& (logs.len() > 0 ==> logs.last().gen < u64::MAX)
}

/// `logs` can be opened: their generations increase, the last one leaves
/// room for a new one, and each holds whole records.
pub open spec fn can_open(logs: Seq<Segment>) -> bool {
    &&& gens_increasing(segment_views(logs))
    &&& (logs.len() > 0 ==> logs.last().gen < u64::MAX)
    &&& forall|j: int| 0 <= j < logs.len() ==> is_log(#[trigger] logs[j].data@)
}

/// The length of the live record of `k` on the state `m`, if any.
pub open spec fn live_len(m: Map<Seq<char>, Seq<char>>, k: Seq<char>) -> nat {
    if m.contains_key(k) {
        encode_mutation(Mutation::Put(k, m[k])).len()
    } else {
        0
    }
}

/// The dead bytes of a log of records, counted as it is read: a `Set`
/// makes the record that it supersedes dead; a `Remove` makes dead the
/// record that it removes and itself.
pub open spec fn dead_of(rs: Seq<Mutation>) -> nat
    decreases rs.len(),
{
    if rs.len() == 0 {
        0
    } else {
        let before = replay(rs.drop_last());
        dead_of(rs.drop_last()) + match rs.last() {
            Mutation::Put(k, _) => live_len(before, k),
            Mutation::Del(k) => live_len(before, k) + encode_mutation(Mutation::Del(k)).len(),
        }
    }
}

/// The number of bytes in the segments `v`.
pub open spec fn total_bytes(v: Seq<(u64, Seq<u8>)>) -> nat
    decreases v.len(),
{
    if v.len() == 0 {
        0
    } else {
        total_bytes(v.drop_last()) + v.last().1.len()
    }
}

/// `x`, or `u64::MAX` where it does not fit.
pub open spec fn clamp(x: int) -> u64 {
    if x > u64::MAX {
        u64::MAX
    } else {
        x as u64
    }
}

proof fn lemma_clamp_add(x: int, a: nat)
    requires
        x >= 0,
    ensures
        clamp(x + a) == sat_add(clamp(x), a),
{
}

/// The state after setting each pair of `kvs`, in order.
pub open spec fn insert_all(m: Map<Seq<char>, Seq<char>>, kvs: Seq<(Seq<char>, Seq<char>)>) -> Map<Seq<char>, Seq<char>>
    decreases kvs.len(),
{
    if kvs.len() == 0 {
        m
    } else {
        insert_all(m, kvs.drop_last()).insert(kvs.last().0, kvs.last().1)
    }
}

/// After `set(k, v)`, `get(k)` gives `v`, whatever `set`s of other keys come
/// in between.
pub proof fn law_set_then_get(
    m: Map<Seq<char>, Seq<char>>,
    k: Seq<char>,
    v: Seq<char>,
    others: Seq<(Seq<char>, Seq<char>)>,
)
    requires
        forall|i: int| 0 <= i < others.len() ==> (#[trigger] others[i]).0 != k,
    ensures
        value_of(insert_all(m.insert(k, v), others), k) == Some(v),
    decreases others.len(),
{
    if others.len() > 0 {
        law_set_then_get(m, k, v, others.drop_last());
        assert(others[others.len() - 1].0 != k);
    }
}

/// Setting a key twice to the same value is setting it once, and `get` then
/// gives that value.
pub proof fn law_set_twice(m: Map<Seq<char>, Seq<char>>, k: Seq<char>, v: Seq<char>)
    ensures
        m.insert(k, v).insert(k, v) == m.insert(k, v),
        value_of(m.insert(k, v).insert(k, v), k) == Some(v),
{
    assert(m.insert(k, v).insert(k, v) =~= m.insert(k, v));
}

/// After `remove(k)` succeeds, `get(k)` gives `None`, and a second
/// `remove(k)` finds no key (`KeyNotFound`).
pub proof fn law_remove_then_get(m: Map<Seq<char>, Seq<char>>, k: Seq<char>)
    ensures
        value_of(m.remove(k), k) is None,
        !m.remove(k).contains_key(k),
{
}

/// Where the latest `Set` record of a key lies.
struct IndexEntry {
    key: String,
    gen: u64,
    pos: usize,
    len: usize,
}

/// The number of bytes of the records that the index points at.
spec fn live_bytes(idx: Seq<IndexEntry>) -> nat
    decreases idx.len(),
{
    if idx.len() == 0 {
        0
    } else {
        live_bytes(idx.drop_last()) + idx.last().len as nat
    }
}

/// One `Set` record for each entry of the index, with the value of `m`.
spec fn index_records(idx: Seq<IndexEntry>, m: Map<Seq<char>, Seq<char>>) -> Seq<Mutation> {
    idx.map_values(|e: IndexEntry| Mutation::Put(e.key@, m[e.key@]))
}

proof fn lemma_index_records_len(idx: Seq<IndexEntry>, m: Map<Seq<char>, Seq<char>>)
    requires
        forall|i: int| 0 <= i < idx.len() ==> (#[trigger] idx[i]).len == encode_mutation(
            Mutation::Put(idx[i].key@, m[idx[i].key@]),
        ).len(),
    ensures
        encode_all(index_records(idx, m)).len() == live_bytes(idx),
    decreases idx.len(),
{
    if idx.len() > 0 {
        let p = idx.drop_last();
        assert(index_records(idx, m).drop_last() =~= index_records(p, m));
        assert forall|i: int| 0 <= i < p.len() implies (#[trigger] p[i]).len == encode_mutation(
            Mutation::Put(p[i].key@, m[p[i].key@]),
        ).len() by {
            assert(p[i] == idx[i]);
        }
        lemma_index_records_len(p, m);
        assert(idx[idx.len() - 1] == idx.last());
    }
}

proof fn lemma_live_push(idx: Seq<IndexEntry>, e: IndexEntry)
    ensures
        live_bytes(idx.push(e)) == live_bytes(idx) + e.len,
{
    assert(idx.push(e).drop_last() =~= idx);
}

proof fn lemma_live_update(idx: Seq<IndexEntry>, i: int, e: IndexEntry)
    requires
        0 <= i < idx.len(),
    ensures
        live_bytes(idx.update(i, e)) == live_bytes(idx) - idx[i].len + e.len,
        live_bytes(idx) >= idx[i].len,
    decreases idx.len(),
{
    let u = idx.update(i, e);
    if i == idx.len() - 1 {
        assert(u.drop_last() =~= idx.drop_last());
    } else {
        assert(u.drop_last() =~= idx.drop_last().update(i, e));
        lemma_live_update(idx.drop_last(), i, e);
    }
}

proof fn lemma_live_remove(idx: Seq<IndexEntry>, i: int)
    requires
        0 <= i < idx.len(),
    ensures
        live_bytes(idx.remove(i)) == live_bytes(idx) - idx[i].len,
        live_bytes(idx) >= idx[i].len,
    decreases idx.len(),
{
    let u = idx.remove(i);
    if i == idx.len() - 1 {
        assert(u =~= idx.drop_last());
    } else {
        assert(u.drop_last() =~= idx.drop_last().remove(i));
        assert(u.last() == idx.last());
        lemma_live_remove(idx.drop_last(), i);
    }
}

proof fn lemma_total_append(v: Seq<(u64, Seq<u8>)>, g: u64, x: Seq<u8>)
    requires
        v.len() > 0,
    ensures
        total_bytes(v.drop_last().push((g, v.last().1 + x))) == total_bytes(v) + x.len(),
        total_bytes(v.push((g, Seq::<u8>::empty()))) == total_bytes(v),
{
    assert(v.drop_last().push((g, v.last().1 + x)).drop_last() =~= v.drop_last());
    assert(v.push((g, Seq::<u8>::empty())).drop_last() =~= v);
}

/// A log-structured key/value store.
///
/// The store holds the bytes of its log segments in memory and reports every
/// change to them as file operations (`take_log_ops`); whoever keeps the data
/// directory performs them in order, after which the directory holds exactly
/// the store's segments, and `open` on its files gives back the same store.
pub struct KvStore {
    sealed: Vec<Segment>,
    active: Segment,
    index: Vec<IndexEntry>,
    uncompacted: u64,
    pending: Vec<LogOp>,
    contents: Ghost<Map<Seq<char>, Seq<char>>>,
    records: Ghost<Seq<Seq<Mutation>>>,
    synced: Ghost<Map<u64, Seq<u8>>>,
}

impl View for KvStore {
    type V = Map<Seq<char>, Seq<char>>;

    closed spec fn view(&self) -> Map<Seq<char>, Seq<char>> {
        self.contents@
    }
}

impl KvStore {
    /// The segments, oldest first, the active one last.
    pub closed spec fn segments(&self) -> Seq<(u64, Seq<u8>)> {
        self.sealed@.map_values(|s: Segment| (s.gen, s.data@)).push((self.active.gen, self.active.data@))
    }

    /// The records of each segment.
    pub closed spec fn log_records(&self) -> Seq<Seq<Mutation>> {
        self.records@
    }

    /// The data directory as the store holds it.
    pub open spec fn image(&self) -> Map<u64, Seq<u8>> {
        image_of(self.segments())
    }

    /// The data directory as the caller last left it.
    pub closed spec fn synced(&self) -> Map<u64, Seq<u8>> {
        self.synced@
    }

    /// The generation of the active segment.
    pub closed spec fn current_gen(&self) -> u64 {
        self.active.gen
    }

    /// The dead bytes counted since the last compaction (saturating).
    pub closed spec fn dead_bytes(&self) -> u64 {
        self.uncompacted
    }

    /// The file operations not yet handed out.
    pub closed spec fn pending_ops(&self) -> Seq<FileOp> {
        self.pending@.map_values(|o: LogOp| o@)
    }

    closed spec fn entry_ok(&self, e: IndexEntry) -> bool {
        &&& self.contents@.contains_key(e.key@)
        &&& e.len == encode_mutation(Mutation::Put(e.key@, self.contents@[e.key@])).len()
        &&& exists|j: int|
            0 <= j < self.segments().len() && #[trigger] self.segments()[j].0 == e.gen
                && holds_at(
                self.segments()[j].1,
                e.pos as int,
                encode_mutation(Mutation::Put(e.key@, self.contents@[e.key@])),
            )
    }

    /// The store's invariant.
    pub closed spec fn wf(&self) -> bool {
        let segs = self.segments();
        &&& forall|i: int, j: int| 0 <= i < j < segs.len() ==> segs[i].0 < segs[j].0
        &&& self.records@.len() == segs.len()
        &&& forall|j: int| 0 <= j < segs.len() ==> #[trigger] segs[j].1 == encode_all(self.records@[j])
        &&& self.contents@ == replay(flatten(self.records@))
        &&& forall|i: int, j: int|
            0 <= i < j < self.index@.len() ==> self.index@[i].key@ != self.index@[j].key@
        &&& forall|k: Seq<char>|
            self.contents@.contains_key(k) <==> exists|i: int|
                0 <= i < self.index@.len() && #[trigger] self.index@[i].key@ == k
        &&& forall|i: int| 0 <= i < self.index@.len() ==> self.entry_ok(#[trigger] self.index@[i])
        &&& apply_ops(self.synced@, self.pending_ops()) == self.image()
        &&& total_bytes(segs) >= live_bytes(self.index@)
        &&& self.uncompacted == clamp(total_bytes(segs) - live_bytes(self.index@))
        &&& self.uncompacted == clamp(dead_of(flatten(self.records@)) as int)
        &&& total_bytes(segs) == live_bytes(self.index@) + dead_of(flatten(self.records@))
    }

    /// The position in the index of the entry of `key`.
    fn find_entry(&self, key: &String) -> (r: Option<usize>)
        ensures
            match r {
                Some(i) => i < self.index@.len() && self.index@[i as int].key@ == key@,
                None => forall|i: int| 0 <= i < self.index@.len() ==> self.index@[i].key@ != key@,
            },
    {
        let mut i: usize = 0;
        while i < self.index.len()
            invariant
                i <= self.index@.len(),
                forall|j: int| 0 <= j < i ==> self.index@[j].key@ != key@,
            decreases self.index@.len() - i,
        {
            if self.index[i].key == *key {
                return Some(i);
            }
            i = i + 1;
        }
        None
    }

    /// The bytes of the segment of generation `gen`.
    fn segment_data(&self, gen: u64) -> (r: &Vec<u8>)
        requires
            self.wf(),
            exists|j: int| 0 <= j < self.segments().len() && #[trigger] self.segments()[j].0 == gen,
        ensures
            forall|j: int|
                0 <= j < self.segments().len() && #[trigger] self.segments()[j].0 == gen ==> r@
                    == self.segments()[j].1,
    {
        let ghost segs = self.segments();
        assert(segs.len() == self.sealed@.len() + 1);
        assert(segs[self.sealed@.len() as int] == (self.active.gen, self.active.data@));
        assert forall|j: int| 0 <= j < self.sealed@.len() implies #[trigger] segs[j] == (
        self.sealed@[j].gen, self.sealed@[j].data@) by {}
        if self.active.gen == gen {
            return &self.active.data;
        }
        let mut i: usize = 0;
        while i < self.sealed.len()
            invariant
                i <= self.sealed@.len(),
                self.wf(),
                segs == self.segments(),
                segs.len() == self.sealed@.len() + 1,
                forall|j: int| 0 <= j < self.sealed@.len() ==> #[trigger] segs[j] == (
                    self.sealed@[j].gen, self.sealed@[j].data@),
                forall|j: int| 0 <= j < i ==> segs[j].0 != gen,
            decreases self.sealed@.len() - i,
        {
            if self.sealed[i].gen == gen {
                assert(segs[i as int].0 == gen);
                assert forall|j: int| 0 <= j < segs.len() && #[trigger] segs[j].0 == gen implies j
                    == i by {
                    if j < i {
                        assert(segs[j].0 < segs[i as int].0);
                    } else if j > i {
                        assert(segs[i as int].0 < segs[j].0);
                    }
                }
                return &self.sealed[i].data;
            }
            i = i + 1;
        }
        &self.active.data
    }

    /// Appends the record of `m` to the active segment; returns its position and length.
    fn append_record(&mut self, cmd: &Command) -> (r: (usize, usize))
        requires
            old(self).records@.len() == old(self).segments().len(),
        ensures
            r.0 == old(self).active.data@.len(),
            r.1 == encode_mutation(cmd@).len(),
            final(self).active.gen == old(self).active.gen,
            final(self).active.data@ == old(self).active.data@ + encode_mutation(cmd@),
            final(self).sealed == old(self).sealed,
            final(self).index == old(self).index,
            final(self).contents == old(self).contents,
            final(self).synced == old(self).synced,
            final(self).uncompacted == old(self).uncompacted,
            final(self).records@ == old(self).records@.update(
                old(self).records@.len() - 1,
                old(self).records@.last().push(cmd@),
            ),
            final(self).pending_ops() == old(self).pending_ops().push(
                FileOp::Append(old(self).active.gen, encode_mutation(cmd@)),
            ),
    {
        let bytes = cmd.encode();
        let pos = self.active.data.len();
        append_bytes(&mut self.active.data, bytes.as_slice());
        let len = bytes.len();
        let gen = self.active.gen;
        let ghost before = self.pending@;
        self.pending.push(LogOp::Append { gen, bytes });
        proof {
            assert(self.pending@ == before.push(LogOp::Append { gen, bytes }));
            assert(self.pending_ops() =~= old(self).pending_ops().push(
                FileOp::Append(gen, encode_mutation(cmd@)),
            ));
            let n = self.records@.len() - 1;
            self.records@ = self.records@.update(n, self.records@[n].push(cmd@));
        }
        (pos, len)
    }

    /// Everything but the index and the state holds after an append.
    proof fn lemma_append_keeps_log(old_s: &KvStore, s: &KvStore, m: Mutation)
        requires
            old_s.wf(),
            s.active.gen == old_s.active.gen,
            s.active.data@ == old_s.active.data@ + encode_mutation(m),
            s.sealed == old_s.sealed,
            s.synced == old_s.synced,
            s.records@ == old_s.records@.update(
                old_s.records@.len() - 1,
                old_s.records@.last().push(m),
            ),
            s.pending_ops() == old_s.pending_ops().push(
                FileOp::Append(old_s.active.gen, encode_mutation(m)),
            ),
        ensures
            s.segments().len() == old_s.segments().len(),
            s.segments().drop_last() == old_s.segments().drop_last(),
            s.segments().last() == (s.active.gen, s.active.data@),
            forall|j: int| 0 <= j < s.segments().len() ==> #[trigger] s.segments()[j].0 == old_s.segments()[j].0,
            forall|j: int| 0 <= j < s.segments().len() ==> #[trigger] s.segments()[j].1 == (
                if j == s.segments().len() - 1 { old_s.segments()[j].1 + encode_mutation(m) } else { old_s.segments()[j].1 }),
            forall|i: int, j: int| 0 <= i < j < s.segments().len() ==> s.segments()[i].0 < s.segments()[j].0,
            s.records@.len() == s.segments().len(),
            forall|j: int| 0 <= j < s.segments().len() ==> #[trigger] s.segments()[j].1 == encode_all(s.records@[j]),
            replay(flatten(s.records@)) == apply_mutation(replay(flatten(old_s.records@)), m),
            flatten(s.records@) == flatten(old_s.records@).push(m),
            dead_of(flatten(s.records@)) == dead_of(flatten(old_s.records@)) + match m {
                Mutation::Put(k, _) => live_len(old_s.contents@, k),
                Mutation::Del(k) => live_len(old_s.contents@, k) + encode_mutation(Mutation::Del(k)).len(),
            },
            apply_ops(s.synced@, s.pending_ops()) == s.image(),
    {
        let segs = s.segments();
        let olds = old_s.segments();
        let n = olds.len() - 1;
        assert(segs.drop_last() =~= olds.drop_last());
        assert(segs.len() == olds.len());
        assert forall|j: int| 0 <= j < segs.len() implies #[trigger] segs[j].0 == olds[j].0 && segs[j].1 == (
            if j == n { olds[j].1 + encode_mutation(m) } else { olds[j].1 }) by {
            if j < n {
                assert(segs[j] == segs.drop_last()[j]);
                assert(olds[j] == olds.drop_last()[j]);
            }
        }
        assert forall|j: int| 0 <= j < segs.len() implies #[trigger] segs[j].1 == encode_all(s.records@[j]) by {
            assert(olds[j].1 == encode_all(old_s.records@[j]));
            if j == n {
                assert(s.records@[j].drop_last() =~= old_s.records@[j]);
                assert(s.records@[j].last() == m);
            } else {
                assert(s.records@[j] == old_s.records@[j]);
            }
        }
        lemma_flatten_push(old_s.records@, m);
        assert(flatten(s.records@).drop_last() =~= flatten(old_s.records@));
        assert(flatten(s.records@).last() == m);
        let img = old_s.image();
        assert(img == image_of(olds.drop_last()).insert(olds.last().0, olds.last().1));
        assert(s.image() == image_of(segs.drop_last()).insert(segs.last().0, segs.last().1));
        assert(img.contains_key(olds.last().0));
        assert(s.pending_ops().drop_last() =~= old_s.pending_ops());
        assert(apply_ops(s.synced@, s.pending_ops()) =~= s.image());
    }


    /// Appends a `Set` record and points the index at it, without compacting.
    #[verifier::rlimit(30)]
    fn put_record(&mut self, key: String, value: String)
        requires
            old(self).wf(),
        ensures
            final(self).wf(),
            final(self)@ == old(self)@.insert(key@, value@),
            final(self).uncompacted == sat_add(old(self).uncompacted, live_len(old(self)@, key@)),
            final(self).segments().len() == old(self).segments().len(),
            final(self).current_gen() == old(self).current_gen(),
            final(self).segments().drop_last() == old(self).segments().drop_last(),
            final(self).segments().last() == (old(self).current_gen(), old(self).segments().last().1
                + encode_mutation(Mutation::Put(key@, value@))),
            final(self).log_records() == old(self).log_records().update(
                old(self).log_records().len() - 1,
                old(self).log_records().last().push(Mutation::Put(key@, value@)),
            ),
            final(self).synced() == old(self).synced(),
    {
        let cmd = Command::Put { key: key.clone(), value: value.clone() };
        let ghost m = cmd@;
        let ghost old_s = *self;
        let (pos, len) = self.append_record(&cmd);
        proof {
            KvStore::lemma_append_keeps_log(&old_s, self, m);
        }
        let gen = self.active.gen;
        let ghost k = key@;
        let ghost v = value@;
        let ghost segs = self.segments();
        let ghost last = segs.len() - 1;
        proof {
            assert(segs[last].0 == gen);
            assert(segs[last].1.subrange(pos as int, pos + len) =~= encode_mutation(m));
            assert(holds_at(segs[last].1, pos as int, encode_mutation(m)));
        }
        let found = self.find_entry(&key);
        let ghost old_index = self.index@;
        let old_len: usize;
        match found {
            Some(i) => {
                old_len = self.index[i].len;
                proof {
                    assert(old_s.entry_ok(old_index[i as int]));
                }
                self.index.set(i, IndexEntry { key, gen, pos, len });
            },
            None => {
                old_len = 0;
                self.index.push(IndexEntry { key, gen, pos, len });
            },
        }
        self.uncompacted = self.uncompacted.saturating_add(old_len as u64);
        proof {
            let olds = old_s.segments();
            lemma_total_append(olds, gen, encode_mutation(m));
            assert(segs =~= olds.drop_last().push((gen, olds.last().1 + encode_mutation(m))));
            match found {
                Some(i) => {
                    lemma_live_update(old_index, i as int, self.index@[i as int]);
                    assert(self.index@ == old_index.update(i as int, self.index@[i as int]));
                },
                None => {
                    lemma_live_push(old_index, self.index@.last());
                    assert(self.index@ == old_index.push(self.index@.last()));
                },
            }
            lemma_clamp_add(total_bytes(olds) - live_bytes(old_index), old_len as nat);
            self.contents@ = self.contents@.insert(k, v);
            let idx = self.index@;
            assert(self.contents@ == replay(flatten(self.records@)));
            assert forall|i: int| 0 <= i < idx.len() implies self.entry_ok(#[trigger] idx[i]) by {
                let e = idx[i];
                if e.key@ == k {
                    assert(e.gen == gen && e.pos == pos);
                    assert(self.contents@[e.key@] == v);
                    assert(segs[last].0 == e.gen);
                    assert(holds_at(
                        self.segments()[last].1,
                        e.pos as int,
                        encode_mutation(Mutation::Put(e.key@, self.contents@[e.key@])),
                    ));
                } else {
                    assert(e == old_index[i]);
                    assert(old_s.entry_ok(e));
                    let j = choose|j: int|
                        0 <= j < old_s.segments().len() && #[trigger] old_s.segments()[j].0 == e.gen
                            && holds_at(
                            old_s.segments()[j].1,
                            e.pos as int,
                            encode_mutation(Mutation::Put(e.key@, old_s.contents@[e.key@])),
                        );
                    assert(segs[j].0 == e.gen);
                    if j == last {
                        lemma_holds_extend(
                            old_s.segments()[j].1,
                            e.pos as int,
                            encode_mutation(Mutation::Put(e.key@, old_s.contents@[e.key@])),
                            encode_mutation(m),
                        );
                    }
                    assert(self.contents@[e.key@] == old_s.contents@[e.key@]);
                    assert(holds_at(
                        self.segments()[j].1,
                        e.pos as int,
                        encode_mutation(Mutation::Put(e.key@, self.contents@[e.key@])),
                    ));
                }
            }
            assert forall|kk: Seq<char>|
                self.contents@.contains_key(kk) implies exists|i: int|
                    0 <= i < idx.len() && #[trigger] idx[i].key@ == kk by {
                if kk == k {
                    match found {
                        Some(i) => assert(idx[i as int].key@ == kk),
                        None => assert(idx[idx.len() - 1].key@ == kk),
                    }
                } else {
                    let i0 = choose|i: int| 0 <= i < old_index.len() && #[trigger] old_index[i].key@ == kk;
                    assert(idx[i0].key@ == kk);
                }
            }
            assert forall|kk: Seq<char>| (exists|i: int|
                    0 <= i < idx.len() && #[trigger] idx[i].key@ == kk) implies self.contents@.contains_key(kk) by {
                let i0 = choose|i: int| 0 <= i < idx.len() && #[trigger] idx[i].key@ == kk;
                if kk != k {
                    assert(old_index[i0].key@ == kk);
                }
            }
            assert forall|a: int, b: int| 0 <= a < b < idx.len() implies idx[a].key@ != idx[b].key@ by {
                match found {
                    Some(i) => {
                        assert(old_index[a].key@ != old_index[b].key@);
                    },
                    None => {
                        if b < old_index.len() {
                            assert(old_index[a].key@ != old_index[b].key@);
                        } else {
                            assert(old_index[a].key@ != k);
                        }
                    },
                }
            }
            if old_s.contents@.contains_key(k) {
                match found {
                    Some(i) => {},
                    None => {
                        let i0 = choose|i: int| 0 <= i < old_index.len() && #[trigger] old_index[i].key@ == k;
                        assert(old_index[i0].key@ != k);
                    },
                }
            } else {
                match found {
                    Some(i) => {
                        assert(old_index[i as int].key@ == k);
                    },
                    None => {},
                }
            }
        }
    }

    /// Appends the tombstone of the entry at `i` of the index and drops the entry.
    #[verifier::rlimit(30)]
    fn remove_record(&mut self, i: usize)
        requires
            old(self).wf(),
            i < old(self).index@.len(),
        ensures
            final(self).wf(),
            final(self)@ == old(self)@.remove(old(self).index@[i as int].key@),
            final(self).uncompacted == sat_add(
                sat_add(old(self).uncompacted, live_len(old(self)@, old(self).index@[i as int].key@)),
                encode_mutation(Mutation::Del(old(self).index@[i as int].key@)).len(),
            ),
            final(self).segments().len() == old(self).segments().len(),
            final(self).current_gen() == old(self).current_gen(),
            final(self).segments().drop_last() == old(self).segments().drop_last(),
            final(self).segments().last() == (old(self).current_gen(), old(self).segments().last().1
                + encode_mutation(Mutation::Del(old(self).index@[i as int].key@))),
            final(self).log_records() == old(self).log_records().update(
                old(self).log_records().len() - 1,
                old(self).log_records().last().push(Mutation::Del(old(self).index@[i as int].key@)),
            ),
            final(self).synced() == old(self).synced(),
    {
        let ghost old_s = *self;
        let ghost old_index = self.index@;
        let ghost k = self.index@[i as int].key@;
        proof {
            assert(old_s.entry_ok(old_index[i as int]));
        }
        let old_len = self.index[i].len;
        let cmd = Command::Remove { key: self.index[i].key.clone() };
        let ghost m = cmd@;
        let (_pos, len) = self.append_record(&cmd);
        proof {
            KvStore::lemma_append_keeps_log(&old_s, self, m);
        }
        let ghost segs = self.segments();
        let ghost last = segs.len() - 1;
        self.index.remove(i);
        self.uncompacted = self.uncompacted.saturating_add(old_len as u64);
        self.uncompacted = self.uncompacted.saturating_add(len as u64);
        proof {
            let olds = old_s.segments();
            lemma_total_append(olds, olds.last().0, encode_mutation(m));
            assert(segs =~= olds.drop_last().push((olds.last().0, olds.last().1 + encode_mutation(m))));
            lemma_live_remove(old_index, i as int);
            lemma_clamp_add(total_bytes(olds) - live_bytes(old_index), old_len as nat);
            lemma_clamp_add(total_bytes(olds) - live_bytes(old_index) + old_len, len as nat);
            self.contents@ = self.contents@.remove(k);
            let idx = self.index@;
            assert forall|a: int| 0 <= a < idx.len() implies #[trigger] idx[a] == (if a < i {
                old_index[a]
            } else {
                old_index[a + 1]
            }) by {}
            assert forall|a: int| 0 <= a < idx.len() implies self.entry_ok(#[trigger] idx[a]) by {
                let b = if a < i { a } else { a + 1 };
                let e = idx[a];
                assert(e == old_index[b]);
                assert(old_index[b].key@ != k);
                assert(old_s.entry_ok(e));
                let j = choose|j: int|
                    0 <= j < old_s.segments().len() && #[trigger] old_s.segments()[j].0 == e.gen
                        && holds_at(
                        old_s.segments()[j].1,
                        e.pos as int,
                        encode_mutation(Mutation::Put(e.key@, old_s.contents@[e.key@])),
                    );
                assert(segs[j].0 == e.gen);
                if j == last {
                    lemma_holds_extend(
                        old_s.segments()[j].1,
                        e.pos as int,
                        encode_mutation(Mutation::Put(e.key@, old_s.contents@[e.key@])),
                        encode_mutation(m),
                    );
                }
                assert(self.contents@[e.key@] == old_s.contents@[e.key@]);
                assert(holds_at(
                    self.segments()[j].1,
                    e.pos as int,
                    encode_mutation(Mutation::Put(e.key@, self.contents@[e.key@])),
                ));
            }
            assert forall|kk: Seq<char>|
                self.contents@.contains_key(kk) implies exists|a: int|
                    0 <= a < idx.len() && #[trigger] idx[a].key@ == kk by {
                let b = choose|b: int| 0 <= b < old_index.len() && #[trigger] old_index[b].key@ == kk;
                assert(b != i);
                if b < i {
                    assert(idx[b].key@ == kk);
                } else {
                    assert(idx[b - 1].key@ == kk);
                }
            }
            assert forall|kk: Seq<char>| (exists|a: int|
                    0 <= a < idx.len() && #[trigger] idx[a].key@ == kk) implies self.contents@.contains_key(kk) by {
                let a = choose|a: int| 0 <= a < idx.len() && #[trigger] idx[a].key@ == kk;
                let b = if a < i { a } else { a + 1 };
                assert(old_index[b].key@ == kk);
                assert(old_index[b].key@ != k);
            }
            assert forall|a: int, b: int| 0 <= a < b < idx.len() implies idx[a].key@ != idx[b].key@ by {
                let a2 = if a < i { a } else { a + 1 };
                let b2 = if b < i { b } else { b + 1 };
                assert(old_index[a2].key@ != old_index[b2].key@);
            }
        }
    }

    /// Copies every live record into a new segment, opens a second new one
    /// for appends, and retires every older segment.
    #[verifier::rlimit(100)]
    pub fn compact(&mut self) -> (r: Result<()>)
        requires
            old(self).wf(),
        ensures
            final(self).wf(),
            final(self)@ == old(self)@,
            r is Ok <==> old(self).current_gen() <= u64::MAX - 2,
            r is Ok ==> {
                &&& final(self).current_gen() == old(self).current_gen() + 2
                &&& final(self).segments().len() == 2
                &&& final(self).segments()[0].0 == old(self).current_gen() + 1
                &&& final(self).segments()[1].0 == old(self).current_gen() + 2
                &&& final(self).segments()[1].1.len() == 0
                &&& live_records(final(self).log_records()[0], final(self)@)
                &&& final(self).segments()[0].1 == encode_all(final(self).log_records()[0])
                &&& total_bytes(final(self).segments()) == final(self).segments()[0].1.len()
                &&& final(self).dead_bytes() == 0
            },
            r is Err ==> *final(self) == *old(self),
            r matches Err(e) ==> e.kind is UnexpectedError,
            final(self).synced() == old(self).synced(),
    {
        let gen = self.active.gen;
        if gen > u64::MAX - 2 {
            return Err(
                Error::new(ErrorKind::UnexpectedError(String::from_str("generation numbers exhausted"))),
            );
        }
        let c = gen + 1;
        let n = gen + 2;
        let ghost old_s = *self;
        let ghost segs = self.segments();
        let ghost contents = self.contents@;
        let ghost index = self.index@;
        let mut data: Vec<u8> = Vec::new();
        let mut new_index: Vec<IndexEntry> = Vec::new();
        let ghost mut recs: Seq<Mutation> = Seq::empty();
        let mut i: usize = 0;
        while i < self.index.len()
            invariant
                self.wf(),
                segs == self.segments(),
                contents == self.contents@,
                index == self.index@,
                i <= index.len(),
                recs.len() == i,
                new_index@.len() == i,
                data@ == encode_all(recs),
                dead_of(recs) == 0,
                data@.len() == live_bytes(new_index@),
                forall|a: int| 0 <= a < i ==> #[trigger] recs[a] == Mutation::Put(index[a].key@, contents[index[a].key@]),
                forall|a: int| 0 <= a < i ==> {
                    &&& (#[trigger] new_index@[a]).key@ == index[a].key@
                    &&& new_index@[a].gen == c
                    &&& new_index@[a].len == index[a].len
                    &&& holds_at(data@, new_index@[a].pos as int, encode_mutation(recs[a]))
                },
                forall|kk: Seq<char>| replay(recs).contains_key(kk) <==> exists|a: int| 0 <= a < i && #[trigger] index[a].key@ == kk,
                forall|a: int| 0 <= a < i ==> replay(recs)[#[trigger] index[a].key@] == contents[index[a].key@],
            decreases index.len() - i,
        {
            let e = &self.index[i];
            proof {
                assert(self.entry_ok(index[i as int]));
            }
            let src = self.segment_data(e.gen);
            let ghost m = Mutation::Put(e.key@, contents[e.key@]);
            let src_len = src.len();
            proof {
                let jw = choose|j: int|
                    0 <= j < segs.len() && #[trigger] segs[j].0 == e.gen && holds_at(
                        segs[j].1,
                        e.pos as int,
                        encode_mutation(m),
                    );
                assert(src@ == segs[jw].1);
                assert(src@.subrange(e.pos as int, e.pos + e.len) == encode_mutation(m));
            }
            let pos = data.len();
            let ghost before = data@;
            let ghost before_index = new_index@;
            let piece = vstd::slice::slice_subrange(src.as_slice(), e.pos, e.pos + e.len);
            append_bytes(&mut data, piece);
            new_index.push(IndexEntry { key: e.key.clone(), gen: c, pos, len: e.len });
            proof {
                lemma_live_push(before_index, new_index@.last());
                assert(new_index@ == before_index.push(new_index@.last()));
            }
            proof {
                let old_recs = recs;
                recs = recs.push(m);
                assert(recs.drop_last() =~= old_recs);
                if replay(old_recs).contains_key(e.key@) {
                    let a = choose|a: int| 0 <= a < i && #[trigger] index[a].key@ == e.key@;
                    assert(index[a].key@ != index[i as int].key@);
                }
                assert(dead_of(recs) == 0);
                assert(piece@ == encode_mutation(m));
                assert(data@ == encode_all(recs));
                assert forall|a: int| 0 <= a < i + 1 implies holds_at(data@, new_index@[a].pos as int, encode_mutation(#[trigger] recs[a])) by {
                    if a < i {
                        lemma_holds_extend(before, new_index@[a].pos as int, encode_mutation(recs[a]), piece@);
                    } else {
                        assert(data@.subrange(pos as int, pos + piece@.len()) =~= piece@);
                    }
                }
                assert forall|a: int| 0 <= a < i + 1 implies (#[trigger] new_index@[a]).key@ == index[a].key@
                    && new_index@[a].gen == c && new_index@[a].len == index[a].len by {}
                assert forall|kk: Seq<char>| replay(recs).contains_key(kk) <==> exists|a: int| 0 <= a < i + 1 && #[trigger] index[a].key@ == kk by {
                    if replay(recs).contains_key(kk) && kk != e.key@ {
                        let a = choose|a: int| 0 <= a < i && #[trigger] index[a].key@ == kk;
                    }
                    if exists|a: int| 0 <= a < i + 1 && #[trigger] index[a].key@ == kk {
                        let a = choose|a: int| 0 <= a < i + 1 && #[trigger] index[a].key@ == kk;
                        if a < i {
                            assert(replay(old_recs).contains_key(kk));
                        }
                    }
                }
                assert forall|a: int| 0 <= a < i + 1 implies replay(recs)[#[trigger] index[a].key@] == contents[index[a].key@] by {
                    if a < i {
                        assert(index[a].key@ != index[i as int].key@);
                    }
                }
            }
            i = i + 1;
        }
        let ghost old_pending = self.pending_ops();
        let ghost old_image = self.image();
        let mut copy: Vec<u8> = Vec::new();
        append_bytes(&mut copy, data.as_slice());
        self.pending.push(LogOp::Create { gen: c });
        self.pending.push(LogOp::Append { gen: c, bytes: copy });
        self.pending.push(LogOp::Create { gen: n });
        let ghost mid = old_image.insert(c, data@).insert(n, Seq::empty());
        proof {
            let p = self.pending_ops();
            let with_compacted = old_pending.push(FileOp::Create(c));
            let with_copy = with_compacted.push(FileOp::Append(c, data@));
            let with_active = with_copy.push(FileOp::Create(n));
            assert(p =~= with_active);
            assert(with_active.drop_last() =~= with_copy);
            assert(with_copy.drop_last() =~= with_compacted);
            assert(with_compacted.drop_last() =~= old_pending);
            assert(apply_ops(self.synced@, old_pending) == old_image);
            assert(apply_ops(self.synced@, with_compacted) == old_image.insert(c, Seq::empty()));
            assert(Seq::<u8>::empty() + data@ =~= data@);
            assert(apply_ops(self.synced@, with_copy) =~= old_image.insert(c, data@));
            assert(apply_ops(self.synced@, p) =~= mid);
        }
        proof {
            assert forall|a: int| 0 <= a < segs.len() implies #[trigger] segs[a].0 <= gen by {
                if a < segs.len() - 1 {
                    assert(segs[a].0 < segs[segs.len() - 1].0);
                }
            }
        }
        let mut j: usize = 0;
        let count = self.sealed.len();
        while j < count
            invariant
                self.sealed == old_s.sealed,
                self.active == old_s.active,
                self.index == old_s.index,
                self.contents == old_s.contents,
                self.synced == old_s.synced,
                self.records == old_s.records,
                segs == self.segments(),
                count == self.sealed@.len(),
                j <= count,
                old_image == image_of(segs),
                apply_ops(self.synced@, self.pending_ops()) == Map::new(
                    |g: u64| mid.contains_key(g) && !(exists|a: int| 0 <= a < j && #[trigger] segs[a].0 == g),
                    |g: u64| mid[g],
                ),
                forall|a: int| 0 <= a < segs.len() ==> #[trigger] segs[a].0 <= gen,
            decreases count - j,
        {
            let g = self.sealed[j].gen;
            proof {
                assert(segs.len() == count + 1);
                assert(segs[j as int].0 == g);
            }
            let ghost before = self.pending_ops();
            self.pending.push(LogOp::Delete { gen: g });
            proof {
                assert(self.pending_ops().drop_last() =~= before);
                assert(apply_ops(self.synced@, self.pending_ops()) =~= Map::new(
                    |g2: u64| mid.contains_key(g2) && !(exists|a: int| 0 <= a < j + 1 && #[trigger] segs[a].0 == g2),
                    |g2: u64| mid[g2],
                ));
            }
            j = j + 1;
        }
        let ghost before = self.pending_ops();
        self.pending.push(LogOp::Delete { gen });
        proof {
            assert(segs[count as int].0 == gen);
            assert(self.pending_ops().drop_last() =~= before);
            assert(apply_ops(self.synced@, self.pending_ops()) =~= Map::new(
                |g2: u64| mid.contains_key(g2) && !(exists|a: int| 0 <= a < count + 1 && #[trigger] segs[a].0 == g2),
                |g2: u64| mid[g2],
            ));
        }
        let ghost cdata = data@;
        self.sealed = vec![Segment { gen: c, data }];
        self.active = Segment { gen: n, data: Vec::new() };
        self.index = new_index;
        self.uncompacted = 0;
        proof {
            self.records@ = seq![recs, Seq::empty()];
            let nsegs = self.segments();
            assert(nsegs =~= seq![(c, cdata), (n, Seq::<u8>::empty())]);
            assert(encode_all(Seq::<Mutation>::empty()) =~= Seq::<u8>::empty());
            assert(flatten(self.records@) =~= recs) by {
                let rr = self.records@;
                let r1 = rr.drop_last();
                assert(r1.drop_last() =~= Seq::<Seq<Mutation>>::empty());
                assert(flatten(r1.drop_last()) == Seq::<Mutation>::empty());
                assert(r1.last() == recs);
                assert(flatten(r1) =~= recs);
                assert(rr.last() == Seq::<Mutation>::empty());
            }
            assert(replay(recs) =~= contents) by {
                assert forall|kk: Seq<char>| replay(recs).contains_key(kk) <==> contents.contains_key(kk) by {
                    if contents.contains_key(kk) {
                        let a = choose|a: int| 0 <= a < index.len() && #[trigger] index[a].key@ == kk;
                    }
                    if replay(recs).contains_key(kk) {
                        let a = choose|a: int| 0 <= a < index.len() && #[trigger] index[a].key@ == kk;
                    }
                }
                assert forall|kk: Seq<char>| #[trigger] replay(recs).contains_key(kk) implies replay(recs)[kk] == contents[kk] by {
                    let a = choose|a: int| 0 <= a < index.len() && #[trigger] index[a].key@ == kk;
                }
            }
            let idx = self.index@;
            assert(old_s.wf());
            assert forall|a: int| 0 <= a < idx.len() implies self.entry_ok(#[trigger] idx[a]) by {
                assert(old_s.entry_ok(index[a]));
                assert(nsegs[0].0 == idx[a].gen);
                assert(nsegs[0].1 == cdata);
                assert(recs[a] == Mutation::Put(idx[a].key@, self.contents@[idx[a].key@]));
                assert(holds_at(nsegs[0].1, idx[a].pos as int, encode_mutation(recs[a])));
            }
            assert forall|kk: Seq<char>| self.contents@.contains_key(kk) <==> exists|a: int|
                0 <= a < idx.len() && #[trigger] idx[a].key@ == kk by {
                if self.contents@.contains_key(kk) {
                    let a = choose|a: int| 0 <= a < index.len() && #[trigger] index[a].key@ == kk;
                    assert(idx[a].key@ == kk);
                }
                if exists|a: int| 0 <= a < idx.len() && #[trigger] idx[a].key@ == kk {
                    let a = choose|a: int| 0 <= a < idx.len() && #[trigger] idx[a].key@ == kk;
                    assert(index[a].key@ == kk);
                }
            }
            assert forall|a: int, b: int| 0 <= a < b < idx.len() implies idx[a].key@ != idx[b].key@ by {
                assert(index[a].key@ != index[b].key@);
            }
            assert forall|g: u64| old_image.contains_key(g) implies g <= gen by {
                lemma_image_dom(segs, g);
                let a = choose|a: int| 0 <= a < segs.len() && #[trigger] segs[a].0 == g;
            }
            assert(self.image() =~= Map::empty().insert(c, cdata).insert(n, Seq::<u8>::empty())) by {
                let d1 = nsegs.drop_last();
                assert(d1.drop_last() =~= Seq::<(u64, Seq<u8>)>::empty());
                assert(image_of(d1.drop_last()) == Map::<u64, Seq<u8>>::empty());
                assert(d1.last() == (c, cdata));
                assert(image_of(d1) == Map::<u64, Seq<u8>>::empty().insert(c, cdata));
                assert(nsegs.last() == (n, Seq::<u8>::empty()));
            }
            assert forall|g: u64| mid.contains_key(g) && !(exists|a: int| 0 <= a < count + 1 && #[trigger] segs[a].0 == g) <==> (g == c || g == n) by {
                lemma_image_dom(segs, g);
            }
            assert(apply_ops(self.synced@, self.pending_ops()) =~= self.image());
            assert(total_bytes(nsegs.drop_last().drop_last()) == 0);
            assert(total_bytes(nsegs.drop_last()) == cdata.len());
            assert(total_bytes(nsegs) == cdata.len());
            assert forall|a: int| 0 <= a < recs.len() implies (#[trigger] recs[a] matches Mutation::Put(k, v) && contents.contains_key(k) && contents[k] == v) by {
                assert(old_s.entry_ok(index[a]));
            }
            assert forall|a: int, b: int| 0 <= a < b < recs.len() implies recs[a] != recs[b] by {
                assert(index[a].key@ != index[b].key@);
            }
            assert forall|k: Seq<char>| contents.contains_key(k) implies exists|a: int| 0 <= a < recs.len() && #[trigger] recs[a] == Mutation::Put(k, contents[k]) by {
                let a = choose|a: int| 0 <= a < index.len() && #[trigger] index[a].key@ == k;
                assert(recs[a] == Mutation::Put(k, contents[k]));
            }
        }
        Ok(())
    }

    /// `self` is what a successful compaction of `old` leaves.
    pub open spec fn compacted_from(&self, old: KvStore) -> bool {
        &&& self.current_gen() == old.current_gen() + 2
        &&& self.dead_bytes() == 0
        &&& self.segments().len() == 2
        &&& self.segments()[0].0 == old.current_gen() + 1
        &&& self.segments()[1].0 == old.current_gen() + 2
        &&& self.segments()[1].1.len() == 0
        &&& live_records(self.log_records()[0], self@)
        &&& self.segments()[0].1 == encode_all(self.log_records()[0])
        &&& total_bytes(self.segments()) == self.segments()[0].1.len()
    }

    /// `self` is `old` with the record `m` appended to its active segment,
    /// and `dead` dead bytes.
    pub open spec fn appended_from(&self, old: KvStore, m: Mutation, dead: u64) -> bool {
        &&& self.current_gen() == old.current_gen()
        &&& self.dead_bytes() == dead
        &&& self.segments().drop_last() == old.segments().drop_last()
        &&& self.segments().last() == (old.current_gen(), old.segments().last().1 + encode_mutation(m))
        &&& self.log_records() == old.log_records().update(
            old.log_records().len() - 1,
            old.log_records().last().push(m),
        )
    }

    /// A `set` of `k` on this store is followed by a compaction.
    pub open spec fn compacts_after_set(&self, k: Seq<char>) -> bool {
        sat_add(self.dead_bytes(), live_len(self@, k)) >= COMPACTION_THRESHOLD
    }

    /// A `remove` of `k` on this store is followed by a compaction.
    pub open spec fn compacts_after_remove(&self, k: Seq<char>) -> bool {
        sat_add(
            sat_add(self.dead_bytes(), live_len(self@, k)),
            encode_mutation(Mutation::Del(k)).len(),
        ) >= COMPACTION_THRESHOLD
    }

    /// Sets `key` to `value`.
    ///
    /// The record is appended to the active segment and the index points at
    /// it. The record that it supersedes, if any, becomes dead; once the dead
    /// bytes reach `COMPACTION_THRESHOLD` the log is compacted. The only
    /// failure is a compaction that finds no fresh generation numbers, and
    /// the value is set even then.
    pub fn set(&mut self, key: String, value: String) -> (r: Result<()>)
        requires
            old(self).wf(),
        ensures
            final(self).wf(),
            final(self)@ == old(self)@.insert(key@, value@),
            final(self).synced() == old(self).synced(),
            r is Err <==> old(self).compacts_after_set(key@) && old(self).current_gen() > u64::MAX - 2,
            r matches Err(e) ==> e.kind is UnexpectedError,
            !old(self).compacts_after_set(key@) || r is Err ==> final(self).appended_from(
                *old(self),
                Mutation::Put(key@, value@),
                sat_add(old(self).dead_bytes(), live_len(old(self)@, key@)),
            ),
            old(self).compacts_after_set(key@) && r is Ok ==> final(self).compacted_from(*old(self)),
            r is Ok ==> final(self).dead_bytes() < COMPACTION_THRESHOLD,
            final(self).segments().len() == old(self).segments().len()
                || final(self).segments().len() == 2,
    {
        let ghost k = key@;
        self.put_record(key, value);
        if self.uncompacted >= COMPACTION_THRESHOLD {
            self.compact()
        } else {
            Ok(())
        }
    }

    /// Removes `key`.
    ///
    /// A key that the store does not hold is an error of kind `KeyNotFound`,
    /// and nothing changes. Otherwise a tombstone is appended, the entry
    /// leaves the index, and the removed record and the tombstone count as
    /// dead bytes, which may start a compaction as in `set`.
    pub fn remove(&mut self, key: String) -> (r: Result<()>)
        requires
            old(self).wf(),
        ensures
            final(self).wf(),
            !old(self)@.contains_key(key@) ==> (r matches Err(e) && e.kind is KeyNotFound) && *final(self) == *old(self),
            old(self)@.contains_key(key@) ==> {
                &&& final(self)@ == old(self)@.remove(key@)
                &&& (r is Err <==> old(self).compacts_after_remove(key@) && old(self).current_gen() > u64::MAX - 2)
                &&& (r matches Err(e) ==> e.kind is UnexpectedError)
                &&& (!old(self).compacts_after_remove(key@) || r is Err ==> final(self).appended_from(
                    *old(self),
                    Mutation::Del(key@),
                    sat_add(
                        sat_add(old(self).dead_bytes(), live_len(old(self)@, key@)),
                        encode_mutation(Mutation::Del(key@)).len(),
                    ),
                ))
                &&& (old(self).compacts_after_remove(key@) && r is Ok ==> final(self).compacted_from(*old(self)))
                &&& (r is Ok ==> final(self).dead_bytes() < COMPACTION_THRESHOLD)
            },
            final(self).synced() == old(self).synced(),
            final(self).segments().len() == old(self).segments().len()
                || final(self).segments().len() == 2,
    {
        match self.find_entry(&key) {
            None => {
                proof {
                    if self@.contains_key(key@) {
                        let a = choose|a: int| 0 <= a < self.index@.len() && #[trigger] self.index@[a].key@ == key@;
                    }
                }
                Err(Error::new(ErrorKind::KeyNotFound))
            },
            Some(i) => {
                proof {
                    assert(self.entry_ok(self.index@[i as int]));
                }
                self.remove_record(i);
                if self.uncompacted >= COMPACTION_THRESHOLD {
                    self.compact()
                } else {
                    Ok(())
                }
            },
        }
    }

    /// What every store satisfies: each segment holds the encoding of its
    /// records, in increasing generations, the active one last; the state is
    /// what the records leave; the dead bytes are those that the records
    /// make dead; and the log holds exactly the dead bytes and the bytes of
    /// the records of the live keys.
    pub proof fn law_log_state(s: &KvStore)
        requires
            s.wf(),
        ensures
            gens_increasing(s.segments()),
            s.current_gen() == s.segments().last().0,
            s.log_records().len() == s.segments().len(),
            forall|j: int| 0 <= j < s.segments().len() ==> #[trigger] s.segments()[j].1 == encode_all(s.log_records()[j]),
            s@ == replay(flatten(s.log_records())),
            s.dead_bytes() == clamp(dead_of(flatten(s.log_records())) as int),
            s.dead_bytes() == clamp(total_bytes(s.segments()) - s.live_bytes()),
            total_bytes(s.segments()) >= s.live_bytes(),
            total_bytes(s.segments()) == s.live_bytes() + dead_of(flatten(s.log_records())),
            exists|ls: Seq<Mutation>| live_records(ls, s@) && #[trigger] encode_all(ls).len() == s.live_bytes(),
    {
        let idx = s.index@;
        let m = s.contents@;
        let ls = index_records(idx, m);
        assert forall|i: int| 0 <= i < idx.len() implies (#[trigger] idx[i]).len == encode_mutation(
            Mutation::Put(idx[i].key@, m[idx[i].key@]),
        ).len() by {
            assert(s.entry_ok(idx[i]));
        }
        lemma_index_records_len(idx, m);
        assert forall|a: int| 0 <= a < ls.len() implies (#[trigger] ls[a] matches Mutation::Put(k, v)
            && m.contains_key(k) && m[k] == v) by {
            assert(s.entry_ok(idx[a]));
        }
        assert forall|a: int, b: int| 0 <= a < b < ls.len() implies ls[a] != ls[b] by {
            assert(idx[a].key@ != idx[b].key@);
        }
        assert forall|k: Seq<char>| m.contains_key(k) implies exists|a: int|
            0 <= a < ls.len() && #[trigger] ls[a] == Mutation::Put(k, m[k]) by {
            let a = choose|a: int| 0 <= a < idx.len() && #[trigger] idx[a].key@ == k;
            assert(ls[a] == Mutation::Put(k, m[k]));
        }
        assert(live_records(ls, s@));
    }

    /// While the dead bytes stay under the threshold, as every successful
    /// `set` and `remove` leaves them, the log is smaller than the live records
    /// plus `COMPACTION_THRESHOLD`; with a single key, the live records are
    /// that key's one `Set` record.
    pub proof fn law_log_size(s: &KvStore)
        requires
            s.wf(),
        ensures
            s.dead_bytes() < COMPACTION_THRESHOLD ==> total_bytes(s.segments()) < s.live_bytes()
                + COMPACTION_THRESHOLD,
            forall|x: Seq<char>| #[trigger] s@.dom() == set![x] ==> s.live_bytes() == encode_mutation(
                Mutation::Put(x, s@[x]),
            ).len(),
    {
        KvStore::law_log_state(s);
        assert forall|x: Seq<char>| #[trigger] s@.dom() == set![x] implies s.live_bytes() == encode_mutation(
            Mutation::Put(x, s@[x]),
        ).len() by {
            let ls = choose|ls: Seq<Mutation>| live_records(ls, s@) && #[trigger] encode_all(ls).len() == s.live_bytes();
            assert(s@.contains_key(x));
            let a = choose|a: int| 0 <= a < ls.len() && #[trigger] ls[a] == Mutation::Put(x, s@[x]);
            assert forall|b: int| 0 <= b < ls.len() implies ls[b] == Mutation::Put(x, s@[x]) by {
                if let Mutation::Put(k, v) = ls[b] {
                    assert(s@.dom().contains(k));
                }
            }
            if ls.len() > 1 {
                let b = if a == 0 { 1int } else { 0int };
                assert(ls[a] != ls[b]);
            }
            assert(ls =~= seq![Mutation::Put(x, s@[x])]);
            assert(ls.drop_last() =~= Seq::<Mutation>::empty());
            assert(encode_all(ls.drop_last()) == Seq::<u8>::empty());
        }
    }

    /// The bytes of the records that the index points at: one `Set` record
    /// for each key of the state, with its value.
    pub closed spec fn live_bytes(&self) -> nat {
        live_bytes(self.index@)
    }

    /// The dead bytes never exceed the bytes of the log, and are fewer while
    /// the store holds a key. (After a compaction there are none, and the log
    /// is exactly the live records: see `compact`.)
    pub proof fn law_dead_bytes(s: &KvStore)
        requires
            s.wf(),
        ensures
            s.dead_bytes() <= total_bytes(s.segments()),
            (exists|k: Seq<char>| s@.contains_key(k)) ==> s.dead_bytes() < total_bytes(s.segments()),
    {
        if exists|k: Seq<char>| s@.contains_key(k) {
            let k = choose|k: Seq<char>| s@.contains_key(k);
            let a = choose|a: int| 0 <= a < s.index@.len() && #[trigger] s.index@[a].key@ == k;
            assert(s.entry_ok(s.index@[a]));
            lemma_encode_nonempty(Mutation::Put(k, s@[k]));
            lemma_live_update(s.index@, a, s.index@[a]);
        }
    }

    /// Hands out the file operations that bring the data directory from its
    /// last handed-out state to the store's segments, oldest first.
    pub fn take_log_ops(&mut self) -> (r: Vec<LogOp>)
        requires
            old(self).wf(),
        ensures
            final(self).wf(),
            final(self)@ == old(self)@,
            final(self).segments() == old(self).segments(),
            final(self).current_gen() == old(self).current_gen(),
            final(self).log_records() == old(self).log_records(),
            final(self).dead_bytes() == old(self).dead_bytes(),
            apply_ops(old(self).synced(), r@.map_values(|o: LogOp| o@)) == final(self).image(),
            final(self).synced() == final(self).image(),
            final(self).pending_ops().len() == 0,
    {
        let mut ops: Vec<LogOp> = Vec::new();
        std::mem::swap(&mut ops, &mut self.pending);
        proof {
            self.synced@ = self.image();
            assert(self.segments() =~= old(self).segments());
            assert(self.index@ == old(self).index@);
            assert(self.uncompacted == old(self).uncompacted);
            assert(self.pending_ops() =~= Seq::<FileOp>::empty());
            assert(apply_ops(self.synced@, self.pending_ops()) == self.image());
            assert(ops@.map_values(|o: LogOp| o@) =~= old(self).pending_ops());
        }
        ops
    }

    /// An empty store whose active segment is the new generation `gen`.
    fn fresh(gen: u64) -> (r: KvStore)
        ensures
            r.wf(),
            r@ == Map::<Seq<char>, Seq<char>>::empty(),
            r.segments() == seq![(gen, Seq::<u8>::empty())],
            r.log_records() == seq![Seq::<Mutation>::empty()],
            r.synced() == Map::<u64, Seq<u8>>::empty(),
            r.pending_ops() == seq![FileOp::Create(gen)],
            r.dead_bytes() == 0,
    {
        let mut pending: Vec<LogOp> = Vec::new();
        pending.push(LogOp::Create { gen });
        let r = KvStore {
            sealed: Vec::new(),
            active: Segment { gen, data: Vec::new() },
            index: Vec::new(),
            uncompacted: 0,
            pending,
            contents: Ghost(Map::<Seq<char>, Seq<char>>::empty()),
            records: Ghost(Seq::<Seq<Mutation>>::empty().push(Seq::<Mutation>::empty())),
            synced: Ghost(Map::<u64, Seq<u8>>::empty()),
        };
        proof {
            assert(r.segments() =~= seq![(gen, Seq::<u8>::empty())]);
            assert(r.segments().drop_last() =~= Seq::<(u64, Seq<u8>)>::empty());
            assert(r.pending_ops() =~= seq![FileOp::Create(gen)]);
            assert(r.pending_ops().drop_last() =~= Seq::<FileOp>::empty());
            assert(apply_ops(Map::empty(), r.pending_ops().drop_last()) == Map::<u64, Seq<u8>>::empty());
            assert(image_of(r.segments().drop_last()) == Map::<u64, Seq<u8>>::empty());
            assert(apply_ops(Map::empty(), r.pending_ops()) =~= r.image());
            assert(encode_all(Seq::<Mutation>::empty()) =~= Seq::<u8>::empty());
            let rr = r.records@;
            assert(rr.drop_last() =~= Seq::<Seq<Mutation>>::empty());
            assert(flatten(rr.drop_last()) == Seq::<Mutation>::empty());
            assert(flatten(rr) =~= Seq::<Mutation>::empty());
            assert(replay(Seq::<Mutation>::empty()) == Map::<Seq<char>, Seq<char>>::empty());
            assert(total_bytes(r.segments().drop_last()) == 0);
            assert(total_bytes(r.segments()) == 0);
            assert(live_bytes(r.index@) == 0);
        }
        r
    }

    /// Seals the active segment and opens the new generation `gen` for appends.
    fn seal_and_start(&mut self, gen: u64)
        requires
            old(self).wf(),
            gen > old(self).current_gen(),
        ensures
            final(self).wf(),
            final(self)@ == old(self)@,
            final(self).segments() == old(self).segments().push((gen, Seq::<u8>::empty())),
            final(self).log_records() == old(self).log_records().push(Seq::<Mutation>::empty()),
            final(self).synced() == old(self).synced(),
            final(self).pending_ops() == old(self).pending_ops().push(FileOp::Create(gen)),
            final(self).dead_bytes() == old(self).dead_bytes(),
    {
        let ghost old_s = *self;
        let mut seg = Segment { gen, data: Vec::new() };
        std::mem::swap(&mut seg, &mut self.active);
        self.sealed.push(seg);
        self.pending.push(LogOp::Create { gen });
        proof {
            self.records@ = self.records@.push(Seq::empty());
            let segs = self.segments();
            let olds = old_s.segments();
            assert(segs =~= olds.push((gen, Seq::<u8>::empty())));
            assert forall|i: int, j: int| 0 <= i < j < segs.len() implies segs[i].0 < segs[j].0 by {
                if j == segs.len() - 1 && i < olds.len() - 1 {
                    assert(olds[i].0 < olds[olds.len() - 1].0);
                }
            }
            assert(encode_all(Seq::<Mutation>::empty()) =~= Seq::<u8>::empty());
            assert forall|j: int| 0 <= j < segs.len() implies #[trigger] segs[j].1 == encode_all(self.records@[j]) by {
                if j < olds.len() {
                    assert(olds[j].1 == encode_all(old_s.records@[j]));
                }
            }
            assert(self.records@.drop_last() =~= old_s.records@);
            assert(flatten(self.records@) =~= flatten(old_s.records@));
            assert forall|i: int| 0 <= i < self.index@.len() implies self.entry_ok(#[trigger] self.index@[i]) by {
                let e = self.index@[i];
                assert(old_s.entry_ok(e));
                let j = choose|j: int|
                    0 <= j < olds.len() && #[trigger] olds[j].0 == e.gen && holds_at(
                        olds[j].1,
                        e.pos as int,
                        encode_mutation(Mutation::Put(e.key@, old_s.contents@[e.key@])),
                    );
                assert(segs[j] == olds[j]);
            }
            assert(self.pending_ops().drop_last() =~= old_s.pending_ops());
            assert(self.pending_ops() =~= old_s.pending_ops().push(FileOp::Create(gen)));
            assert(segs.drop_last() =~= olds);
            assert(apply_ops(self.synced@, self.pending_ops()) =~= self.image());
        }
    }

    /// Appends the tombstone of a key that the store does not hold.
    fn keep_tombstone(&mut self, key: String)
        requires
            old(self).wf(),
            !old(self)@.contains_key(key@),
        ensures
            final(self).wf(),
            final(self)@ == apply_mutation(old(self)@, Mutation::Del(key@)),
            final(self).current_gen() == old(self).current_gen(),
            final(self).segments().drop_last() == old(self).segments().drop_last(),
            final(self).segments().last() == (old(self).current_gen(), old(self).segments().last().1
                + encode_mutation(Mutation::Del(key@))),
            final(self).log_records() == old(self).log_records().update(
                old(self).log_records().len() - 1,
                old(self).log_records().last().push(Mutation::Del(key@)),
            ),
            final(self).synced() == old(self).synced(),
    {
        let ghost old_s = *self;
        let c = Command::Remove { key };
        let (_pos, len) = self.append_record(&c);
        proof {
            KvStore::lemma_append_keeps_log(&old_s, self, c@);
            assert(self.contents@ =~= self.contents@.remove(c@->Del_0));
            let segs = self.segments();
            assert forall|i: int| 0 <= i < self.index@.len() implies self.entry_ok(#[trigger] self.index@[i]) by {
                let e = self.index@[i];
                assert(old_s.entry_ok(e));
                let j = choose|j: int|
                    0 <= j < old_s.segments().len() && #[trigger] old_s.segments()[j].0 == e.gen && holds_at(
                        old_s.segments()[j].1,
                        e.pos as int,
                        encode_mutation(Mutation::Put(e.key@, old_s.contents@[e.key@])),
                    );
                assert(segs[j].0 == e.gen);
                if j == segs.len() - 1 {
                    lemma_holds_extend(
                        old_s.segments()[j].1,
                        e.pos as int,
                        encode_mutation(Mutation::Put(e.key@, old_s.contents@[e.key@])),
                        encode_mutation(c@),
                    );
                }
            }
        }
        self.uncompacted = self.uncompacted.saturating_add(len as u64);
    }

    /// Takes in one record read from the log, as `set` or `remove` would,
    /// except that a tombstone of an absent key is kept too.
    fn apply_loaded(&mut self, cmd: Command)
        requires
            old(self).wf(),
        ensures
            final(self).wf(),
            final(self)@ == apply_mutation(old(self)@, cmd@),
            final(self).current_gen() == old(self).current_gen(),
            final(self).segments().drop_last() == old(self).segments().drop_last(),
            final(self).segments().last() == (old(self).current_gen(), old(self).segments().last().1
                + encode_mutation(cmd@)),
            final(self).log_records() == old(self).log_records().update(
                old(self).log_records().len() - 1,
                old(self).log_records().last().push(cmd@),
            ),
            final(self).synced() == old(self).synced(),
    {
        match cmd {
            Command::Put { key, value } => {
                self.put_record(key, value);
            },
            Command::Remove { key } => {
                match self.find_entry(&key) {
                    Some(i) => {
                        self.remove_record(i);
                    },
                    None => {
                        proof {
                            if self@.contains_key(key@) {
                                let a = choose|a: int| 0 <= a < self.index@.len() && #[trigger] self.index@[a].key@ == key@;
                            }
                        }
                        self.keep_tombstone(key);
                    },
                }
            },
        }
    }

    /// Reads the records of `data` into the empty active segment.
    #[verifier::rlimit(60)]
    fn load_segment(&mut self, data: &Vec<u8>) -> (r: Result<()>)
        requires
            old(self).wf(),
            old(self).segments().last().1.len() == 0,
            old(self).log_records().last().len() == 0,
        ensures
            r is Ok <==> is_log(data@),
            r matches Err(e) ==> e.kind is Serde,
            r is Ok ==> {
                &&& final(self).wf()
                &&& final(self).current_gen() == old(self).current_gen()
                &&& final(self).segments() == old(self).segments().drop_last().push(
                    (old(self).current_gen(), data@),
                )
                &&& final(self).log_records().drop_last() == old(self).log_records().drop_last()
                &&& final(self).log_records().len() == old(self).log_records().len()
                &&& encode_all(final(self).log_records().last()) == data@
                &&& forall|rs: Seq<Mutation>| data@ == encode_all(rs) ==> final(self).log_records().last() == rs
                &&& final(self).synced() == old(self).synced()
            },
    {
        let ghost old_s = *self;
        let ghost last = old_s.records@.len() - 1;
        let ghost mut loaded: Seq<Mutation> = Seq::empty();
        let mut pos: usize = 0;
        proof {
            assert(old_s.segments().last().1 =~= data@.subrange(0, 0));
            assert(old_s.wf());
            assert(old_s.log_records().len() == old_s.segments().len());
            assert(old_s.log_records()[last] == loaded);
            assert(old_s.log_records() =~= old_s.log_records().update(last, loaded));
            assert(encode_all(loaded) =~= Seq::<u8>::empty());
            assert forall|rs: Seq<Mutation>| data@ == encode_all(rs) implies loaded.len() <= rs.len()
                && loaded == rs.take(loaded.len() as int) by {
                assert(rs.take(0) =~= loaded);
            }
        }
        while pos < data.len()
            invariant
                self.wf(),
                pos <= data@.len(),
                self.current_gen() == old_s.current_gen(),
                self.segments().drop_last() == old_s.segments().drop_last(),
                self.segments().last().1 == data@.subrange(0, pos as int),
                self.segments().len() == old_s.segments().len(),
                self.log_records() == old_s.log_records().update(last, loaded),
                last == old_s.log_records().len() - 1,
                0 <= last < old_s.log_records().len(),
                encode_all(loaded) == data@.subrange(0, pos as int),
                self.synced() == old_s.synced(),
                forall|rs: Seq<Mutation>|
                    data@ == encode_all(rs) ==> loaded.len() <= rs.len() && loaded == rs.take(
                        loaded.len() as int,
                    ),
            decreases data@.len() - pos,
        {
            proof {
                assert forall|rs: Seq<Mutation>| data@ == encode_all(rs) implies loaded.len() < rs.len()
                    && holds_at(data@, pos as int, encode_mutation(rs[loaded.len() as int])) by {
                    if loaded.len() == rs.len() {
                        assert(rs.take(loaded.len() as int) =~= rs);
                    } else {
                        lemma_encode_all_at(rs, loaded.len() as int);
                    }
                }
            }
            match Command::decode(data.as_slice(), pos) {
                Decoded::Done(cmd, _end) => {
                    let enc = cmd.encode();
                    match match_token(data.as_slice(), pos, enc.as_slice()) {
                        Decoded::Done(_, _) => {},
                        _ => {
                            return Err(Error::new(ErrorKind::Serde(String::from_str("record not in canonical form"))));
                        },
                    }
                    let ghost m = cmd@;
                    let ghost prev = self.log_records();
                    proof {
                        assert(prev.len() == old_s.log_records().len());
                        assert(prev.last() == loaded);
                    }
                    self.apply_loaded(cmd);
                    let next = pos + enc.len();
                    proof {
                        let old_loaded = loaded;
                        loaded = loaded.push(m);
                        assert(loaded.drop_last() =~= old_loaded);
                        assert(data@.subrange(0, next as int) =~= data@.subrange(0, pos as int) + encode_mutation(m));
                        assert(self.log_records() == prev.update(last, old_loaded.push(m)));
                        assert(self.log_records() =~= old_s.log_records().update(last, loaded));
                        assert forall|rs: Seq<Mutation>| data@ == encode_all(rs) implies loaded.len() <= rs.len()
                            && loaded == rs.take(loaded.len() as int) by {
                            assert(rs[old_loaded.len() as int] == m);
                            assert(rs.take(loaded.len() as int) =~= rs.take(old_loaded.len() as int).push(m));
                        }
                    }
                    pos = next;
                },
                _ => {
                    return Err(Error::new(ErrorKind::Serde(String::from_str("malformed record"))));
                },
            }
        }
        proof {
            assert(data@.subrange(0, pos as int) =~= data@);
            assert forall|rs: Seq<Mutation>| data@ == encode_all(rs) implies loaded == rs by {
                if loaded.len() < rs.len() {
                    lemma_encode_all_at(rs, loaded.len() as int);
                    lemma_encode_nonempty(rs[loaded.len() as int]);
                    assert(rs.take(loaded.len() as int) == loaded);
                } else {
                    assert(rs.take(loaded.len() as int) =~= rs);
                }
            }
            assert(self.segments() =~= old_s.segments().drop_last().push((old_s.current_gen(), data@)));
            assert(self.log_records().drop_last() =~= old_s.log_records().drop_last());
        }
        Ok(())
    }

    /// Opens the store on the segments of a data directory, oldest first.
    ///
    /// Every record is read in order to rebuild the index and the count of
    /// dead bytes, and a new, empty generation after the last one becomes the
    /// active segment. Its creation is the one file operation pending.
    pub fn open(logs: Vec<Segment>) -> (r: Result<KvStore>)
        ensures
            r is Ok <==> can_open(logs@),
            r matches Err(e) ==> (e.kind is UnexpectedError || e.kind is Serde),
            r matches Err(e) ==> (e.kind is Serde <==> gens_fit(logs@)),
            r matches Ok(s) ==> {
                &&& s.wf()
                &&& s@ == replay(flatten(s.log_records()))
                &&& s.current_gen() == next_gen(logs@)
                &&& s.dead_bytes() == clamp(dead_of(flatten(s.log_records())) as int)
                &&& s.segments() == segment_views(logs@).push((next_gen(logs@), Seq::<u8>::empty()))
                &&& s.log_records().len() == logs@.len() + 1
                &&& s.log_records().last().len() == 0
                &&& s.synced() == image_of(segment_views(logs@))
                &&& s.pending_ops() == seq![FileOp::Create(next_gen(logs@))]
                &&& forall|j: int, rs: Seq<Mutation>|
                    0 <= j < logs@.len() && logs@[j].data@ == encode_all(rs) ==> s.log_records()[j] == rs
            },
            forall|s0: KvStore| #[trigger] s0.wf() && s0.segments() == segment_views(logs@)
                && s0.current_gen() < u64::MAX ==> (r matches Ok(s) && s@ == s0@),
    {
        let r = KvStore::open_segments(logs);
        proof {
            if r is Ok {
                let s = r->Ok_0;
                let last = s.segments().len() - 1;
                assert(s.segments()[last].1 == encode_all(s.records@[last]));
                KvStore::lemma_encode_all_empty(s.records@[last]);
            }
            assert forall|s0: KvStore| #[trigger] s0.wf() && s0.segments() == segment_views(logs@)
                && s0.current_gen() < u64::MAX implies (r matches Ok(s) && s@ == s0@) by {
                KvStore::lemma_reopen(s0, logs@, r);
            }
        }
        r
    }

    proof fn lemma_encode_all_empty(rs: Seq<Mutation>)
        requires
            encode_all(rs).len() == 0,
        ensures
            rs == Seq::<Mutation>::empty(),
    {
        if rs.len() > 0 {
            lemma_encode_nonempty(rs.last());
        }
        assert(rs =~= Seq::<Mutation>::empty());
    }

    proof fn lemma_reopen(s0: KvStore, logs: Seq<Segment>, r: Result<KvStore>)
        requires
            s0.wf(),
            s0.segments() == segment_views(logs),
            s0.current_gen() < u64::MAX,
            r is Ok <==> can_open(logs),
            r matches Ok(s) ==> {
                &&& s.wf()
                &&& s.segments() == segment_views(logs).push((next_gen(logs), Seq::<u8>::empty()))
                &&& forall|j: int, rs: Seq<Mutation>|
                    0 <= j < logs.len() && logs[j].data@ == encode_all(rs) ==> s.log_records()[j] == rs
            },
        ensures
            r matches Ok(s) && s@ == s0@,
    {
        let views = segment_views(logs);
        assert(views.len() == logs.len());
        assert forall|j: int| 0 <= j < logs.len() implies is_log(#[trigger] logs[j].data@) by {
            assert(views[j].1 == logs[j].data@);
            assert(views[j].1 == encode_all(s0.records@[j]));
        }
        assert(logs.last().gen == s0.current_gen()) by {
            assert(views[views.len() - 1].0 == logs.last().gen);
        }
        assert(can_open(logs));
        let s = r->Ok_0;
        let rr = s.records@;
        assert(rr.len() == logs.len() + 1);
        assert(s.log_records() == rr);
        assert forall|j: int| 0 <= j < logs.len() implies rr[j] == s0.records@[j] by {
            assert(views[j].1 == logs[j].data@);
            assert(s0.segments()[j].1 == encode_all(s0.records@[j]));
            assert(logs[j].data@ == encode_all(s0.records@[j]));
            assert(s.log_records()[j] == s0.records@[j]);
        }
        assert(s.segments()[logs.len() as int].1 == Seq::<u8>::empty());
        KvStore::lemma_encode_all_empty(rr[logs.len() as int]);
        assert(rr =~= s0.records@.push(Seq::<Mutation>::empty()));
        assert(rr.drop_last() =~= s0.records@);
        assert(flatten(rr) =~= flatten(s0.records@));
    }

    fn open_segments(logs: Vec<Segment>) -> (r: Result<KvStore>)
        ensures
            r is Ok <==> can_open(logs@),
            r matches Err(e) ==> (e.kind is UnexpectedError || e.kind is Serde),
            r matches Err(e) ==> (e.kind is Serde <==> gens_fit(logs@)),
            r matches Ok(s) ==> {
                &&& s.wf()
                &&& s.segments() == segment_views(logs@).push((next_gen(logs@), Seq::<u8>::empty()))
                &&& s.synced() == image_of(segment_views(logs@))
                &&& s.pending_ops() == seq![FileOp::Create(next_gen(logs@))]
                &&& forall|j: int, rs: Seq<Mutation>|
                    0 <= j < logs@.len() && logs@[j].data@ == encode_all(rs) ==> s.log_records()[j] == rs
            },
    {
        let n = logs.len();
        let ghost views = segment_views(logs@);
        let mut j: usize = 1;
        while j < n
            invariant
                n == logs@.len(),
                views == segment_views(logs@),
                1 <= j,
                n > 0 ==> j <= n,
                forall|a: int, b: int| 0 <= a < b < j && b < n ==> views[a].0 < views[b].0,
            decreases n - j,
        {
            proof {
                assert(views[j - 1].0 == logs@[j - 1].gen);
                assert(views[j as int].0 == logs@[j as int].gen);
            }
            if logs[j - 1].gen >= logs[j].gen {
                return Err(
                    Error::new(ErrorKind::UnexpectedError(String::from_str("segment generations out of order"))),
                );
            }
            proof {
                assert forall|a: int, b: int| 0 <= a < b < j + 1 && b < n implies views[a].0 < views[b].0 by {
                    if b == j && a < j - 1 {
                        assert(views[a].0 < views[j - 1].0);
                    }
                }
            }
            j = j + 1;
        }
        proof {
            if n > 0 {
                assert(gens_increasing(views));
            }
        }
        if n == 0 {
            let st = KvStore::fresh(1);
            proof {
                assert(views =~= Seq::<(u64, Seq<u8>)>::empty());
                assert(st.segments() =~= views.push((1u64, Seq::<u8>::empty())));
            }
            return Ok(st);
        }
        if logs[n - 1].gen == u64::MAX {
            return Err(Error::new(ErrorKind::UnexpectedError(String::from_str("generation numbers exhausted"))));
        }
        let mut store = KvStore::fresh(logs[0].gen);
        match store.load_segment(&logs[0].data) {
            Ok(()) => {},
            Err(e) => {
                return Err(e);
            },
        }
        proof {
            assert(store.segments() =~= views.take(1));
        }
        let mut j: usize = 1;
        while j < n
            invariant
                n == logs@.len(),
                views == segment_views(logs@),
                gens_increasing(views),
                gens_fit(logs@),
                1 <= j <= n,
                store.wf(),
                store.segments() == views.take(j as int),
                store.current_gen() == logs@[j - 1].gen,
                store.log_records().len() == j,
                store.synced() == Map::<u64, Seq<u8>>::empty(),
                forall|a: int| 0 <= a < j ==> is_log(#[trigger] logs@[a].data@),
                forall|a: int, rs: Seq<Mutation>|
                    0 <= a < j && logs@[a].data@ == encode_all(rs) ==> store.log_records()[a] == rs,
            decreases n - j,
        {
            let ghost before = store;
            proof {
                assert(views[j - 1].0 == logs@[j - 1].gen);
                assert(views[j as int].0 == logs@[j as int].gen);
                assert(views[j - 1].0 < views[j as int].0);
            }
            store.seal_and_start(logs[j].gen);
            match store.load_segment(&logs[j].data) {
                Ok(()) => {},
                Err(e) => {
                    return Err(e);
                },
            }
            proof {
                assert(store.segments() =~= views.take(j + 1));
                assert forall|a: int, rs: Seq<Mutation>|
                    0 <= a < j + 1 && logs@[a].data@ == encode_all(rs) implies store.log_records()[a] == rs by {
                    if a < j {
                        assert(store.log_records()[a] == store.log_records().drop_last()[a]);
                        assert(before.log_records()[a] == rs);
                    }
                }
            }
            j = j + 1;
        }
        // The directory already holds the segments just read: nothing of them
        // is to be written again.
        let _ = store.take_log_ops();
        let last = logs[n - 1].gen;
        let ghost before = store;
        store.seal_and_start(last + 1);
        proof {
            assert(views.take(n as int) =~= views);
            assert(store.pending_ops() =~= seq![FileOp::Create(next_gen(logs@))]);
            assert(store.synced() == image_of(views));
            assert(store.segments() == views.push((next_gen(logs@), Seq::<u8>::empty())));
            assert forall|a: int, rs: Seq<Mutation>|
                0 <= a < logs@.len() && logs@[a].data@ == encode_all(rs) implies store.log_records()[a] == rs by {
                assert(store.log_records()[a] == before.log_records()[a]);
            }
        }
        Ok(store)
    }

    /// The value of `key`, or `None` where the store does not hold it.
    pub fn get(&self, key: String) -> (r: Result<Option<String>>)
        requires
            self.wf(),
        ensures
            r is Ok,
            r matches Ok(v) && text_of(v) == value_of(self@, key@),
    {
        match self.find_entry(&key) {
            None => Ok(None),
            Some(i) => {
                let gen = self.index[i].gen;
                let pos = self.index[i].pos;
                let ghost e = self.index@[i as int];
                assert(self.entry_ok(e));
                let data = self.segment_data(gen);
                let ghost m = Mutation::Put(key@, self@[key@]);
                assert(holds_at(data@, pos as int, encode_mutation(m)));
                match Command::decode(data.as_slice(), pos) {
                    Decoded::Done(Command::Put { key: _, value }, _) => Ok(Some(value)),
                    _ => Err(
                        Error::new(
                            ErrorKind::UnexpectedError(String::from_str("index entry is no set record")),
                        ),
                    ),
                }
            },
        }
    }
}

} // verus!
