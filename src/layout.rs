//! The files of a data directory: segment `<gen>.log` for each generation.

use vstd::prelude::*;
use vstd::string::StringSliceAdditionalSpecFns;

verus! {

/// The value of a sequence of decimal digits.
pub open spec fn digits_value(d: Seq<u8>) -> int
    decreases d.len(),
{
    if d.len() == 0 {
        0
    } else {
        digits_value(d.drop_last()) * 10 + (d.last() - 48)
    }
}

pub open spec fn all_digits(d: Seq<u8>) -> bool {
    forall|i: int| 0 <= i < d.len() ==> 48 <= #[trigger] d[i] <= 57
}

/// `.log`
pub open spec fn log_suffix() -> Seq<u8> {
    seq![46u8, 108, 111, 103]
}

/// `b` ends with `.log` at position `e`.
pub open spec fn log_suffix_at(b: Seq<u8>, e: int) -> bool {
    4 <= e <= b.len() && b.subrange(e - 4, e) == log_suffix()
}

/// Where the stem of `b.subrange(0, e)` ends, once every trailing `.log` is cut off.
pub open spec fn stem_end(b: Seq<u8>, e: int) -> int
    decreases e,
{
    if e >= 4 && log_suffix_at(b, e) {
        stem_end(b, e - 4)
    } else {
        e
    }
}

/// A run of decimal digits, if `d` is one, at least one digit long, whose value fits in a `u64`.
pub open spec fn digits_u64(d: Seq<u8>) -> Option<u64> {
    if d.len() > 0 && all_digits(d) && digits_value(d) <= u64::MAX {
        Some(digits_value(d) as u64)
    } else {
        None
    }
}

/// An unsigned decimal number as `u64::from_str` reads it: an optional `+`, then digits.
pub open spec fn parse_u64(d: Seq<u8>) -> Option<u64> {
    if d.len() > 0 && d[0] == 43 {
        digits_u64(d.drop_first())
    } else {
        digits_u64(d)
    }
}

/// The generation of the file named `name`: the name ends with `.log`, and
/// what is left once every trailing `.log` is cut off is a `u64`.
pub open spec fn log_gen(name: Seq<u8>) -> Option<u64> {
    if log_suffix_at(name, name.len() as int) {
        parse_u64(name.subrange(0, stem_end(name, name.len() as int)))
    } else {
        None
    }
}

proof fn lemma_digits_value_nonneg(d: Seq<u8>)
    requires
        all_digits(d),
    ensures
        digits_value(d) >= 0,
    decreases d.len(),
{
    if d.len() > 0 {
        assert(all_digits(d.drop_last()));
        lemma_digits_value_nonneg(d.drop_last());
    }
}

/// Reads the digits `b[start..end]` as a `u64`.
fn parse_digits(b: &[u8], start: usize, end: usize) -> (r: Option<u64>)
    requires
        start <= end <= b@.len(),
    ensures
        r == digits_u64(b@.subrange(start as int, end as int)),
{
    let ghost d = b@.subrange(start as int, end as int);
    if start == end {
        return None;
    }
    let mut value: u64 = 0;
    let mut i: usize = start;
    while i < end
        invariant
            start <= i <= end,
            end <= b@.len(),
            d == b@.subrange(start as int, end as int),
            all_digits(d.subrange(0, i - start)),
            value as int == digits_value(d.subrange(0, i - start)),
        decreases end - i,
    {
        let c = b[i];
        let ghost k = i - start;
        if c < 48 || c > 57 {
            proof {
                assert(d[k] == c);
                assert(!all_digits(d));
            }
            return None;
        }
        proof {
            assert(d.subrange(0, k + 1).drop_last() =~= d.subrange(0, k));
            assert(d.subrange(0, k + 1).last() == c);
        }
        if value > 1844674407370955161 || (value == 1844674407370955161 && c > 53) {
            proof {
                assert(all_digits(d.subrange(0, k + 1)));
                let v = value as int;
                let cc = (c - 48) as int;
                assert(digits_value(d.subrange(0, k + 1)) == v * 10 + cc);
                assert(v * 10 + cc > u64::MAX) by (nonlinear_arith)
                    requires
                        v > 1844674407370955161 || (v == 1844674407370955161 && cc > 5),
                        cc >= 0;
                if all_digits(d) {
                    lemma_prefix_grows(d, k + 1);
                }
            }
            return None;
        }
        value = value * 10 + (c - 48) as u64;
        i = i + 1;
    }
    proof {
        assert(d.subrange(0, i - start) =~= d);
    }
    Some(value)
}

/// The generation of a segment file, from its name.
pub fn generation_of(name: &str) -> (r: Option<u64>)
    ensures
        r == log_gen(name.spec_bytes()),
{
    let b = name.as_bytes();
    let n = b.len();
    let ts = vec![46u8, 108, 111, 103];
    proof {
        assert(ts@ =~= log_suffix());
    }
    if n < 4 || !matches!(crate::codec::match_token(b, n - 4, ts.as_slice()), crate::codec::Decoded::Done(..)) {
        return None;
    }
    let mut e: usize = n;
    while e >= 4 && matches!(crate::codec::match_token(b, e - 4, ts.as_slice()), crate::codec::Decoded::Done(..))
        invariant
            e <= n,
            n == b@.len(),
            ts@ == log_suffix(),
            stem_end(b@, n as int) == stem_end(b@, e as int),
        decreases e,
    {
        e = e - 4;
    }
    proof {
        assert(b@.subrange(0, e as int).len() == e);
    }
    let r = if e > 0 && b[0] == 43 {
        parse_digits(b, 1, e)
    } else {
        parse_digits(b, 0, e)
    };
    proof {
        let stem = b@.subrange(0, e as int);
        if e > 0 && b@[0] == 43 {
            assert(stem.drop_first() =~= b@.subrange(1, e as int));
        } else {
            assert(stem =~= b@.subrange(0, e as int));
        }
    }
    r
}

/// A longer run of digits is worth at least as much as its prefix.
proof fn lemma_prefix_grows(d: Seq<u8>, k: int)
    requires
        0 <= k <= d.len(),
        all_digits(d),
    ensures
        digits_value(d) >= digits_value(d.subrange(0, k)),
    decreases d.len(),
{
    if d.len() > k {
        let p = d.drop_last();
        assert(all_digits(p));
        lemma_prefix_grows(p, k);
        assert(p.subrange(0, k) =~= d.subrange(0, k));
        lemma_digits_value_nonneg(p);
    } else {
        assert(d.subrange(0, k) =~= d);
    }
}

/// The generation of the file named `s`.
pub open spec fn name_gen(s: String) -> Option<u64> {
    log_gen(vstd::utf8::encode_utf8(s@))
}

/// The generations of the segment files among `names`, in the order of the names.
pub open spec fn parsed_gens(names: Seq<String>) -> Seq<u64>
    decreases names.len(),
{
    if names.len() == 0 {
        Seq::empty()
    } else {
        match name_gen(names.last()) {
            Some(g) => parsed_gens(names.drop_last()).push(g),
            None => parsed_gens(names.drop_last()),
        }
    }
}

pub open spec fn increasing(v: Seq<u64>) -> bool {
    forall|i: int, j: int| 0 <= i < j < v.len() ==> v[i] < v[j]
}

pub open spec fn ascending(v: Seq<u64>) -> bool {
    forall|i: int, j: int| 0 <= i < j < v.len() ==> v[i] <= v[j]
}

proof fn lemma_insert_multiset(before: Seq<u64>, pos: int, g: u64)
    requires
        0 <= pos <= before.len(),
    ensures
        before.insert(pos, g).to_multiset() =~= before.to_multiset().insert(g),
        forall|x: u64| before.insert(pos, g).contains(x) <==> (before.contains(x) || x == g),
{
    broadcast use vstd::seq_lib::group_to_multiset_ensures;

    let after = before.insert(pos, g);
    assert(after.remove(pos) =~= before);
    assert(after[pos] == g);
    assert(after.contains(g));
    assert forall|x: u64| after.contains(x) <==> (before.contains(x) || x == g) by {
        if after.contains(x) {
            let k = choose|k: int| 0 <= k < after.len() && after[k] == x;
            if k < pos {
                assert(before[k] == x);
            } else if k > pos {
                assert(before[k - 1] == x);
            }
        }
        if before.contains(x) {
            let k = choose|k: int| 0 <= k < before.len() && before[k] == x;
            if k < pos {
                assert(after[k] == x);
            } else {
                assert(after[k + 1] == x);
            }
        }
    }
}

/// Inserts `g` into the ascending `v`, after the elements not above it.
fn insert_ascending(v: &mut Vec<u64>, g: u64)
    requires
        ascending(old(v)@),
    ensures
        ascending(final(v)@),
        final(v)@.to_multiset() =~= old(v)@.to_multiset().insert(g),
{
    let mut pos: usize = 0;
    while pos < v.len() && v[pos] <= g
        invariant
            v@ == old(v)@,
            pos <= v@.len(),
            forall|k: int| 0 <= k < pos ==> v@[k] <= g,
        decreases v@.len() - pos,
    {
        pos = pos + 1;
    }
    let ghost before = v@;
    v.insert(pos, g);
    proof {
        lemma_insert_multiset(before, pos as int, g);
        assert forall|i: int, j: int| 0 <= i < j < v@.len() implies v@[i] <= v@[j] by {
            if j < pos {
            } else if j == pos {
            } else if i < pos {
                assert(v@[j] == before[j - 1]);
                assert(before[i] <= before[j - 1]);
            } else if i == pos {
                assert(before[pos as int] > g);
                assert(before[pos as int] <= before[j - 1]);
            } else {
                assert(before[i - 1] <= before[j - 1]);
            }
        }
    }
}

/// Inserts `g` into the increasing `v`, unless `v` holds it already.
fn insert_distinct(v: &mut Vec<u64>, g: u64)
    requires
        increasing(old(v)@),
    ensures
        increasing(final(v)@),
        forall|x: u64| #[trigger] final(v)@.contains(x) <==> (old(v)@.contains(x) || x == g),
{
    let mut pos: usize = 0;
    while pos < v.len() && v[pos] < g
        invariant
            v@ == old(v)@,
            pos <= v@.len(),
            forall|k: int| 0 <= k < pos ==> v@[k] < g,
        decreases v@.len() - pos,
    {
        pos = pos + 1;
    }
    if pos < v.len() && v[pos] == g {
        proof {
            assert(v@[pos as int] == g);
            assert(v@.contains(g));
        }
        return;
    }
    let ghost before = v@;
    v.insert(pos, g);
    proof {
        lemma_insert_multiset(before, pos as int, g);
        assert forall|i: int, j: int| 0 <= i < j < v@.len() implies v@[i] < v@[j] by {
            if j < pos {
            } else if j == pos {
            } else if i < pos {
                assert(v@[j] == before[j - 1]);
                if pos < before.len() {
                    assert(before[pos as int] > g);
                    assert(before[pos as int] <= before[j - 1]);
                }
            } else if i == pos {
                assert(before[pos as int] > g);
                assert(before[pos as int] <= before[j - 1]);
            } else {
                assert(before[i - 1] < before[j - 1]);
            }
        }
        assert forall|x: u64| #[trigger] v@.contains(x) <==> (old(v)@.contains(x) || x == g) by {
            assert(before.insert(pos as int, g).contains(x) <==> (before.contains(x) || x == g));
        }
    }
}

/// The generations of the segment files among `names`, in ascending order:
/// one for each such file, so a generation named by two files (`1.log` and
/// `01.log`) comes twice.
pub fn generations(names: &Vec<String>) -> (r: Vec<u64>)
    ensures
        ascending(r@),
        r@.to_multiset() =~= parsed_gens(names@).to_multiset(),
{
    broadcast use vstd::seq_lib::group_to_multiset_ensures;

    let mut r: Vec<u64> = Vec::new();
    let mut i: usize = 0;
    proof {
        assert(parsed_gens(names@.subrange(0, 0)) =~= Seq::<u64>::empty());
    }
    while i < names.len()
        invariant
            i <= names@.len(),
            ascending(r@),
            r@.to_multiset() =~= parsed_gens(names@.subrange(0, i as int)).to_multiset(),
        decreases names@.len() - i,
    {
        let found = generation_of(names[i].as_str());
        let ghost prefix = names@.subrange(0, i + 1);
        proof {
            assert(prefix.drop_last() =~= names@.subrange(0, i as int));
            assert(prefix.last() == names@[i as int]);
            assert(name_gen(names@[i as int]) == found);
        }
        let ghost prev = parsed_gens(names@.subrange(0, i as int));
        match found {
            Some(g) => {
                insert_ascending(&mut r, g);
                proof {
                    assert(parsed_gens(prefix) == prev.push(g));
                    prev.to_multiset_ensures();
                    assert(prev.push(g).to_multiset() =~= prev.to_multiset().insert(g));
                }
            },
            None => {
                proof {
                    assert(parsed_gens(prefix) == prev);
                }
            },
        }
        i = i + 1;
    }
    proof {
        assert(names@.subrange(0, i as int) =~= names@);
    }
    r
}

/// The distinct generations among `gens`, in increasing order.
pub fn distinct_generations(gens: &Vec<u64>) -> (r: Vec<u64>)
    ensures
        increasing(r@),
        forall|g: u64| r@.contains(g) <==> gens@.contains(g),
{
    let mut r: Vec<u64> = Vec::new();
    let mut i: usize = 0;
    while i < gens.len()
        invariant
            i <= gens@.len(),
            increasing(r@),
            forall|g: u64| r@.contains(g) <==> gens@.subrange(0, i as int).contains(g),
        decreases gens@.len() - i,
    {
        insert_distinct(&mut r, gens[i]);
        proof {
            let p = gens@.subrange(0, i + 1);
            assert(p =~= gens@.subrange(0, i as int).push(gens@[i as int]));
            assert forall|g: u64| r@.contains(g) <==> p.contains(g) by {
                if p.contains(g) {
                    let k = choose|k: int| 0 <= k < p.len() && p[k] == g;
                    if k < i {
                        assert(gens@.subrange(0, i as int)[k] == g);
                    }
                }
                if gens@.subrange(0, i as int).contains(g) {
                    let k = choose|k: int| 0 <= k < i && gens@.subrange(0, i as int)[k] == g;
                    assert(p[k] == g);
                }
                if g == gens@[i as int] {
                    assert(p[i as int] == g);
                }
            }
        }
        i = i + 1;
    }
    proof {
        assert(gens@.subrange(0, i as int) =~= gens@);
    }
    r
}

/// A data directory pinned to the backend `pinned` (none yet, where `None`)
/// may be served by the backend `engine`.
pub fn engine_allowed(pinned: &Option<String>, engine: &String) -> (r: bool)
    ensures
        r == match pinned {
            Some(p) => p@ == engine@,
            None => true,
        },
{
    match pinned {
        Some(p) => *p == *engine,
        None => true,
    }
}

} // verus!
