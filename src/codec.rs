//! The textual record format shared by the log and the wire protocol.
//!
//! A record is a compact JSON object in the externally tagged shape, for
//! example `{"Set":{"key":"k","value":"v"}}`. String literals are escaped
//! by serde_json; the framing around them is parsed here, so that a reader
//! can take exactly one record off a byte stream and learn where it ends.

use vstd::prelude::*;
use vstd::utf8::encode_utf8;
use vstd::slice::slice_subrange;

verus! {

/// The outcome of reading one item at a position of a byte buffer.
pub enum Decoded<T> {
    /// The item, and the position just after it.
    Done(T, usize),
    /// The buffer ends before the item does.
    Partial,
    /// The bytes can be no item of this kind, whatever follows them.
    Malformed,
}

impl<T: View> View for Decoded<T> {
    type V = Decoded<T::V>;

    open spec fn view(&self) -> Decoded<T::V> {
        match self {
            Decoded::Done(t, e) => Decoded::Done(t@, *e),
            Decoded::Partial => Decoded::Partial,
            Decoded::Malformed => Decoded::Malformed,
        }
    }
}

/// The failure of `d`, carried over to an item of another kind.
pub open spec fn failed<A, B>(d: Decoded<A>) -> Decoded<B> {
    if d is Partial {
        Decoded::Partial
    } else {
        Decoded::Malformed
    }
}

/// Of two readings of the same bytes as different alternatives, the one that
/// succeeds; otherwise `Partial` if either may still succeed.
pub open spec fn either<T>(x: Decoded<T>, y: Decoded<T>) -> Decoded<T> {
    if x is Done {
        x
    } else if y is Done {
        y
    } else if x is Partial || y is Partial {
        Decoded::Partial
    } else {
        Decoded::Malformed
    }
}

/// A lowercase hexadecimal digit for `n < 16`.
pub open spec fn hex_digit(n: u8) -> u8 {
    if n < 10 {
        (48 + n) as u8
    } else {
        (87 + n) as u8
    }
}

/// How one byte of a UTF-8 string stands inside a JSON string literal.
pub open spec fn escape_byte(b: u8) -> Seq<u8> {
    if b == 34 {
        seq![92u8, 34u8]
    } else if b == 92 {
        seq![92u8, 92u8]
    } else if b == 8 {
        seq![92u8, 98u8]
    } else if b == 9 {
        seq![92u8, 116u8]
    } else if b == 10 {
        seq![92u8, 110u8]
    } else if b == 12 {
        seq![92u8, 102u8]
    } else if b == 13 {
        seq![92u8, 114u8]
    } else if b < 32 {
        seq![92u8, 117u8, 48u8, 48u8, hex_digit(b / 16), hex_digit(b % 16)]
    } else {
        seq![b]
    }
}

pub open spec fn escape_bytes(b: Seq<u8>) -> Seq<u8>
    decreases b.len(),
{
    if b.len() == 0 {
        Seq::empty()
    } else {
        escape_byte(b[0]) + escape_bytes(b.drop_first())
    }
}

/// The JSON string literal of `s`, quotes included.
pub open spec fn quote_str(s: Seq<char>) -> Seq<u8> {
    seq![34u8] + escape_bytes(encode_utf8(s)) + seq![34u8]
}

/// What serde_json reads from a complete JSON text holding one string.
pub uninterp spec fn json_str_value(b: Seq<u8>) -> Option<Seq<char>>;

/// Relies on serde_json::to_vec on a `str`: the string's UTF-8 bytes, each
/// escaped by serde_json's escape table, between two quotes. Writing into a
/// `Vec` cannot fail.
#[verifier::external_body]
fn json_quote(s: &str) -> (r: Vec<u8>)
    ensures
        r@ == quote_str(s@),
{
    match serde_json::to_vec(s) {
        Ok(v) => v,
        Err(_) => Vec::new(),
    }
}

/// Relies on serde_json::from_slice::<String>: reads a JSON text holding a
/// single string, and gives back the string that a literal of `quote_str`
/// stands for.
#[verifier::external_body]
fn json_unquote(b: &[u8]) -> (r: Option<String>)
    ensures
        r is Some <==> json_str_value(b@) is Some,
        r is Some ==> json_str_value(b@) == Some(r->0@),
        forall|s: Seq<char>| #[trigger] quote_str(s) == b@ ==> r is Some && r->0@ == s,
{
    serde_json::from_slice::<String>(b).ok()
}

/// Where the string literal whose contents start at `j` ends: the position
/// after its closing quote, or `None` if the buffer ends first.
pub open spec fn literal_end(b: Seq<u8>, j: int) -> Option<int>
    decreases b.len() + 2 - j,
{
    if j < 0 || j >= b.len() {
        None
    } else if b[j] == 34 {
        Some(j + 1)
    } else if b[j] == 92 {
        literal_end(b, j + 2)
    } else {
        literal_end(b, j + 1)
    }
}

proof fn lemma_literal_end_bounds(b: Seq<u8>, j: int)
    ensures
        literal_end(b, j) matches Some(e) ==> j < e <= b.len(),
    decreases b.len() + 2 - j,
{
    if 0 <= j < b.len() && b[j] != 34 {
        if b[j] == 92 {
            lemma_literal_end_bounds(b, j + 2);
        } else {
            lemma_literal_end_bounds(b, j + 1);
        }
    }
}

proof fn lemma_escape_byte_shape(c: u8)
    ensures
        escape_byte(c).len() >= 1,
        escape_byte(c).len() == 1 ==> escape_byte(c)[0] != 34 && escape_byte(c)[0] != 92,
        escape_byte(c).len() > 1 ==> escape_byte(c)[0] == 92,
        escape_byte(c).len() == 2 || escape_byte(c).len() == 1 || escape_byte(c).len() == 6,
        escape_byte(c).len() == 6 ==> forall|k: int|
            2 <= k < 6 ==> escape_byte(c)[k] != 34 && escape_byte(c)[k] != 92,
{
    if c < 32 && c != 8 && c != 9 && c != 10 && c != 12 && c != 13 {
        let e = escape_byte(c);
        assert(c / 16 < 16);
        assert(c % 16 < 16);
        assert(e[4] == hex_digit(c / 16));
        assert(e[5] == hex_digit(c % 16));
    }
}

/// A literal of `quote_str` ends right after its closing quote, whatever follows it.
proof fn lemma_literal_end_escaped(p: Seq<u8>, x: Seq<u8>, r: Seq<u8>)
    ensures
        literal_end(p + escape_bytes(x) + seq![34u8] + r, p.len() as int) == Some(
            (p.len() + escape_bytes(x).len() + 1) as int,
        ),
    decreases x.len(),
{
    let b = p + escape_bytes(x) + seq![34u8] + r;
    let n = p.len() as int;
    if x.len() == 0 {
        assert(escape_bytes(x) =~= Seq::<u8>::empty());
        assert(b[n] == 34);
    } else {
        let e = escape_byte(x[0]);
        let p_next = p + e;
        assert(escape_bytes(x) == e + escape_bytes(x.drop_first()));
        assert(b =~= p_next + escape_bytes(x.drop_first()) + seq![34u8] + r);
        lemma_literal_end_escaped(p_next, x.drop_first(), r);
        lemma_escape_byte_shape(x[0]);
        assert forall|k: int| 0 <= k < e.len() implies b[n + k] == e[k] by {
            assert(b[n + k] == p_next[n + k]);
        }
        if e.len() == 1 {
            assert(b[n] == e[0]);
        } else if e.len() == 2 {
            assert(b[n] == 92);
        } else {
            assert(b[n] == 92);
            assert(b[n + 2] == e[2] && b[n + 3] == e[3] && b[n + 4] == e[4] && b[n + 5] == e[5]);
            assert(literal_end(b, n + 5) == literal_end(b, n + 6));
            assert(literal_end(b, n + 4) == literal_end(b, n + 5));
            assert(literal_end(b, n + 3) == literal_end(b, n + 4));
            assert(literal_end(b, n + 2) == literal_end(b, n + 3));
        }
    }
}


/// The bytes `t` at position `i` of `b`.
pub open spec fn token_at(b: Seq<u8>, i: int, t: Seq<u8>) -> Decoded<()> {
    if i + t.len() <= b.len() {
        if b.subrange(i, i + t.len()) == t {
            Decoded::Done((), (i + t.len()) as usize)
        } else {
            Decoded::Malformed
        }
    } else if b.subrange(i, b.len() as int) == t.subrange(0, b.len() - i) {
        Decoded::Partial
    } else {
        Decoded::Malformed
    }
}

/// A JSON string literal at position `i` of `b`.
pub open spec fn string_at(b: Seq<u8>, i: int) -> Decoded<Seq<char>> {
    if i >= b.len() {
        Decoded::Partial
    } else if b[i] != 34 {
        Decoded::Malformed
    } else {
        match literal_end(b, i + 1) {
            None => Decoded::Partial,
            Some(e) => match json_str_value(b.subrange(i, e)) {
                Some(s) => Decoded::Done(s, e as usize),
                None => Decoded::Malformed,
            },
        }
    }
}

/// `b` holds `t` at position `i`.
pub open spec fn holds_at(b: Seq<u8>, i: int, t: Seq<u8>) -> bool {
    0 <= i && i + t.len() <= b.len() && b.subrange(i, i + t.len()) == t
}

pub(crate) fn append_bytes(out: &mut Vec<u8>, src: &[u8])
    ensures
        final(out)@ == old(out)@ + src@,
{
    let mut k: usize = 0;
    while k < src.len()
        invariant
            k <= src@.len(),
            out@ == old(out)@ + src@.subrange(0, k as int),
        decreases src@.len() - k,
    {
        out.push(src[k]);
        k = k + 1;
        assert(src@.subrange(0, k as int) =~= src@.subrange(0, k - 1) + seq![src@[k - 1]]);
    }
    assert(src@.subrange(0, k as int) =~= src@);
}

/// Reads the bytes `t` at position `i` of `b`.
pub(crate) fn match_token(b: &[u8], i: usize, t: &[u8]) -> (r: Decoded<()>)
    requires
        i <= b@.len(),
    ensures
        r == token_at(b@, i as int, t@),
{
    let mut k: usize = 0;
    while k < t.len()
        invariant
            i <= b@.len(),
            k <= t@.len(),
            k <= b@.len() - i,
            b@.subrange(i as int, i + k) == t@.subrange(0, k as int),
        decreases t@.len() - k,
    {
        if b.len() - i == k {
            assert(b@.subrange(i as int, b@.len() as int) == t@.subrange(0, b@.len() - i));
            return Decoded::Partial;
        }
        if b[i + k] != t[k] {
            proof {
                if i + t@.len() <= b@.len() {
                    assert(b@.subrange(i as int, i + t@.len())[k as int] != t@[k as int]);
                } else {
                    assert(b@.subrange(i as int, b@.len() as int)[k as int] != t@.subrange(
                        0,
                        b@.len() - i,
                    )[k as int]);
                }
            }
            return Decoded::Malformed;
        }
        k = k + 1;
        assert(b@.subrange(i as int, i + k) =~= b@.subrange(i as int, i + k - 1) + seq![b@[i + k - 1]]);
        assert(t@.subrange(0, k as int) =~= t@.subrange(0, k - 1) + seq![t@[k - 1]]);
    }
    assert(t@.subrange(0, k as int) =~= t@);
    let n = b.len();
    assert(i + k <= n);
    Decoded::Done((), i + k)
}

/// Finds the end of the string literal whose contents start at `j0`.
fn scan_literal(b: &[u8], j0: usize) -> (r: Option<usize>)
    requires
        j0 <= b@.len(),
    ensures
        match r {
            Some(e) => literal_end(b@, j0 as int) == Some(e as int),
            None => literal_end(b@, j0 as int) is None,
        },
{
    let mut j = j0;
    while j < b.len()
        invariant
            j0 <= j <= b@.len(),
            literal_end(b@, j0 as int) == literal_end(b@, j as int),
        decreases b@.len() - j,
    {
        if b[j] == 34 {
            return Some(j + 1);
        } else if b[j] == 92 {
            if b.len() - j < 2 {
                assert(literal_end(b@, j + 2) is None);
                return None;
            }
            j = j + 2;
        } else {
            j = j + 1;
        }
    }
    None
}

/// Reads a JSON string literal at position `i` of `b`.
fn decode_string(b: &[u8], i: usize) -> (r: Decoded<String>)
    requires
        i <= b@.len(),
    ensures
        r@ == string_at(b@, i as int),
        forall|s: Seq<char>| #[trigger]
            holds_at(b@, i as int, quote_str(s)) ==> r@ == Decoded::Done(
                s,
                (i + quote_str(s).len()) as usize,
            ),
{
    proof {
        assert forall|s: Seq<char>| #[trigger] quote_str(s).len() >= 2 && quote_str(s)[0] == 34 by {
        }
        assert forall|s: Seq<char>| #[trigger]
            holds_at(b@, i as int, quote_str(s)) implies i < b@.len() && b@[i as int] == 34 by {
            assert(b@.subrange(i as int, i + quote_str(s).len())[0] == 34);
        }
    }
    if i >= b.len() {
        return Decoded::Partial;
    }
    if b[i] != 34 {
        return Decoded::Malformed;
    }
    let end = scan_literal(b, i + 1);
    proof {
        lemma_literal_end_bounds(b@, i + 1);
    }
    let r = match end {
        None => Decoded::Partial,
        Some(e) => {
            let lit = slice_subrange(b, i, e);
            match json_unquote(lit) {
                Some(t) => Decoded::Done(t, e),
                None => Decoded::Malformed,
            }
        },
    };
    proof {
        assert forall|s: Seq<char>| #[trigger]
            holds_at(b@, i as int, quote_str(s)) implies r@ == Decoded::Done(
            s,
            (i + quote_str(s).len()) as usize,
        ) by {
            let q = quote_str(s);
            let x = encode_utf8(s);
            let p = b@.subrange(0, i + 1);
            let rest = b@.subrange(i + q.len(), b@.len() as int);
            assert(q =~= seq![34u8] + escape_bytes(x) + seq![34u8]);
            assert(b@ =~= p + escape_bytes(x) + seq![34u8] + rest) by {
                assert forall|k: int| 0 <= k < b@.len() implies b@[k] == (p + escape_bytes(x)
                    + seq![34u8] + rest)[k] by {
                    if i <= k < i + q.len() {
                        assert(b@[k] == b@.subrange(i as int, i + q.len())[k - i]);
                    }
                }
            }
            lemma_literal_end_escaped(p, x, rest);
            assert(b@.subrange(i as int, i + q.len()) == q);
        }
    }
    r
}


pub(crate) proof fn lemma_holds_split(b: Seq<u8>, i: int, x: Seq<u8>, y: Seq<u8>)
    requires
        holds_at(b, i, x + y),
    ensures
        holds_at(b, i, x),
        holds_at(b, i + x.len(), y),
{
    let w = b.subrange(i, i + x.len() + y.len());
    assert(w == x + y);
    assert(b.subrange(i, i + x.len()) =~= w.subrange(0, x.len() as int));
    assert(w.subrange(0, x.len() as int) =~= x);
    assert(b.subrange(i + x.len(), i + x.len() + y.len()) =~= w.subrange(
        x.len() as int,
        w.len() as int,
    ));
    assert(w.subrange(x.len() as int, w.len() as int) =~= y);
}

/// `{"Set":{"key":`
pub open spec fn tok_set() -> Seq<u8> {
    seq![123u8, 34, 83, 101, 116, 34, 58, 123, 34, 107, 101, 121, 34, 58]
}

pub(crate) fn tok_set_bytes() -> (r: Vec<u8>)
    ensures
        r@ == tok_set(),
{
    let r = vec![123u8, 34, 83, 101, 116, 34, 58, 123, 34, 107, 101, 121, 34, 58];
    assert(r@ =~= tok_set());
    r
}

/// `,"value":`
pub open spec fn tok_value() -> Seq<u8> {
    seq![44u8, 34, 118, 97, 108, 117, 101, 34, 58]
}

/// `{"Remove":{"key":`
pub open spec fn tok_remove() -> Seq<u8> {
    seq![123u8, 34, 82, 101, 109, 111, 118, 101, 34, 58, 123, 34, 107, 101, 121, 34, 58]
}

/// `{"Get":{"key":`
pub open spec fn tok_get() -> Seq<u8> {
    seq![123u8, 34, 71, 101, 116, 34, 58, 123, 34, 107, 101, 121, 34, 58]
}

/// `}}`
pub open spec fn tok_close() -> Seq<u8> {
    seq![125u8, 125]
}

pub(crate) fn tok_value_bytes() -> (r: Vec<u8>)
    ensures
        r@ == tok_value(),
{
    let r = vec![44u8, 34, 118, 97, 108, 117, 101, 34, 58];
    assert(r@ =~= tok_value());
    r
}

pub(crate) fn tok_remove_bytes() -> (r: Vec<u8>)
    ensures
        r@ == tok_remove(),
{
    let r = vec![123u8, 34, 82, 101, 109, 111, 118, 101, 34, 58, 123, 34, 107, 101, 121, 34, 58];
    assert(r@ =~= tok_remove());
    r
}

pub(crate) fn tok_get_bytes() -> (r: Vec<u8>)
    ensures
        r@ == tok_get(),
{
    let r = vec![123u8, 34, 71, 101, 116, 34, 58, 123, 34, 107, 101, 121, 34, 58];
    assert(r@ =~= tok_get());
    r
}

pub(crate) fn tok_close_bytes() -> (r: Vec<u8>)
    ensures
        r@ == tok_close(),
{
    let r = vec![125u8, 125];
    assert(r@ =~= tok_close());
    r
}

/// The encoding of a key and a value after `tok_set`.
pub open spec fn pair_text(k: Seq<char>, v: Seq<char>) -> Seq<u8> {
    quote_str(k) + tok_value() + quote_str(v) + tok_close()
}

/// The encoding of a key after `tok_remove` or `tok_get`.
pub open spec fn key_text(k: Seq<char>) -> Seq<u8> {
    quote_str(k) + tok_close()
}

/// A key and a value, at position `i` of `b`.
pub open spec fn pair_at(b: Seq<u8>, i: int) -> Decoded<(Seq<char>, Seq<char>)> {
    match string_at(b, i) {
        Decoded::Done(k, j) => match token_at(b, j as int, tok_value()) {
            Decoded::Done(_, j2) => match string_at(b, j2 as int) {
                Decoded::Done(v, j3) => match token_at(b, j3 as int, tok_close()) {
                    Decoded::Done(_, e) => Decoded::Done((k, v), e),
                    other => failed(other),
                },
                other => failed(other),
            },
            other => failed(other),
        },
        other => failed(other),
    }
}

/// A key, at position `i` of `b`.
pub open spec fn key_at(b: Seq<u8>, i: int) -> Decoded<Seq<char>> {
    match string_at(b, i) {
        Decoded::Done(k, j) => match token_at(b, j as int, tok_close()) {
            Decoded::Done(_, e) => Decoded::Done(k, e),
            other => failed(other),
        },
        other => failed(other),
    }
}

/// The outcome `d` of a token, followed by a key and a value.
pub open spec fn pair_after(b: Seq<u8>, d: Decoded<()>) -> Decoded<(Seq<char>, Seq<char>)> {
    match d {
        Decoded::Done(_, j) => pair_at(b, j as int),
        other => failed(other),
    }
}

/// The outcome `d` of a token, followed by a key.
pub open spec fn key_after(b: Seq<u8>, d: Decoded<()>) -> Decoded<Seq<char>> {
    match d {
        Decoded::Done(_, j) => key_at(b, j as int),
        other => failed(other),
    }
}

proof fn lemma_string_bounds(b: Seq<u8>, i: int)
    requires
        0 <= i <= b.len(),
        b.len() <= usize::MAX,
    ensures
        string_at(b, i) matches Decoded::Done(_, e) ==> i < e <= b.len(),
{
    lemma_literal_end_bounds(b, i + 1);
}

/// Reads a key and a value at position `i` of `b`.
pub(crate) fn decode_pair(b: &[u8], i: usize) -> (r: Decoded<(String, String)>)
    requires
        i <= b@.len(),
    ensures
        r@ == pair_at(b@, i as int),
        r matches Decoded::Done(_, e) ==> i < e <= b@.len(),
        forall|k: Seq<char>, v: Seq<char>| #[trigger]
            holds_at(b@, i as int, pair_text(k, v)) ==> r@ == Decoded::Done(
                (k, v),
                (i + pair_text(k, v).len()) as usize,
            ),
{
    let n = b.len();
    let tv = tok_value_bytes();
    let tc = tok_close_bytes();
    proof {
        lemma_string_bounds(b@, i as int);
        assert forall|k: Seq<char>, v: Seq<char>| #[trigger]
            holds_at(b@, i as int, pair_text(k, v)) implies holds_at(b@, i as int, quote_str(k))
            && holds_at(b@, i + quote_str(k).len(), tok_value()) && holds_at(
            b@,
            i + quote_str(k).len() + tok_value().len(),
            quote_str(v),
        ) && holds_at(
            b@,
            i + quote_str(k).len() + tok_value().len() + quote_str(v).len(),
            tok_close(),
        ) by {
            let qk = quote_str(k);
            let qv = quote_str(v);
            assert(pair_text(k, v) == qk + (tok_value() + (qv + tok_close()))) by {
                assert(pair_text(k, v) =~= qk + (tok_value() + (qv + tok_close())));
            }
            lemma_holds_split(b@, i as int, qk, tok_value() + (qv + tok_close()));
            lemma_holds_split(b@, i + qk.len(), tok_value(), qv + tok_close());
            lemma_holds_split(b@, i + qk.len() + tok_value().len(), qv, tok_close());
        }
    }
    match decode_string(b, i) {
        Decoded::Done(k, j) => {
            match match_token(b, j, tv.as_slice()) {
                Decoded::Done(_, j2) => {
                    proof {
                        lemma_string_bounds(b@, j2 as int);
                    }
                    match decode_string(b, j2) {
                        Decoded::Done(v, j3) => match match_token(b, j3, tc.as_slice()) {
                            Decoded::Done(_, e) => Decoded::Done((k, v), e),
                            Decoded::Partial => Decoded::Partial,
                            Decoded::Malformed => Decoded::Malformed,
                        },
                        Decoded::Partial => Decoded::Partial,
                        Decoded::Malformed => Decoded::Malformed,
                    }
                },
                Decoded::Partial => Decoded::Partial,
                Decoded::Malformed => Decoded::Malformed,
            }
        },
        Decoded::Partial => Decoded::Partial,
        Decoded::Malformed => Decoded::Malformed,
    }
}

/// Reads a key at position `i` of `b`.
pub(crate) fn decode_key(b: &[u8], i: usize) -> (r: Decoded<String>)
    requires
        i <= b@.len(),
    ensures
        r@ == key_at(b@, i as int),
        r matches Decoded::Done(_, e) ==> i < e <= b@.len(),
        forall|k: Seq<char>| #[trigger]
            holds_at(b@, i as int, key_text(k)) ==> r@ == Decoded::Done(
                k,
                (i + key_text(k).len()) as usize,
            ),
{
    let n = b.len();
    let tc = tok_close_bytes();
    proof {
        lemma_string_bounds(b@, i as int);
        assert forall|k: Seq<char>| #[trigger]
            holds_at(b@, i as int, key_text(k)) implies holds_at(b@, i as int, quote_str(k))
            && holds_at(b@, i + quote_str(k).len(), tok_close()) by {
            lemma_holds_split(b@, i as int, quote_str(k), tok_close());
        }
    }
    match decode_string(b, i) {
        Decoded::Done(k, j) => match match_token(b, j, tc.as_slice()) {
            Decoded::Done(_, e) => Decoded::Done(k, e),
            Decoded::Partial => Decoded::Partial,
            Decoded::Malformed => Decoded::Malformed,
        },
        Decoded::Partial => Decoded::Partial,
        Decoded::Malformed => Decoded::Malformed,
    }
}

/// Appends the literal of `s` to `out`.
pub(crate) fn push_quoted(out: &mut Vec<u8>, s: &String)
    ensures
        final(out)@ == old(out)@ + quote_str(s@),
{
    let q = json_quote(s.as_str());
    append_bytes(out, q.as_slice());
}

/// Appends the bytes `t` to `out`.
pub(crate) fn push_token(out: &mut Vec<u8>, t: &Vec<u8>)
    ensures
        final(out)@ == old(out)@ + t@,
{
    append_bytes(out, t.as_slice());
}


/// A mutation, as the log records it.
pub enum Mutation {
    Put(Seq<char>, Seq<char>),
    Del(Seq<char>),
}

/// A mutation record of the log.
pub enum Command {
    /// The key now holds the value.
    Put { key: String, value: String },
    /// The key is gone (a tombstone).
    Remove { key: String },
}

impl View for Command {
    type V = Mutation;

    open spec fn view(&self) -> Mutation {
        match self {
            Command::Put { key, value } => Mutation::Put(key@, value@),
            Command::Remove { key } => Mutation::Del(key@),
        }
    }
}

/// The bytes of a record.
pub open spec fn encode_mutation(m: Mutation) -> Seq<u8> {
    match m {
        Mutation::Put(k, v) => tok_set() + pair_text(k, v),
        Mutation::Del(k) => tok_remove() + key_text(k),
    }
}

/// A record at position `i` of `b`.
pub open spec fn command_at(b: Seq<u8>, i: int) -> Decoded<Mutation> {
    either(
        match pair_after(b, token_at(b, i, tok_set())) {
            Decoded::Done(kv, e) => Decoded::Done(Mutation::Put(kv.0, kv.1), e),
            other => failed(other),
        },
        match key_after(b, token_at(b, i, tok_remove())) {
            Decoded::Done(k, e) => Decoded::Done(Mutation::Del(k), e),
            other => failed(other),
        },
    )
}

pub(crate) proof fn lemma_token_at_done(b: Seq<u8>, i: int, t: Seq<u8>)
    requires
        0 <= i,
        b.len() <= usize::MAX,
    ensures
        token_at(b, i, t) matches Decoded::Done(_, e) ==> e == i + t.len(),
{
}

impl Command {
    /// The record's bytes: a compact JSON object, with no separator after it.
    pub fn encode(&self) -> (r: Vec<u8>)
        ensures
            r@ == encode_mutation(self@),
    {
        let mut out: Vec<u8> = Vec::new();
        match self {
            Command::Put { key, value } => {
                push_token(&mut out, &tok_set_bytes());
                push_quoted(&mut out, key);
                push_token(&mut out, &tok_value_bytes());
                push_quoted(&mut out, value);
                push_token(&mut out, &tok_close_bytes());
                assert(out@ =~= encode_mutation(self@));
            },
            Command::Remove { key } => {
                push_token(&mut out, &tok_remove_bytes());
                push_quoted(&mut out, key);
                push_token(&mut out, &tok_close_bytes());
                assert(out@ =~= encode_mutation(self@));
            },
        }
        out
    }

    /// Reads one record at position `i` of `b`.
    pub fn decode(b: &[u8], i: usize) -> (r: Decoded<Command>)
        requires
            i <= b@.len(),
        ensures
            r@ == command_at(b@, i as int),
            r matches Decoded::Done(_, e) ==> i < e <= b@.len(),
            forall|m: Mutation| #[trigger]
                holds_at(b@, i as int, encode_mutation(m)) ==> r@ == Decoded::Done(
                    m,
                    (i + encode_mutation(m).len()) as usize,
                ),
    {
        let n = b.len();
        let ts = tok_set_bytes();
        let tr = tok_remove_bytes();
        proof {
            lemma_token_at_done(b@, i as int, tok_set());
            lemma_token_at_done(b@, i as int, tok_remove());
        }
        let first = match match_token(b, i, ts.as_slice()) {
            Decoded::Done(_, j) => match decode_pair(b, j) {
                Decoded::Done(kv, e) => Decoded::Done(Command::Put { key: kv.0, value: kv.1 }, e),
                Decoded::Partial => Decoded::Partial,
                Decoded::Malformed => Decoded::Malformed,
            },
            Decoded::Partial => Decoded::Partial,
            Decoded::Malformed => Decoded::Malformed,
        };
        let second = match match_token(b, i, tr.as_slice()) {
            Decoded::Done(_, j) => match decode_key(b, j) {
                Decoded::Done(k, e) => Decoded::Done(Command::Remove { key: k }, e),
                Decoded::Partial => Decoded::Partial,
                Decoded::Malformed => Decoded::Malformed,
            },
            Decoded::Partial => Decoded::Partial,
            Decoded::Malformed => Decoded::Malformed,
        };
        proof {
            assert forall|m: Mutation| #[trigger]
                holds_at(b@, i as int, encode_mutation(m)) implies first@ == Decoded::Done(
                m,
                (i + encode_mutation(m).len()) as usize,
            ) || second@ == Decoded::Done(m, (i + encode_mutation(m).len()) as usize) by {
                match m {
                    Mutation::Put(k, v) => {
                        lemma_holds_split(b@, i as int, tok_set(), pair_text(k, v));
                    },
                    Mutation::Del(k) => {
                        lemma_holds_split(b@, i as int, tok_remove(), key_text(k));
                    },
                }
            }
        }
        if matches!(first, Decoded::Done(..)) {
            first
        } else if matches!(second, Decoded::Done(..)) {
            second
        } else if matches!(first, Decoded::Partial) || matches!(second, Decoded::Partial) {
            Decoded::Partial
        } else {
            Decoded::Malformed
        }
    }
}

} // verus!
