//! The messages between a client and the server, in the record format of
//! the log: one compact JSON object per message, with nothing between two
//! messages.

use vstd::prelude::*;
use crate::codec::{
    Decoded, either, failed, holds_at, key_after, key_text, lemma_holds_split, lemma_token_at_done,
    match_token, pair_after, pair_text, push_quoted, push_token, decode_key, decode_pair, tok_get,
    tok_get_bytes, tok_remove, tok_remove_bytes, tok_set, tok_set_bytes, token_at,
};

verus! {

/// A request of a client.
pub enum Request {
    /// Set a key to a value.
    Put { key: String, value: String },
    /// Get the value of a key.
    Get { key: String },
    /// Remove a key.
    Remove { key: String },
}

/// A request, as a value.
pub enum Ask {
    Put(Seq<char>, Seq<char>),
    Get(Seq<char>),
    Remove(Seq<char>),
}

impl View for Request {
    type V = Ask;

    open spec fn view(&self) -> Ask {
        match self {
            Request::Put { key, value } => Ask::Put(key@, value@),
            Request::Get { key } => Ask::Get(key@),
            Request::Remove { key } => Ask::Remove(key@),
        }
    }
}

/// The server's reply to one request; the error arm carries the message of
/// the store's error.
pub enum Response {
    Put(std::result::Result<(), String>),
    Get(std::result::Result<Option<String>, String>),
    Remove(std::result::Result<(), String>),
}

/// A reply, as a value; `Put` and `Remove` hold the error message, if any.
pub enum Reply {
    Put(Option<Seq<char>>),
    Get(std::result::Result<Option<Seq<char>>, Seq<char>>),
    Remove(Option<Seq<char>>),
}

pub open spec fn unit_view(r: std::result::Result<(), String>) -> Option<Seq<char>> {
    match r {
        Ok(_) => None,
        Err(m) => Some(m@),
    }
}

pub open spec fn found_view(r: std::result::Result<Option<String>, String>) -> std::result::Result<Option<Seq<char>>, Seq<char>> {
    match r {
        Ok(Some(v)) => Ok(Some(v@)),
        Ok(None) => Ok(None),
        Err(m) => Err(m@),
    }
}

impl View for Response {
    type V = Reply;

    open spec fn view(&self) -> Reply {
        match self {
            Response::Put(r) => Reply::Put(unit_view(*r)),
            Response::Get(r) => Reply::Get(found_view(*r)),
            Response::Remove(r) => Reply::Remove(unit_view(*r)),
        }
    }
}

/// The bytes of a request.
pub open spec fn encode_ask(a: Ask) -> Seq<u8> {
    match a {
        Ask::Put(k, v) => tok_set() + pair_text(k, v),
        Ask::Get(k) => tok_get() + key_text(k),
        Ask::Remove(k) => tok_remove() + key_text(k),
    }
}

/// A request at position `i` of `b`.
pub open spec fn ask_at(b: Seq<u8>, i: int) -> Decoded<Ask> {
    either(
        either(
            match pair_after(b, token_at(b, i, tok_set())) {
                Decoded::Done(kv, e) => Decoded::Done(Ask::Put(kv.0, kv.1), e),
                other => failed(other),
            },
            match key_after(b, token_at(b, i, tok_get())) {
                Decoded::Done(k, e) => Decoded::Done(Ask::Get(k), e),
                other => failed(other),
            },
        ),
        match key_after(b, token_at(b, i, tok_remove())) {
            Decoded::Done(k, e) => Decoded::Done(Ask::Remove(k), e),
            other => failed(other),
        },
    )
}

/// The reading that succeeds of two, as `either` says.
fn pick<T: View>(x: Decoded<T>, y: Decoded<T>) -> (r: Decoded<T>)
    ensures
        r@ == either(x@, y@),
{
    if matches!(x, Decoded::Done(..)) {
        x
    } else if matches!(y, Decoded::Done(..)) {
        y
    } else if matches!(x, Decoded::Partial) || matches!(y, Decoded::Partial) {
        Decoded::Partial
    } else {
        Decoded::Malformed
    }
}

impl Request {
    /// The request's bytes.
    pub fn encode(&self) -> (r: Vec<u8>)
        ensures
            r@ == encode_ask(self@),
    {
        let mut out: Vec<u8> = Vec::new();
        match self {
            Request::Put { key, value } => {
                push_token(&mut out, &tok_set_bytes());
                push_quoted(&mut out, key);
                push_token(&mut out, &crate::codec::tok_value_bytes());
                push_quoted(&mut out, value);
                push_token(&mut out, &crate::codec::tok_close_bytes());
            },
            Request::Get { key } => {
                push_token(&mut out, &tok_get_bytes());
                push_quoted(&mut out, key);
                push_token(&mut out, &crate::codec::tok_close_bytes());
            },
            Request::Remove { key } => {
                push_token(&mut out, &tok_remove_bytes());
                push_quoted(&mut out, key);
                push_token(&mut out, &crate::codec::tok_close_bytes());
            },
        }
        assert(out@ =~= encode_ask(self@));
        out
    }

    /// Reads one request at position `i` of `b`.
    pub fn decode(b: &[u8], i: usize) -> (r: Decoded<Request>)
        requires
            i <= b@.len(),
        ensures
            r@ == ask_at(b@, i as int),
            r matches Decoded::Done(_, e) ==> i < e <= b@.len(),
            forall|a: Ask| #[trigger]
                holds_at(b@, i as int, encode_ask(a)) ==> r@ == Decoded::Done(
                    a,
                    (i + encode_ask(a).len()) as usize,
                ),
    {
        let n = b.len();
        let ts = tok_set_bytes();
        let tg = tok_get_bytes();
        let tr = tok_remove_bytes();
        proof {
            lemma_token_at_done(b@, i as int, tok_set());
            lemma_token_at_done(b@, i as int, tok_get());
            lemma_token_at_done(b@, i as int, tok_remove());
        }
        let put = match match_token(b, i, ts.as_slice()) {
            Decoded::Done(_, j) => match decode_pair(b, j) {
                Decoded::Done(kv, e) => Decoded::Done(Request::Put { key: kv.0, value: kv.1 }, e),
                Decoded::Partial => Decoded::Partial,
                Decoded::Malformed => Decoded::Malformed,
            },
            Decoded::Partial => Decoded::Partial,
            Decoded::Malformed => Decoded::Malformed,
        };
        let get = match match_token(b, i, tg.as_slice()) {
            Decoded::Done(_, j) => match decode_key(b, j) {
                Decoded::Done(k, e) => Decoded::Done(Request::Get { key: k }, e),
                Decoded::Partial => Decoded::Partial,
                Decoded::Malformed => Decoded::Malformed,
            },
            Decoded::Partial => Decoded::Partial,
            Decoded::Malformed => Decoded::Malformed,
        };
        let rm = match match_token(b, i, tr.as_slice()) {
            Decoded::Done(_, j) => match decode_key(b, j) {
                Decoded::Done(k, e) => Decoded::Done(Request::Remove { key: k }, e),
                Decoded::Partial => Decoded::Partial,
                Decoded::Malformed => Decoded::Malformed,
            },
            Decoded::Partial => Decoded::Partial,
            Decoded::Malformed => Decoded::Malformed,
        };
        proof {
            assert forall|a: Ask| #[trigger] holds_at(b@, i as int, encode_ask(a)) implies
                (a is Put ==> put@ == Decoded::Done(a, (i + encode_ask(a).len()) as usize))
                && (a is Get ==> get@ == Decoded::Done(a, (i + encode_ask(a).len()) as usize)
                    && !(put is Done))
                && (a is Remove ==> rm@ == Decoded::Done(a, (i + encode_ask(a).len()) as usize)
                    && !(put is Done) && !(get is Done)) by {
                match a {
                    Ask::Put(k, v) => {
                        lemma_holds_split(b@, i as int, tok_set(), pair_text(k, v));
                    },
                    Ask::Get(k) => {
                        lemma_holds_split(b@, i as int, tok_get(), key_text(k));
                        assert(b@[i + 2] == 71);
                        assert(tok_set()[2] == 83);
                        assert(b@.subrange(i as int, i + 14)[2] == 71);
                    },
                    Ask::Remove(k) => {
                        lemma_holds_split(b@, i as int, tok_remove(), key_text(k));
                        assert(b@.subrange(i as int, i + 17)[2] == 82);
                        assert(b@[i + 2] == 82);
                    },
                }
            }
        }
        pick(pick(put, get), rm)
    }
}

/// The fixed parts of replies: 0 `{"Set":{"Ok":null}}`, 1 `{"Set":{"Err":`,
/// 2 `{"Get":{"Ok":null}}`, 3 `{"Get":{"Ok":`, 4 `{"Get":{"Err":`,
/// 5 `{"Remove":{"Ok":null}}`, 6 `{"Remove":{"Err":`.
pub open spec fn reply_token(w: u8) -> Seq<u8> {
    if w == 0 {
        seq![123u8, 34, 83, 101, 116, 34, 58, 123, 34, 79, 107, 34, 58, 110, 117, 108, 108, 125, 125]
    } else if w == 1 {
        seq![123u8, 34, 83, 101, 116, 34, 58, 123, 34, 69, 114, 114, 34, 58]
    } else if w == 2 {
        seq![123u8, 34, 71, 101, 116, 34, 58, 123, 34, 79, 107, 34, 58, 110, 117, 108, 108, 125, 125]
    } else if w == 3 {
        seq![123u8, 34, 71, 101, 116, 34, 58, 123, 34, 79, 107, 34, 58]
    } else if w == 4 {
        seq![123u8, 34, 71, 101, 116, 34, 58, 123, 34, 69, 114, 114, 34, 58]
    } else if w == 5 {
        seq![123u8, 34, 82, 101, 109, 111, 118, 101, 34, 58, 123, 34, 79, 107, 34, 58, 110, 117, 108, 108, 125, 125]
    } else {
        seq![123u8, 34, 82, 101, 109, 111, 118, 101, 34, 58, 123, 34, 69, 114, 114, 34, 58]
    }
}

fn reply_token_bytes(w: u8) -> (r: Vec<u8>)
    requires
        w <= 6,
    ensures
        r@ == reply_token(w),
{
    let r = if w == 0 {
        vec![123u8, 34, 83, 101, 116, 34, 58, 123, 34, 79, 107, 34, 58, 110, 117, 108, 108, 125, 125]
    } else if w == 1 {
        vec![123u8, 34, 83, 101, 116, 34, 58, 123, 34, 69, 114, 114, 34, 58]
    } else if w == 2 {
        vec![123u8, 34, 71, 101, 116, 34, 58, 123, 34, 79, 107, 34, 58, 110, 117, 108, 108, 125, 125]
    } else if w == 3 {
        vec![123u8, 34, 71, 101, 116, 34, 58, 123, 34, 79, 107, 34, 58]
    } else if w == 4 {
        vec![123u8, 34, 71, 101, 116, 34, 58, 123, 34, 69, 114, 114, 34, 58]
    } else if w == 5 {
        vec![123u8, 34, 82, 101, 109, 111, 118, 101, 34, 58, 123, 34, 79, 107, 34, 58, 110, 117, 108, 108, 125, 125]
    } else {
        vec![123u8, 34, 82, 101, 109, 111, 118, 101, 34, 58, 123, 34, 69, 114, 114, 34, 58]
    };
    assert(r@ =~= reply_token(w));
    r
}

/// The bytes of a reply.
pub open spec fn encode_reply(r: Reply) -> Seq<u8> {
    match r {
        Reply::Put(None) => reply_token(0),
        Reply::Put(Some(m)) => reply_token(1) + key_text(m),
        Reply::Get(Ok(None)) => reply_token(2),
        Reply::Get(Ok(Some(v))) => reply_token(3) + key_text(v),
        Reply::Get(Err(m)) => reply_token(4) + key_text(m),
        Reply::Remove(None) => reply_token(5),
        Reply::Remove(Some(m)) => reply_token(6) + key_text(m),
    }
}

/// The fixed reply `w` at position `i` of `b`.
pub open spec fn fixed_alt(b: Seq<u8>, i: int, w: u8, r: Reply) -> Decoded<Reply> {
    match token_at(b, i, reply_token(w)) {
        Decoded::Done(_, e) => Decoded::Done(r, e),
        other => failed(other),
    }
}

/// The reply `w`, which carries a string, at position `i` of `b`.
pub open spec fn text_alt(b: Seq<u8>, i: int, w: u8) -> Decoded<Reply> {
    match key_after(b, token_at(b, i, reply_token(w))) {
        Decoded::Done(m, e) => Decoded::Done(
            if w == 1 {
                Reply::Put(Some(m))
            } else if w == 3 {
                Reply::Get(Ok(Some(m)))
            } else if w == 4 {
                Reply::Get(Err(m))
            } else {
                Reply::Remove(Some(m))
            },
            e,
        ),
        other => failed(other),
    }
}

/// A reply at position `i` of `b`.
pub open spec fn reply_at(b: Seq<u8>, i: int) -> Decoded<Reply> {
    either(
        either(
            either(
                either(
                    either(either(fixed_alt(b, i, 0, Reply::Put(None)), text_alt(b, i, 1)), fixed_alt(b, i, 2, Reply::Get(Ok(None)))),
                    text_alt(b, i, 3),
                ),
                text_alt(b, i, 4),
            ),
            fixed_alt(b, i, 5, Reply::Remove(None)),
        ),
        text_alt(b, i, 6),
    )
}

proof fn lemma_token_mismatch(b: Seq<u8>, i: int, t: Seq<u8>, k: int)
    requires
        0 <= i <= b.len(),
        0 <= k < t.len(),
        i + k < b.len(),
        b[i + k] != t[k],
    ensures
        token_at(b, i, t) is Malformed,
{
    if i + t.len() <= b.len() {
        assert(b.subrange(i, i + t.len())[k] != t[k]);
    } else {
        assert(b.subrange(i, b.len() as int)[k] != t.subrange(0, b.len() - i)[k]);
    }
}

/// Reads the fixed reply `w` at position `i` of `b`.
fn fixed_reply(b: &[u8], i: usize, w: u8, r: Response) -> (d: Decoded<Response>)
    requires
        i <= b@.len(),
        w <= 6,
    ensures
        d@ == fixed_alt(b@, i as int, w, r@),
        d matches Decoded::Done(_, e) ==> i < e <= b@.len(),
{
    let n = b.len();
    let t = reply_token_bytes(w);
    proof {
        lemma_token_at_done(b@, i as int, reply_token(w));
    }
    match match_token(b, i, t.as_slice()) {
        Decoded::Done(_, e) => Decoded::Done(r, e),
        Decoded::Partial => Decoded::Partial,
        Decoded::Malformed => Decoded::Malformed,
    }
}

/// Reads the reply `w`, which carries a string, at position `i` of `b`.
fn text_reply(b: &[u8], i: usize, w: u8) -> (d: Decoded<Response>)
    requires
        i <= b@.len(),
        w == 1 || w == 3 || w == 4 || w == 6,
    ensures
        d@ == text_alt(b@, i as int, w),
        d matches Decoded::Done(_, e) ==> i < e <= b@.len(),
        forall|m: Seq<char>| #[trigger]
            holds_at(b@, i as int, reply_token(w) + key_text(m)) ==> key_after(
                b@,
                token_at(b@, i as int, reply_token(w)),
            ) == Decoded::Done(m, (i + reply_token(w).len() + key_text(m).len()) as usize),
{
    let n = b.len();
    let t = reply_token_bytes(w);
    proof {
        lemma_token_at_done(b@, i as int, reply_token(w));
        assert forall|m: Seq<char>| #[trigger]
            holds_at(b@, i as int, reply_token(w) + key_text(m)) implies holds_at(b@, i as int, reply_token(w))
            && holds_at(b@, i + reply_token(w).len(), key_text(m)) by {
            lemma_holds_split(b@, i as int, reply_token(w), key_text(m));
        }
    }
    match match_token(b, i, t.as_slice()) {
        Decoded::Done(_, j) => match decode_key(b, j) {
            Decoded::Done(m, e) => {
                let r = if w == 1 {
                    Response::Put(Err(m))
                } else if w == 3 {
                    Response::Get(Ok(Some(m)))
                } else if w == 4 {
                    Response::Get(Err(m))
                } else {
                    Response::Remove(Err(m))
                };
                Decoded::Done(r, e)
            },
            Decoded::Partial => Decoded::Partial,
            Decoded::Malformed => Decoded::Malformed,
        },
        Decoded::Partial => Decoded::Partial,
        Decoded::Malformed => Decoded::Malformed,
    }
}

impl Response {
    /// The reply's bytes.
    pub fn encode(&self) -> (r: Vec<u8>)
        ensures
            r@ == encode_reply(self@),
    {
        let mut out: Vec<u8> = Vec::new();
        let close = crate::codec::tok_close_bytes();
        match self {
            Response::Put(Ok(())) => push_token(&mut out, &reply_token_bytes(0)),
            Response::Put(Err(m)) => {
                push_token(&mut out, &reply_token_bytes(1));
                push_quoted(&mut out, m);
                push_token(&mut out, &close);
            },
            Response::Get(Ok(None)) => push_token(&mut out, &reply_token_bytes(2)),
            Response::Get(Ok(Some(v))) => {
                push_token(&mut out, &reply_token_bytes(3));
                push_quoted(&mut out, v);
                push_token(&mut out, &close);
            },
            Response::Get(Err(m)) => {
                push_token(&mut out, &reply_token_bytes(4));
                push_quoted(&mut out, m);
                push_token(&mut out, &close);
            },
            Response::Remove(Ok(())) => push_token(&mut out, &reply_token_bytes(5)),
            Response::Remove(Err(m)) => {
                push_token(&mut out, &reply_token_bytes(6));
                push_quoted(&mut out, m);
                push_token(&mut out, &close);
            },
        }
        assert(out@ =~= encode_reply(self@));
        out
    }

    /// Reads one reply at position `i` of `b`.
    #[verifier::rlimit(50)]
    pub fn decode(b: &[u8], i: usize) -> (r: Decoded<Response>)
        requires
            i <= b@.len(),
        ensures
            r@ == reply_at(b@, i as int),
            r matches Decoded::Done(_, e) ==> i < e <= b@.len(),
            forall|x: Reply| #[trigger]
                holds_at(b@, i as int, encode_reply(x)) ==> r@ == Decoded::Done(
                    x,
                    (i + encode_reply(x).len()) as usize,
                ),
    {
        let n = b.len();
        let a0 = fixed_reply(b, i, 0, Response::Put(Ok(())));
        let a1 = text_reply(b, i, 1);
        let a2 = fixed_reply(b, i, 2, Response::Get(Ok(None)));
        let a3 = text_reply(b, i, 3);
        let a4 = text_reply(b, i, 4);
        let a5 = fixed_reply(b, i, 5, Response::Remove(Ok(())));
        let a6 = text_reply(b, i, 6);
        proof {
            assert forall|x: Reply| #[trigger] holds_at(b@, i as int, encode_reply(x)) implies
                either(either(either(either(either(either(a0@, a1@), a2@), a3@), a4@), a5@), a6@)
                    == Decoded::Done(x, (i + encode_reply(x).len()) as usize) by {
                let e = encode_reply(x);
                assert(b@.subrange(i as int, i + e.len()) == e);
                assert forall|k: int| 0 <= k < e.len() implies b@[i + k] == e[k] by {
                    assert(b@.subrange(i as int, i + e.len())[k] == e[k]);
                }
                match x {
                    Reply::Put(None) => {
                        assert(a0@ == Decoded::Done(x, (i + e.len()) as usize));
                    },
                    Reply::Put(Some(m)) => {
                        assert(e[9] == 69);
                        lemma_token_mismatch(b@, i as int, reply_token(0), 9);
                        assert(a0@ is Malformed);
                        assert(a1@ == Decoded::Done(x, (i + e.len()) as usize));
                    },
                    Reply::Get(Ok(None)) => {
                        lemma_token_mismatch(b@, i as int, reply_token(0), 2);
                        lemma_token_mismatch(b@, i as int, reply_token(1), 2);
                    },
                    Reply::Get(Ok(Some(v))) => {
                        lemma_token_mismatch(b@, i as int, reply_token(0), 2);
                        lemma_token_mismatch(b@, i as int, reply_token(1), 2);
                        assert(e[13] == 34);
                        lemma_token_mismatch(b@, i as int, reply_token(2), 13);
                    },
                    Reply::Get(Err(m)) => {
                        lemma_token_mismatch(b@, i as int, reply_token(0), 2);
                        lemma_token_mismatch(b@, i as int, reply_token(1), 2);
                        lemma_token_mismatch(b@, i as int, reply_token(2), 9);
                        lemma_token_mismatch(b@, i as int, reply_token(3), 9);
                    },
                    Reply::Remove(None) => {
                        lemma_token_mismatch(b@, i as int, reply_token(0), 2);
                        lemma_token_mismatch(b@, i as int, reply_token(1), 2);
                        lemma_token_mismatch(b@, i as int, reply_token(2), 2);
                        lemma_token_mismatch(b@, i as int, reply_token(3), 2);
                        lemma_token_mismatch(b@, i as int, reply_token(4), 2);
                    },
                    Reply::Remove(Some(m)) => {
                        lemma_token_mismatch(b@, i as int, reply_token(0), 2);
                        lemma_token_mismatch(b@, i as int, reply_token(1), 2);
                        lemma_token_mismatch(b@, i as int, reply_token(2), 2);
                        lemma_token_mismatch(b@, i as int, reply_token(3), 2);
                        lemma_token_mismatch(b@, i as int, reply_token(4), 2);
                        lemma_token_mismatch(b@, i as int, reply_token(5), 12);
                    },
                }
            }
        }
        pick(pick(pick(pick(pick(pick(a0, a1), a2), a3), a4), a5), a6)
    }

    /// The reply to a `set`, from the store's result.
    pub fn set(result: crate::error::Result<()>) -> (r: Response)
        ensures
            r@ == Reply::Put(
                match result {
                    Ok(_) => None,
                    Err(e) => Some(crate::error::message_of(e.kind)),
                },
            ),
    {
        match result {
            Ok(()) => Response::Put(Ok(())),
            Err(e) => Response::Put(Err(e.message())),
        }
    }

    /// The reply to a `get`, from the store's result.
    pub fn get(result: crate::error::Result<Option<String>>) -> (r: Response)
        ensures
            r@ == Reply::Get(
                match result {
                    Ok(Some(v)) => Ok(Some(v@)),
                    Ok(None) => Ok(None),
                    Err(e) => Err(crate::error::message_of(e.kind)),
                },
            ),
    {
        match result {
            Ok(v) => Response::Get(Ok(v)),
            Err(e) => Response::Get(Err(e.message())),
        }
    }

    /// The reply to a `remove`, from the store's result.
    pub fn remove(result: crate::error::Result<()>) -> (r: Response)
        ensures
            r@ == Reply::Remove(
                match result {
                    Ok(_) => None,
                    Err(e) => Some(crate::error::message_of(e.kind)),
                },
            ),
    {
        match result {
            Ok(()) => Response::Remove(Ok(())),
            Err(e) => Response::Remove(Err(e.message())),
        }
    }
}

} // verus!
