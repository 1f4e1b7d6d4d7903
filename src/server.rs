//! What the server does with the bytes of one connection: read the requests
//! in order, serve each against the engine, and answer each with one reply.

use vstd::prelude::*;
use crate::codec::{Decoded, append_bytes};
use crate::engine::KvsEngine;
use crate::protocol::{Ask, Reply, Request, Response, ask_at, encode_reply};
use crate::thread_pool::ThreadPool;
use crate::error::{Result, message_of};

verus! {

/// The server of the store: an engine, and the pool that serves connections.
pub struct KvsServer<E: KvsEngine, T: ThreadPool> {
    engine: E,
    thread_pool: T,
}

impl<E: KvsEngine, T: ThreadPool> KvsServer<E, T> {
    /// The engine that the server holds.
    pub closed spec fn held_engine(&self) -> E {
        self.engine
    }

    /// The pool that the server holds.
    pub closed spec fn held_pool(&self) -> T {
        self.thread_pool
    }

    /// A server on `engine`, serving connections on `thread_pool`.
    pub fn new(engine: E, thread_pool: T) -> (r: Self)
        ensures
            r.held_engine() == engine,
            r.held_pool() == thread_pool,
    {
        KvsServer { engine, thread_pool }
    }

    /// The engine that every connection is served against.
    pub fn engine(&self) -> (r: &E)
        ensures
            *r == self.held_engine(),
    {
        &self.engine
    }

    /// The pool that runs one job per connection.
    pub fn thread_pool(&self) -> (r: &T)
        ensures
            *r == self.held_pool(),
    {
        &self.thread_pool
    }
}

/// `r` is a reply to a request of the kind of `a`.
pub open spec fn answers(a: Ask, r: Reply) -> bool {
    match a {
        Ask::Put(_, _) => r is Put,
        Ask::Get(_) => r is Get,
        Ask::Remove(_) => r is Remove,
    }
}

/// The reply to a `set` or `remove` whose result is `res`.
pub open spec fn unit_reply(res: Result<()>) -> Option<Seq<char>> {
    match res {
        Ok(_) => None,
        Err(e) => Some(message_of(e.kind)),
    }
}

/// The reply to a `get` whose result is `res`.
pub open spec fn found_reply(res: Result<Option<String>>) -> std::result::Result<Option<Seq<char>>, Seq<char>> {
    match res {
        Ok(Some(v)) => Ok(Some(v@)),
        Ok(None) => Ok(None),
        Err(e) => Err(message_of(e.kind)),
    }
}

/// `r` is the reply to the request `a` for some result that the engine's
/// method of the request's kind may give on the request's key and value.
pub open spec fn served<E: KvsEngine>(engine: &E, a: Ask, r: Reply) -> bool {
    match a {
        Ask::Put(k, v) => set_served(engine, k, v, r),
        Ask::Get(k) => get_served(engine, k, r),
        Ask::Remove(k) => remove_served(engine, k, r),
    }
}

/// `r` is the reply to a `get` of `k`, for a result that the engine may give.
pub open spec fn get_served<E: KvsEngine>(engine: &E, k: Seq<char>, r: Reply) -> bool {
    exists|res: Result<Option<String>>| #[trigger] engine.get_result(k, res) && r == Reply::Get(found_reply(res))
}

/// `r` is the reply to a `remove` of `k`, for a result that the engine may give.
pub open spec fn remove_served<E: KvsEngine>(engine: &E, k: Seq<char>, r: Reply) -> bool {
    exists|res: Result<()>| #[trigger] engine.remove_result(k, res) && r == Reply::Remove(unit_reply(res))
}

/// `r` is the reply to a `set` of `k` to `v`, for a result that the engine may give.
pub open spec fn set_served<E: KvsEngine>(engine: &E, k: Seq<char>, v: Seq<char>, r: Reply) -> bool {
    exists|res: Result<()>| #[trigger] engine.set_result(k, v, res) && r == Reply::Put(unit_reply(res))
}

/// Serves one request against the engine: the method of the request's kind,
/// on its key and value, and its result turned into the reply; an error
/// becomes the error arm of the reply, with the error's message.
pub fn handle_request<E: KvsEngine>(engine: &E, request: Request) -> (r: Response)
    ensures
        answers(request@, r@),
        served(engine, request@, r@),
{
    match request {
        Request::Put { key, value } => {
            let ghost k = key@;
            let ghost v = value@;
            let res = engine.set(key, value);
            let r = Response::set(res);
            assert(engine.set_result(k, v, res) && r@ == Reply::Put(unit_reply(res)));
            assert(set_served(engine, k, v, r@));
            r
        },
        Request::Get { key } => {
            let ghost k = key@;
            let res = engine.get(key);
            let r = Response::get(res);
            assert(engine.get_result(k, res) && r@ == Reply::Get(found_reply(res)));
            assert(get_served(engine, k, r@));
            r
        },
        Request::Remove { key } => {
            let ghost k = key@;
            let res = engine.remove(key);
            let r = Response::remove(res);
            assert(engine.remove_result(k, res) && r@ == Reply::Remove(unit_reply(res)));
            assert(remove_served(engine, k, r@));
            r
        },
    }
}

/// The requests read one after another from position `i` of `b`: the
/// requests, where reading stopped, and whether it stopped at bytes that can
/// be no request.
pub open spec fn requests_from(b: Seq<u8>, i: int) -> (Seq<Ask>, int, bool)
    decreases b.len() - i,
{
    match ask_at(b, i) {
        Decoded::Done(a, e) => if i < e <= b.len() {
            let rest = requests_from(b, e as int);
            (seq![a] + rest.0, rest.1, rest.2)
        } else {
            (Seq::empty(), i, true)
        },
        Decoded::Partial => (Seq::empty(), i, false),
        Decoded::Malformed => (Seq::empty(), i, true),
    }
}

proof fn lemma_requests_step(b: Seq<u8>, i: int, a: Ask, e: usize)
    requires
        ask_at(b, i) == Decoded::Done(a, e),
        i < e <= b.len(),
    ensures
        requests_from(b, i) == (seq![a] + requests_from(b, e as int).0, requests_from(b, e as int).1,
            requests_from(b, e as int).2),
{
}

proof fn lemma_requests_stop(b: Seq<u8>, i: int)
    requires
        !(ask_at(b, i) is Done),
    ensures
        requests_from(b, i) == (Seq::<Ask>::empty(), i, ask_at(b, i) is Malformed),
{
}

/// The bytes of replies, one after another.
pub open spec fn encode_replies(rs: Seq<Reply>) -> Seq<u8>
    decreases rs.len(),
{
    if rs.len() == 0 {
        Seq::empty()
    } else {
        encode_replies(rs.drop_last()) + encode_reply(rs.last())
    }
}

/// What serving the bytes read so far from a connection gave.
pub struct Served {
    /// The replies, to be written back in this order.
    pub replies: Vec<u8>,
    /// How many bytes the requests served took; the rest waits for more bytes.
    pub consumed: usize,
    /// Reading stopped at bytes that can be no request: the connection is to be closed.
    pub malformed: bool,
}

/// Serves, in order, every whole request at the start of `input`, and answers
/// each with one reply of its kind.
#[verifier::rlimit(50)]
pub fn serve_buffer<E: KvsEngine>(engine: &E, input: &[u8]) -> (r: Served)
    ensures
        ({
            let (asks, end, bad) = requests_from(input@, 0);
            &&& r.consumed == end
            &&& r.malformed == bad
            &&& exists|rs: Seq<Reply>|
                rs.len() == asks.len() && r.replies@ == encode_replies(rs) && forall|k: int|
                    0 <= k < rs.len() ==> #[trigger] served(engine, asks[k], rs[k])
        }),
{
    let mut out: Vec<u8> = Vec::new();
    let mut pos: usize = 0;
    let ghost mut asks: Seq<Ask> = Seq::empty();
    let ghost mut rs: Seq<Reply> = Seq::empty();
    let ghost total = requests_from(input@, 0);
    let n = input.len();
    let mut malformed = false;
    proof {
        assert(total.0 =~= asks + requests_from(input@, 0).0);
    }
    loop
        invariant_except_break
            !malformed,
        invariant
            pos <= input@.len(),
            n == input@.len(),
            total == requests_from(input@, 0),
            total.0 == asks + requests_from(input@, pos as int).0,
            total.1 == requests_from(input@, pos as int).1,
            total.2 == requests_from(input@, pos as int).2,
            rs.len() == asks.len(),
            out@ == encode_replies(rs),
            forall|k: int| 0 <= k < rs.len() ==> #[trigger] served(engine, asks[k], rs[k]),
        ensures
            total == (asks, pos as int, malformed),
            rs.len() == asks.len(),
            out@ == encode_replies(rs),
            forall|k: int| 0 <= k < rs.len() ==> #[trigger] served(engine, asks[k], rs[k]),
        decreases input@.len() - pos,
    {
        match Request::decode(input, pos) {
            Decoded::Done(request, e) => {
                let ghost a = request@;
                let reply = handle_request(engine, request);
                let bytes = reply.encode();
                append_bytes(&mut out, bytes.as_slice());
                proof {
                    let old_rs = rs;
                    let old_asks = asks;
                    let rest = requests_from(input@, e as int);
                    lemma_requests_step(input@, pos as int, a, e);
                    rs = rs.push(reply@);
                    asks = asks.push(a);
                    assert(rs.drop_last() =~= old_rs);
                    assert(asks + rest.0 =~= old_asks + (seq![a] + rest.0));
                    assert forall|k: int| 0 <= k < rs.len() implies #[trigger] served(engine, asks[k], rs[k]) by {
                        if k < old_rs.len() {
                            assert(served(engine, old_asks[k], old_rs[k]));
                        }
                    }
                }
                pos = e;
            },
            Decoded::Partial => {
                proof {
                    lemma_requests_stop(input@, pos as int);
                    assert(asks + Seq::<Ask>::empty() =~= asks);
                    assert(total.0 =~= asks);
                }
                break;
            },
            Decoded::Malformed => {
                proof {
                    lemma_requests_stop(input@, pos as int);
                    assert(asks + Seq::<Ask>::empty() =~= asks);
                    assert(total.0 =~= asks);
                }
                malformed = true;
                break;
            },
        }
    }
    proof {
        assert(total.0 == asks);
        assert(rs.len() == total.0.len() && out@ == encode_replies(rs) && forall|k: int|
            0 <= k < rs.len() ==> #[trigger] served(engine, total.0[k], rs[k]));
    }
    Served { replies: out, consumed: pos, malformed }
}

} // verus!
