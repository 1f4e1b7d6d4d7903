//! What a client makes of the reply to each of its requests.

use vstd::prelude::*;
use vstd::string::StringExecFns;
use crate::error::{Error, ErrorKind, Result};
use crate::codec::Decoded;
use crate::protocol::{Response, reply_at};

verus! {

/// The message of a connection that ended before the reply came.
pub open spec fn no_reply_text() -> Seq<char> {
    "Can not deserialize next response"@
}

/// The message of a reply of another kind than the request.
pub open spec fn wrong_reply_text() -> Seq<char> {
    "Client received an unexpected response"@
}

fn no_reply() -> (e: Error)
    ensures
        e.kind matches ErrorKind::UnexpectedError(m) && m@ == no_reply_text(),
{
    Error::new(ErrorKind::UnexpectedError(String::from_str("Can not deserialize next response")))
}

fn wrong_reply() -> (e: Error)
    ensures
        e.kind matches ErrorKind::UnexpectedError(m) && m@ == wrong_reply_text(),
{
    Error::new(ErrorKind::UnexpectedError(String::from_str("Client received an unexpected response")))
}

/// What a client does next with the bytes that it has read of the reply.
pub enum ReplyStep {
    /// A whole reply, and how many bytes it took.
    Reply(Response, usize),
    /// The reply is not whole yet: read more bytes.
    NeedMore,
    /// The connection ended before a whole reply came.
    Ended,
    /// The bytes can be no reply.
    Malformed,
}

/// The next step of reading a reply from `buf`; `closed` says that the
/// server has closed the connection, so that no more bytes will come.
pub fn reply_step(buf: &[u8], closed: bool) -> (r: ReplyStep)
    ensures
        match reply_at(buf@, 0) {
            Decoded::Done(x, e) => r matches ReplyStep::Reply(resp, n) && resp@ == x && n == e,
            Decoded::Partial => if closed {
                r is Ended
            } else {
                r is NeedMore
            },
            Decoded::Malformed => r is Malformed,
        },
{
    match Response::decode(buf, 0) {
        Decoded::Done(resp, e) => ReplyStep::Reply(resp, e),
        Decoded::Partial => if closed {
            ReplyStep::Ended
        } else {
            ReplyStep::NeedMore
        },
        Decoded::Malformed => ReplyStep::Malformed,
    }
}

/// The result of a client's `set`, from the reply read (`None`: the
/// connection ended first). A server error comes back as `StringError`.
pub fn set_outcome(reply: Option<Response>) -> (r: Result<()>)
    ensures
        match reply {
            Some(Response::Put(Ok(()))) => r is Ok,
            Some(Response::Put(Err(m))) => r matches Err(e) && e.kind == ErrorKind::StringError(m),
            Some(_) => r matches Err(e) && e.kind matches ErrorKind::UnexpectedError(t) && t@ == wrong_reply_text(),
            None => r matches Err(e) && e.kind matches ErrorKind::UnexpectedError(t) && t@ == no_reply_text(),
        },
{
    match reply {
        Some(Response::Put(Ok(()))) => Ok(()),
        Some(Response::Put(Err(m))) => Err(Error::new(ErrorKind::StringError(m))),
        Some(_) => Err(wrong_reply()),
        None => Err(no_reply()),
    }
}

/// The result of a client's `get`, from the reply read (`None`: the
/// connection ended first). A server error comes back as `StringError`.
pub fn get_outcome(reply: Option<Response>) -> (r: Result<Option<String>>)
    ensures
        match reply {
            Some(Response::Get(Ok(v))) => r == Ok::<Option<String>, Error>(v),
            Some(Response::Get(Err(m))) => r matches Err(e) && e.kind == ErrorKind::StringError(m),
            Some(_) => r matches Err(e) && e.kind matches ErrorKind::UnexpectedError(t) && t@ == wrong_reply_text(),
            None => r matches Err(e) && e.kind matches ErrorKind::UnexpectedError(t) && t@ == no_reply_text(),
        },
{
    match reply {
        Some(Response::Get(Ok(v))) => Ok(v),
        Some(Response::Get(Err(m))) => Err(Error::new(ErrorKind::StringError(m))),
        Some(_) => Err(wrong_reply()),
        None => Err(no_reply()),
    }
}

/// The result of a client's `remove`, from the reply read (`None`: the
/// connection ended first). A server error comes back as `StringError`.
pub fn remove_outcome(reply: Option<Response>) -> (r: Result<()>)
    ensures
        match reply {
            Some(Response::Remove(Ok(()))) => r is Ok,
            Some(Response::Remove(Err(m))) => r matches Err(e) && e.kind == ErrorKind::StringError(m),
            Some(_) => r matches Err(e) && e.kind matches ErrorKind::UnexpectedError(t) && t@ == wrong_reply_text(),
            None => r matches Err(e) && e.kind matches ErrorKind::UnexpectedError(t) && t@ == no_reply_text(),
        },
{
    match reply {
        Some(Response::Remove(Ok(()))) => Ok(()),
        Some(Response::Remove(Err(m))) => Err(Error::new(ErrorKind::StringError(m))),
        Some(_) => Err(wrong_reply()),
        None => Err(no_reply()),
    }
}

} // verus!
