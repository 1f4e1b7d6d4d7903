//! A persistent key/value store built on an append-only, generation-segmented
//! log, together with the wire protocol and the request handling of its server.

mod client;
mod codec;
mod engine;
mod error;
mod kv_store;
mod layout;
mod protocol;
mod server;
pub mod thread_pool;

pub use client::{get_outcome, remove_outcome, reply_step, set_outcome, ReplyStep};
pub use codec::{Command, Decoded};
pub use engine::KvsEngine;
pub use error::{Error, ErrorKind, Result};
pub use kv_store::{KvStore, LogOp, Segment, COMPACTION_THRESHOLD};
pub use layout::{distinct_generations, engine_allowed, generation_of, generations};
pub use protocol::{Request, Response};
pub use server::{KvsServer, Served, handle_request, serve_buffer};
pub use thread_pool::ThreadPool;
