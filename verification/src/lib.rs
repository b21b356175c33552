//! An in-memory key-value store speaking a length-prefixed, line-terminated
//! wire protocol (the RESP family).
//!
//! The crate is organised around three verified subsystems:
//! - `resp` and `decode`: the wire codec — a streaming frame decoder together
//!   with the response encoder, proved to round-trip in `codec_laws`;
//! - `storage`: the typed keyspace with lazy expiration;
//! - `waiters`: the FIFO coordinator that hands pushed list elements to
//!   blocked consumers;
//! - `command`: the dispatcher that turns one decoded frame into a reply.
//!
//! All clock readings and every socket is handled by the embedding program:
//! the functions here take the current time in milliseconds as an argument
//! and return the bytes to write, so each of them is a total, verified
//! function of its inputs.

use vstd::prelude::*;

pub mod codec_laws;
pub mod command;
pub mod decode;
pub mod laws;
pub mod resp;
pub mod server;
pub mod storage;
pub mod waiters;

pub use command::handle_command;
pub use decode::{ParseResult, RespParser};
pub use resp::RespValue;
pub use server::RedisServer;
pub use storage::Storage;

verus! {

} // verus!
