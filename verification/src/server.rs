//! The server shell: the pieces of per-connection state that the embedding
//! program drives.
//!
//! The embedding program owns the listening socket and the threads; it
//! keeps one `RedisServer` behind its exclusion domain, feeds decoded
//! frames to the dispatcher, writes the returned bytes, and performs the
//! returned deliveries.

use vstd::prelude::*;

use crate::storage::{Storage, ValueModel};
use crate::waiters::{WaiterModel, WaiterQueue};

verus! {

/// The shared state of one server: its address, its keyspace, and its
/// queue of parked consumers.
pub struct RedisServer {
    pub addr: String,
    pub storage: Storage,
    pub waiters: WaiterQueue,
}

impl RedisServer {
    /// A server for the given address with an empty keyspace and no parked
    /// consumers.
    pub fn new(addr: String) -> (r: RedisServer)
        ensures
            r.addr@ == addr@,
            r.storage.wf(),
            r.storage@ == Map::<Seq<u8>, ValueModel>::empty(),
            r.waiters.wf(),
            r.waiters@ == Seq::<WaiterModel>::empty(),
    {
        RedisServer { addr, storage: Storage::new(), waiters: WaiterQueue::new() }
    }
}

} // verus!
