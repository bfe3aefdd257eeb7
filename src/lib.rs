//! The core of an in-memory key-value server that speaks RESP: the wire codec, requests and
//! their checks, the keyspace with lazy expiry, the info store, the command handlers, the
//! per-connection serving loop, and both sides of replication (the replica's handshake and
//! the primary's ordered queues of writes for its replicas).
use vstd::prelude::*;

pub mod command;
pub mod database;
pub mod error;
pub mod flags;
pub mod frame;
pub mod handshake;
pub mod info;
pub mod keyspace;
pub mod parse;
pub mod replication;
pub mod response;
pub mod resptype;
pub mod server;
pub mod table;

verus! {

} // verus!
