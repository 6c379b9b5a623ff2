//! A single-decree Paxos consensus core reused as the commit primitive for a
//! replicated key-value log.
//!
//! The crate is organised leaf-first: a byte codec and a durable-store model,
//! the acceptor and proposer roles of the protocol, a cluster that runs whole
//! protocol rounds and carries the safety argument, and the replicated
//! key-value engine built on top. Network transport and on-disk persistence
//! are left to the embedding program; the library works on plain values.

use vstd::prelude::*;

pub mod acceptor;
pub mod ballot;
pub mod cluster;
pub mod codec;
pub mod faults;
pub mod keys;
pub mod kv;
pub mod proposal;
pub mod proposer;
pub mod store;
pub mod wordcount;

verus! {

/// Compile-time witness that a value's type can move between threads.
pub fn is_send<T: Send>(x: &T) {
}

} // verus!
