//! An embedded, transactional, versioned key-value store with a small binary
//! network protocol.
//!
//! The database is a chain of immutable change-sets, newest first.  Clients
//! run optimistic read-write transactions against a snapshot of the chain and
//! commit by appending a new node; conflicts with commits interposed since the
//! snapshot are detected from read and scan witnesses.  Committed history can
//! be serialized to an append-only log and recovered from it.

pub mod bytes;
pub mod changes;
pub mod client;
pub mod codec;
pub mod error;
pub mod laws;
pub mod persist;
pub mod query;
pub mod server;
pub mod store;
pub mod txn;
pub mod wire;
