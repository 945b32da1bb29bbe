//! A small key-value store in three parts: a fixed-frame wire codec, a
//! string table with snapshots, and a consistent-hashing ring that routes
//! a key to the nodes responsible for it.
//!
//! Every function here is verified against its contract. The few that
//! call outside crates do so through wrappers whose contracts are stated
//! beside them and are taken on trust.

pub mod error;
pub mod msgpack;
pub mod message;
pub mod digest;
pub mod group;
pub mod ring_order;
pub mod ring_hash;
pub mod ring_laws;
pub mod table;
pub mod snapshot;
pub mod service;

pub use error::Error;
pub use group::Group;
pub use message::Message;
pub use ring_hash::RingHash;
pub use table::Table;
