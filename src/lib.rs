//! Radius-bounded content storage for a node of a Kademlia-style DHT.
//!
//! `distance` holds the XOR metric over the key space; `storage` holds the
//! engine that decides what to admit, what to evict and how far its radius
//! reaches.

pub mod distance;
pub mod storage;
