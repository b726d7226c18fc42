//! A verified core for a Mainline DHT client node.
//!
//! The crate covers the three delicate parts of such a node:
//! a bencoded wire codec for the four standard queries and their
//! responses, the IP-bound node-identity derivation with its CRC
//! bitfield layout, and the per-peer transaction queue that matches
//! replies to outstanding queries.  Socket handling, timers and file
//! access stay outside; the functions here work on plain values and
//! carry contracts for everything they return.

pub mod bencode;
pub mod bep_0042;
pub mod dht;
pub mod query_queue;
