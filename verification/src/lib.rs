//! An in-process state-replication primitive: one authoritative key/value
//! mapping, many subscribers, each receiving a snapshot on subscription and
//! an ordered stream of subsequent changes through its own bounded queue.
//!
//! Keys and values are plain 64-bit words; a caller with richer domain
//! data maps it to and from them at the boundary.

pub mod pubsub;
