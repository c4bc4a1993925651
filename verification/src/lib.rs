//! Shard membership, message relaying and group gossip bookkeeping for a
//! peer-to-peer network node.

pub mod assoc;
pub mod engine;
pub mod group;
pub mod hex;
pub mod lru_cache;
pub mod protocol;
pub mod shards;
pub mod sinks;
