//! The shards protocol: peers join shards (topics) and relay the messages
//! published to them.

pub mod canonical;
pub mod layer;
pub mod peer_set;
pub mod protocol;
pub mod received;
pub mod shard;
pub mod shard_list;
pub mod wire;

pub use self::layer::{InnerMessage, Shards, ShardsConfig, ShardsEvent};
pub use self::protocol::{Rpc, ShardsAction, ShardsDecodeError, ShardsJoin, ShardsMessage, ShardsProtocol};
pub use self::shard::Shard;
