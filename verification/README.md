# sc-network (shards and group gossip)

The decision logic of a node's shard and group protocols, verified with Verus:

- `src/shards/`: the shards protocol. `wire.rs` and `canonical.rs` hold the
  byte format of RPCs (SCALE), its readers and writers, and the proofs that
  reading a written RPC gives it back and that only canonical bytes are
  accepted; `protocol.rs` the RPC types and the packet decoder; `layer.rs` the
  behaviour itself (target and connected peers, joined shards, publishing,
  relaying received RPCs); `received.rs` the cuckoo filter of seen messages,
  `peer_set.rs` the FNV-hashed set of target peers and `shard_list.rs` the
  inline shard lists.
- `src/group.rs`, `src/engine.rs`, `src/sinks.rs`: group gossip bookkeeping,
  the gossip engine's reactions to network events, and its subscribers
  (`lru_cache.rs` and `hex.rs` wrap the LRU cache of known hashes and the hex
  encoding of group ids).
- `src/protocol/`: the group behaviour's timer events
  (`generic_proto/group.rs`) and the group-membership transport (`transpp/`).

`app/` holds what runs around the library: libp2p upgrades and behaviours,
timers, channels, and `Display` for the error types.
