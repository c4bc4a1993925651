//! The messages of the shards protocol: published messages, join and leave
//! notices, and the RPC that carries them between peers.
use vstd::prelude::*;

use crate::shards::shard::Shard;
use crate::shards::wire::{enc_rpc, parse_rpc, read_rpc, rpc_fits, write_rpc};

verus! {

/// The names of a list of shards, in order.
pub open spec fn shard_names(s: Seq<Shard>) -> Seq<Seq<char>> {
    s.map_values(|x: Shard| x@)
}

/// Copies a list of shards.
pub fn clone_shards(s: &Vec<Shard>) -> (r: Vec<Shard>)
    ensures
        shard_names(r@) == shard_names(s@),
{
    let mut r: Vec<Shard> = Vec::new();
    let mut i: usize = 0;
    while i < s.len()
        invariant
            i <= s@.len(),
            shard_names(r@) =~= shard_names(s@).take(i as int),
        decreases s@.len() - i,
    {
        let x = s[i].clone();
        let ghost prev = r@;
        r.push(x);
        assert(shard_names(r@) =~= shard_names(prev).push(x@));
        i = i + 1;
    }
    assert(shard_names(s@).take(s@.len() as int) =~= shard_names(s@));
    r
}

/// What a [`ShardsMessage`] holds, as plain values.
#[verifier::ext_equal]
pub struct MessageModel {
    pub source: Seq<u8>,
    pub data: Seq<u8>,
    pub sequence_number: Seq<u8>,
    pub shards: Seq<Seq<char>>,
}

/// A message published on the shards system.
#[derive(Debug, PartialEq, Eq, Hash)]
pub struct ShardsMessage {
    /// Id of the peer that published this message.
    pub source: Vec<u8>,
    /// Content of the message. Its meaning is out of scope of this library.
    pub data: Vec<u8>,
    /// A sequence number chosen by the publisher.
    pub sequence_number: Vec<u8>,
    /// The shards this message belongs to; a message can belong to several.
    pub shards: Vec<Shard>,
}

impl View for ShardsMessage {
    type V = MessageModel;

    open spec fn view(&self) -> MessageModel {
        MessageModel {
            source: self.source@,
            data: self.data@,
            sequence_number: self.sequence_number@,
            shards: shard_names(self.shards@),
        }
    }
}

impl Clone for ShardsMessage {
    fn clone(&self) -> (r: Self)
        ensures
            r@ == self@,
    {
        let source = self.source.clone();
        let data = self.data.clone();
        let sequence_number = self.sequence_number.clone();
        assert(source@ == self.source@ && data@ == self.data@ && sequence_number@ == self.sequence_number@);
        ShardsMessage { source, data, sequence_number, shards: clone_shards(&self.shards) }
    }
}

/// What a peer asks for in a join notice.
#[derive(Debug, Clone, Copy, PartialEq, Eq, Hash, Structural)]
pub enum ShardsAction {
    /// The remote joins the given shard.
    Join,
    /// The remote leaves the given shard.
    Leave,
}

/// What a [`ShardsJoin`] holds, as plain values.
#[verifier::ext_equal]
pub struct JoinModel {
    pub action: ShardsAction,
    pub shard: Seq<char>,
}

/// A join or leave notice for one shard.
#[derive(Debug, PartialEq, Eq, Hash)]
pub struct ShardsJoin {
    /// Action to perform.
    pub action: ShardsAction,
    /// The shard to join or leave.
    pub shard: Shard,
}

impl View for ShardsJoin {
    type V = JoinModel;

    open spec fn view(&self) -> JoinModel {
        JoinModel { action: self.action, shard: self.shard@ }
    }
}

impl Clone for ShardsJoin {
    fn clone(&self) -> (r: Self)
        ensures
            r@ == self@,
    {
        ShardsJoin { action: self.action, shard: self.shard.clone() }
    }
}

/// The models of a list of messages, in order.
pub open spec fn message_models(s: Seq<ShardsMessage>) -> Seq<MessageModel> {
    s.map_values(|m: ShardsMessage| m@)
}

/// The models of a list of join notices, in order.
pub open spec fn join_models(s: Seq<ShardsJoin>) -> Seq<JoinModel> {
    s.map_values(|j: ShardsJoin| j@)
}

/// What an [`Rpc`] holds, as plain values.
#[verifier::ext_equal]
pub struct RpcModel {
    pub messages: Seq<MessageModel>,
    pub shards: Seq<JoinModel>,
    pub ttl: Option<u8>,
}

/// One transmission between two peers: messages to relay, join and leave
/// notices, and the number of hops it may still travel.
#[derive(Debug, PartialEq, Eq, Hash)]
pub struct Rpc {
    /// Messages that are part of this RPC.
    pub messages: Vec<ShardsMessage>,
    /// Join and leave notices.
    pub shards: Vec<ShardsJoin>,
    /// Remaining hops; a missing value counts as the default.
    pub ttl: Option<u8>,
}

impl View for Rpc {
    type V = RpcModel;

    open spec fn view(&self) -> RpcModel {
        RpcModel {
            messages: message_models(self.messages@),
            shards: join_models(self.shards@),
            ttl: self.ttl,
        }
    }
}

/// Copies a list of messages.
pub fn clone_messages(s: &Vec<ShardsMessage>) -> (r: Vec<ShardsMessage>)
    ensures
        message_models(r@) == message_models(s@),
{
    let mut r: Vec<ShardsMessage> = Vec::new();
    let mut i: usize = 0;
    while i < s.len()
        invariant
            i <= s@.len(),
            message_models(r@) =~= message_models(s@).take(i as int),
        decreases s@.len() - i,
    {
        let x = s[i].clone();
        let ghost prev = r@;
        r.push(x);
        assert(message_models(r@) =~= message_models(prev).push(x@));
        i = i + 1;
    }
    assert(message_models(s@).take(s@.len() as int) =~= message_models(s@));
    r
}

/// Copies a list of join notices.
pub fn clone_joins(s: &Vec<ShardsJoin>) -> (r: Vec<ShardsJoin>)
    ensures
        join_models(r@) == join_models(s@),
{
    let mut r: Vec<ShardsJoin> = Vec::new();
    let mut i: usize = 0;
    while i < s.len()
        invariant
            i <= s@.len(),
            join_models(r@) =~= join_models(s@).take(i as int),
        decreases s@.len() - i,
    {
        let x = s[i].clone();
        let ghost prev = r@;
        r.push(x);
        assert(join_models(r@) =~= join_models(prev).push(x@));
        i = i + 1;
    }
    assert(join_models(s@).take(s@.len() as int) =~= join_models(s@));
    r
}

impl Clone for Rpc {
    fn clone(&self) -> (r: Self)
        ensures
            r@ == self@,
    {
        Rpc { messages: clone_messages(&self.messages), shards: clone_joins(&self.shards), ttl: self.ttl }
    }
}

/// The name under which the shards protocol is negotiated.
pub fn shards_protocol_name() -> (r: Vec<u8>)
    ensures
        r@ == seq![47u8, 109, 101, 99, 104, 97, 105, 110, 47, 115, 104, 97, 114, 100, 115, 47, 49, 46, 48],
{
    vec![47u8, 109, 101, 99, 104, 97, 105, 110, 47, 115, 104, 97, 114, 100, 115, 47, 49, 46, 48]
}

/// The connection upgrade of the shards protocol.
#[derive(Debug, Clone, Copy, Default)]
pub struct ShardsProtocol {}

impl ShardsProtocol {
    /// Builds a new `ShardsProtocol`.
    pub fn new() -> (r: ShardsProtocol)
        ensures
            r == (ShardsProtocol {}),
    {
        ShardsProtocol {}
    }

    /// The protocol names this upgrade offers: `/mechain/shards/1.0`.
    pub fn protocol_info(&self) -> (r: Vec<u8>)
        ensures
            r@ == seq![47u8, 109, 101, 99, 104, 97, 105, 110, 47, 115, 104, 97, 114, 100, 115, 47, 49, 46, 48],
    {
        shards_protocol_name()
    }
}

/// Why reading a packet from a substream failed.
#[derive(Debug)]
pub enum ReadFailure {
    /// The socket reported an error; its description.
    Io(String),
    /// The remote announced more bytes than allowed.
    TooLarge {
        /// Size requested by the remote.
        requested: usize,
        /// Maximum allowed.
        max: usize,
    },
}

/// Why an inbound shards RPC was refused.
#[derive(Debug)]
pub enum ShardsDecodeError {
    /// Error when reading the packet from the socket.
    ReadError(ReadFailure),
    /// The packet is not the encoding of an RPC.
    ProtobufError,
    /// Error when parsing a `PeerId` in the message.
    InvalidPeerId,
}

impl ShardsDecodeError {
    /// The description of the refusal.
    pub fn message(&self) -> (r: String)
        ensures
            match self {
                ShardsDecodeError::ReadError(ReadFailure::Io(e)) => r@ == "Error while reading from socket: "@ + e@,
                ShardsDecodeError::ReadError(ReadFailure::TooLarge { .. }) =>
                    r@ == "Error while reading from socket: Received data size over maximum"@,
                ShardsDecodeError::ProtobufError => r@ == "Error while decoding protobuf: invalid encoding"@,
                ShardsDecodeError::InvalidPeerId => r@ == "Error while decoding PeerId from message"@,
            },
    {
        match self {
            ShardsDecodeError::ReadError(ReadFailure::Io(e)) => {
                String::from_str("Error while reading from socket: ").concat(e.as_str())
            },
            ShardsDecodeError::ReadError(ReadFailure::TooLarge { .. }) => {
                String::from_str("Error while reading from socket: Received data size over maximum")
            },
            ShardsDecodeError::ProtobufError => String::from_str("Error while decoding protobuf: invalid encoding"),
            ShardsDecodeError::InvalidPeerId => String::from_str("Error while decoding PeerId from message"),
        }
    }
}

/// The largest packet an inbound substream may carry.
pub const MAX_PACKET_SIZE: usize = 2048;

impl Rpc {
    /// Turns this RPC into the bytes sent on a substream.
    pub fn into_bytes(self) -> (r: Vec<u8>)
        requires
            rpc_fits(self@),
        ensures
            r@ == enc_rpc(self@),
    {
        let mut out: Vec<u8> = Vec::new();
        write_rpc(&self, &mut out);
        assert(out@ =~= enc_rpc(self@));
        out
    }
}

impl ShardsProtocol {
    /// Decodes the packet read from an inbound substream into an RPC. Bytes
    /// after the RPC are ignored.
    pub fn decode_packet(&self, packet: &[u8]) -> (r: Result<Rpc, ShardsDecodeError>)
        ensures
            match parse_rpc(packet@) {
                None => r matches Err(ShardsDecodeError::ProtobufError),
                Some((m, _)) => r matches Ok(v) && v@ == m,
            },
    {
        match read_rpc(packet) {
            None => Err(ShardsDecodeError::ProtobufError),
            Some((rpc, _)) => Ok(rpc),
        }
    }
}

/// Bytes produced by [`Rpc::into_bytes`] decode back, through
/// [`ShardsProtocol::decode_packet`], to the same RPC, whatever bytes follow.
pub proof fn rpc_encoding_roundtrip(r: RpcModel, rest: Seq<u8>)
    requires
        rpc_fits(r),
    ensures
        parse_rpc(enc_rpc(r) + rest) == Some((r, enc_rpc(r).len() as int)),
{
    crate::shards::wire::lemma_rpc_roundtrip(r, rest);
}

/// An RPC whose bytes fit in one inbound packet (at most
/// [`MAX_PACKET_SIZE`] bytes) decodes back from them to the same RPC,
/// whatever bytes follow.
pub proof fn rpc_packet_roundtrip(r: RpcModel, rest: Seq<u8>)
    requires
        enc_rpc(r).len() <= MAX_PACKET_SIZE,
    ensures
        rpc_fits(r),
        parse_rpc(enc_rpc(r) + rest) == Some((r, enc_rpc(r).len() as int)),
{
    crate::shards::wire::lemma_small_rpc_fits(r, MAX_PACKET_SIZE as int);
    crate::shards::wire::lemma_rpc_roundtrip(r, rest);
}

} // verus!
