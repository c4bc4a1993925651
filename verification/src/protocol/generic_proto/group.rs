//! The group protocol behaviour's own decisions: what its timers report and
//! which events of the underlying notification protocol it passes on.
use std::collections::VecDeque;

use vstd::prelude::*;
use vstd::utf8::encode_utf8;

use crate::shards::shard::copy_bytes;

verus! {

/// The Bitcoin base-58 alphabet: digit `d` is written `base58_alphabet()[d]`.
pub open spec fn base58_alphabet() -> Seq<char> {
    seq![
        '1', '2', '3', '4', '5', '6', '7', '8', '9', 'A', 'B', 'C', 'D', 'E', 'F', 'G', 'H', 'J', 'K', 'L',
        'M', 'N', 'P', 'Q', 'R', 'S', 'T', 'U', 'V', 'W', 'X', 'Y', 'Z', 'a', 'b', 'c', 'd', 'e', 'f', 'g',
        'h', 'i', 'j', 'k', 'm', 'n', 'o', 'p', 'q', 'r', 's', 't', 'u', 'v', 'w', 'x', 'y', 'z',
    ]
}

/// The number a byte string stands for, most significant byte first.
pub open spec fn big_endian_value(bytes: Seq<u8>) -> nat
    decreases bytes.len(),
{
    if bytes.len() == 0 {
        0
    } else {
        big_endian_value(bytes.drop_last()) * 256 + bytes.last() as nat
    }
}

/// The base-58 digits of `n`, most significant first; none for zero.
pub open spec fn base58_digits(n: nat) -> Seq<char>
    decreases n,
{
    if n == 0 {
        Seq::empty()
    } else {
        base58_digits(n / 58).push(base58_alphabet()[(n % 58) as int])
    }
}

/// How many zero bytes a byte string starts with.
pub open spec fn leading_zero_bytes(bytes: Seq<u8>) -> nat
    decreases bytes.len(),
{
    if bytes.len() > 0 && bytes[0] == 0 {
        1 + leading_zero_bytes(bytes.drop_first())
    } else {
        0
    }
}

/// The base-58 text of a byte string, in the Bitcoin alphabet: a `1` for each
/// leading zero byte, then the digits of the number the bytes stand for.
pub open spec fn base58_text(bytes: Seq<u8>) -> Seq<char> {
    Seq::new(leading_zero_bytes(bytes), |i: int| '1') + base58_digits(big_endian_value(bytes))
}

/// `bs58::encode(bytes).into_string()`: the base-58 text of the bytes in the
/// Bitcoin alphabet (the crate's default), which is how peer ids are written
/// out.
#[verifier::external_body]
fn base58_encode(bytes: &[u8]) -> (r: String)
    ensures
        r@ == base58_text(bytes@),
{
    bs58::encode(bytes).into_string()
}

/// What the group behaviour reports.
#[derive(Debug)]
pub enum GroupEventOut {
    /// A message for a group.
    Message { from_id: Vec<u8>, group_id: Vec<u8>, data: Vec<u8> },
    /// Data a peer sent on a notification substream.
    Sending { target: Vec<u8>, data: Vec<u8> },
    /// A peer joins a group.
    Join { group_id: u64, peer_id: Vec<u8> },
    /// The best block number.
    Number { best: u64 },
    /// Nothing to report.
    Nothing,
}

/// What a [`GroupEventOut`] holds, as plain values.
pub enum GroupEventModel {
    Message(Seq<u8>, Seq<u8>, Seq<u8>),
    Sending(Seq<u8>, Seq<u8>),
    Join(u64, Seq<u8>),
    Number(u64),
    Nothing,
}

impl View for GroupEventOut {
    type V = GroupEventModel;

    open spec fn view(&self) -> GroupEventModel {
        match self {
            GroupEventOut::Message { from_id, group_id, data } => GroupEventModel::Message(from_id@, group_id@, data@),
            GroupEventOut::Sending { target, data } => GroupEventModel::Sending(target@, data@),
            GroupEventOut::Join { group_id, peer_id } => GroupEventModel::Join(*group_id, peer_id@),
            GroupEventOut::Number { best } => GroupEventModel::Number(*best),
            GroupEventOut::Nothing => GroupEventModel::Nothing,
        }
    }
}

/// What the underlying notification protocol reports.
pub enum InnerProtoEvent {
    CustomProtocolOpen { peer_id: Vec<u8> },
    CustomProtocolReplaced { peer_id: Vec<u8> },
    CustomProtocolClosed { peer_id: Vec<u8> },
    LegacyMessage { peer_id: Vec<u8>, message: Vec<u8> },
    Notification { peer_id: Vec<u8>, protocol_name: String, message: Vec<u8> },
}

/// The payload of the periodic group message: `hello world`.
pub open spec fn greeting() -> Seq<u8> {
    seq![104u8, 101, 108, 108, 111, 32, 119, 111, 114, 108, 100]
}

/// What a [`GroupProto`] holds, as plain values.
pub struct GroupProtoModel {
    pub local_peer_id: Seq<u8>,
    /// Events not yet reported, oldest first.
    pub events: Seq<GroupEventModel>,
    pub best_number: Option<u64>,
}

/// The group behaviour's state.
pub struct GroupProto {
    local_peer_id: Vec<u8>,
    events: VecDeque<GroupEventOut>,
    best_number: Option<u64>,
}

impl View for GroupProto {
    type V = GroupProtoModel;

    closed spec fn view(&self) -> GroupProtoModel {
        GroupProtoModel {
            local_peer_id: self.local_peer_id@,
            events: self.events@.map_values(|e: GroupEventOut| e@),
            best_number: self.best_number,
        }
    }
}

impl GroupProto {
    /// The behaviour of the local peer, with no pending event and best
    /// number 0.
    pub fn new(local_peer_id: Vec<u8>) -> (r: GroupProto)
        ensures
            r@ == (GroupProtoModel { local_peer_id: local_peer_id@, events: Seq::empty(), best_number: Some(0) }),
    {
        let r = GroupProto { local_peer_id, events: VecDeque::new(), best_number: Some(0) };
        assert(r@.events =~= Seq::<GroupEventModel>::empty());
        r
    }

    /// The local peer id.
    pub fn local_peer_id(&self) -> (r: &Vec<u8>)
        ensures
            r@ == self@.local_peer_id,
    {
        &self.local_peer_id
    }

    /// The best number the join timer counts from.
    pub fn best_number(&self) -> (r: Option<u64>)
        ensures
            r == self@.best_number,
    {
        self.best_number
    }

    /// Takes the oldest pending event, if any.
    pub fn next_queued(&mut self) -> (r: Option<GroupEventOut>)
        ensures
            match r {
                Some(e) => old(self)@.events.len() > 0 && e@ == old(self)@.events[0]
                    && final(self)@ == (GroupProtoModel { events: old(self)@.events.drop_first(), ..old(self)@ }),
                None => old(self)@.events.len() == 0 && final(self)@ == old(self)@,
            },
    {
        let ghost e0 = self.events@;
        let r = self.events.pop_front();
        if r.is_some() {
            assert(self@.events =~= old(self)@.events.drop_first());
        } else {
            assert(self@.events =~= old(self)@.events);
        }
        r
    }

    /// The greeting sent to the group with the given name: from the local
    /// peer, with the name's UTF-8 bytes as the group id.
    pub fn greeting_to(&self, group_name: String) -> (r: GroupEventOut)
        ensures
            r@ == GroupEventModel::Message(self@.local_peer_id, encode_utf8(group_name@), greeting()),
    {
        let group_id = copy_bytes(group_name.as_str().as_bytes());
        let data = vec![104u8, 101, 108, 108, 111, 32, 119, 111, 114, 108, 100];
        assert(data@ =~= greeting());
        GroupEventOut::Message { from_id: self.local_peer_id.clone(), group_id, data }
    }

    /// The event of the periodic timer: a greeting to the group named after
    /// the local peer, by its base-58 text.
    pub fn on_timer(&self) -> (r: GroupEventOut)
        ensures
            r@ == GroupEventModel::Message(self@.local_peer_id, encode_utf8(base58_text(self@.local_peer_id)), greeting()),
    {
        let name = base58_encode(self.local_peer_id.as_slice());
        self.greeting_to(name)
    }

    /// The event of the join timer: the best number goes up by one, and the
    /// local peer joins the group numbered by it modulo 3.
    pub fn on_join_timer(&mut self) -> (r: GroupEventOut)
        requires
            old(self)@.best_number matches Some(b) ==> b < u64::MAX,
        ensures
            final(self)@ == (GroupProtoModel {
                best_number: match old(self)@.best_number {
                    Some(b) => Some((b + 1) as u64),
                    None => None,
                },
                ..old(self)@
            }),
            r@ == GroupEventModel::Join(
                match final(self)@.best_number {
                    Some(b) => (b % 3) as u64,
                    None => 0,
                },
                old(self)@.local_peer_id,
            ),
    {
        if let Some(b) = self.best_number {
            self.best_number = Some(b + 1);
        }
        let n: u64 = match self.best_number {
            Some(b) => b,
            None => 0,
        };
        GroupEventOut::Join { group_id: n % 3, peer_id: self.local_peer_id.clone() }
    }

    /// What an event of the underlying protocol is reported as: data received
    /// on a notification substream is passed on; the rest is not.
    pub fn map_inner_event(&self, event: InnerProtoEvent) -> (r: Option<GroupEventOut>)
        ensures
            match event {
                InnerProtoEvent::Notification { peer_id, message, .. } => r matches Some(e) && e@ == GroupEventModel::Sending(peer_id@, message@),
                _ => r is None,
            },
    {
        match event {
            InnerProtoEvent::Notification { peer_id, message, .. } => Some(GroupEventOut::Sending { target: peer_id, data: message }),
            _ => None,
        }
    }
}

} // verus!
