//! Group gossip bookkeeping: the messages registered for each group, the
//! peers taking part and which messages each of them is known to have, and
//! what to tell the network when any of that changes.
use std::time::{Duration, Instant};

use lru::LruCache;
use vstd::prelude::*;

use crate::assoc::{
    assoc_remove, assoc_set, distinct, has_key, keys, lemma_assoc_remove_absent, lemma_assoc_remove_at,
    lemma_distinct_push, lemma_distinct_remove,
};
use crate::hex::{hex_encode, hex_lower};
use crate::shards::layer::{byte_strings, insert_value};
use crate::lru_cache::{keys_after_put, lru_capacity, lru_contains, lru_keys, lru_new, lru_put};
use crate::shards::shard::bytes_equal;

pub use crate::engine::GroupEngine;

verus! {

/// How many message hashes are remembered as known.
pub const KNOWN_MESSAGES_CACHE_SIZE: usize = 4096;

/// Nanoseconds between two periodic rebroadcasts (30 s).
pub const REBROADCAST_INTERVAL_NS: u64 = 30_000_000_000;

/// Nanoseconds after which a registered message is dropped (120 s).
pub const MESSAGE_LIFETIME_NS: u64 = 120_000_000_000;

#[verifier::external_type_specification]
#[verifier::external_body]
pub struct ExInstant(Instant);

/// `Instant::now`: the current instant of the monotonic clock.
#[verifier::external_body]
fn instant_now() -> Instant {
    Instant::now()
}

/// `Instant::elapsed`: the time gone by since `since`. Nothing is stated of
/// it, as it depends on the clock.
#[verifier::external_body]
fn elapsed_since(since: &Instant) -> Duration {
    since.elapsed()
}

/// `Duration::as_nanos`: the nanoseconds of a duration. Nothing is
/// stated of the value, as durations are opaque here.
#[verifier::external_body]
fn duration_nanos(d: &Duration) -> u128 {
    d.as_nanos()
}

/// The role a remote plays, as observed on its connection.
#[derive(Debug, Clone, Copy, PartialEq, Eq, Structural)]
pub enum ObservedRole {
    Full,
    Light,
    Authority,
}

impl ObservedRole {
    /// Whether the remote is a light node.
    pub fn is_light(&self) -> (r: bool)
        ensures
            r == (*self == ObservedRole::Light),
    {
        match self {
            ObservedRole::Light => true,
            _ => false,
        }
    }
}

/// The reason for sending out a message.
#[derive(Debug, Clone, Copy, PartialEq, Eq, Structural)]
pub enum MessageIntent {
    /// Requested broadcast.
    Broadcast,
    /// Requested broadcast to all peers.
    ForcedBroadcast,
    /// Periodic rebroadcast of all messages to all peers.
    PeriodicRebroadcast,
}

/// What the gossip state machine asks of the network.
#[derive(Debug)]
pub enum NetworkAction {
    /// Send a notification on `protocol` to a peer.
    WriteNotification { who: Vec<u8>, protocol: String, message: Vec<u8> },
    /// Publish data to the members of a group.
    PublishMessage { group_id: String, data: Vec<u8> },
    /// Join a group.
    JoinGroup { group_id: String },
}

/// What a [`NetworkAction`] holds, as plain values.
pub enum NetworkActionModel {
    Write(Seq<u8>, Seq<char>, Seq<u8>),
    Publish(Seq<char>, Seq<u8>),
    Join(Seq<char>),
}

impl View for NetworkAction {
    type V = NetworkActionModel;

    open spec fn view(&self) -> NetworkActionModel {
        match self {
            NetworkAction::WriteNotification { who, protocol, message } => NetworkActionModel::Write(who@, protocol@, message@),
            NetworkAction::PublishMessage { group_id, data } => NetworkActionModel::Publish(group_id@, data@),
            NetworkAction::JoinGroup { group_id } => NetworkActionModel::Join(group_id@),
        }
    }
}

/// The models of a list of network actions, in order.
pub open spec fn network_models(s: Seq<NetworkAction>) -> Seq<NetworkActionModel> {
    s.map_values(|a: NetworkAction| a@)
}

/// A message of a group, with its sender when known.
#[derive(Debug, PartialEq, Eq)]
pub struct GroupNotification {
    /// Message data.
    pub message: Vec<u8>,
    /// Sender if available.
    pub sender: Option<Vec<u8>>,
}

/// What a [`GroupNotification`] holds, as plain values.
pub struct NotificationModel {
    pub message: Seq<u8>,
    pub sender: Option<Seq<u8>>,
}

impl View for GroupNotification {
    type V = NotificationModel;

    open spec fn view(&self) -> NotificationModel {
        NotificationModel {
            message: self.message@,
            sender: match self.sender {
                Some(s) => Some(s@),
                None => None,
            },
        }
    }
}

/// A message received from the network, with the hash it is known by.
pub struct HashedMessage {
    pub hash: Vec<u8>,
    pub message: Vec<u8>,
}

/// What a registered message holds, as plain values.
pub struct EntryModel {
    pub hash: Seq<u8>,
    pub group: Seq<u8>,
    pub message: Seq<u8>,
    pub sender: Option<Seq<u8>>,
    /// When it was registered, in nanoseconds since the state machine was made.
    pub create_time: u64,
}

struct MessageEntry {
    message_hash: Vec<u8>,
    group: Vec<u8>,
    message: Vec<u8>,
    sender: Option<Vec<u8>>,
    create_time: u64,
}

impl View for MessageEntry {
    type V = EntryModel;

    closed spec fn view(&self) -> EntryModel {
        EntryModel {
            hash: self.message_hash@,
            group: self.group@,
            message: self.message@,
            sender: match self.sender {
                Some(s) => Some(s@),
                None => None,
            },
            create_time: self.create_time,
        }
    }
}

struct PeerConsensus {
    peer_id: Vec<u8>,
    known_messages: Vec<Vec<u8>>,
}

impl View for PeerConsensus {
    type V = (Seq<u8>, Seq<Seq<u8>>);

    closed spec fn view(&self) -> (Seq<u8>, Seq<Seq<u8>>) {
        (self.peer_id@, byte_strings(self.known_messages@))
    }
}

spec fn entry_models(s: Seq<MessageEntry>) -> Seq<EntryModel> {
    s.map_values(|e: MessageEntry| e@)
}

spec fn consensus_models(s: Seq<PeerConsensus>) -> Seq<(Seq<u8>, Seq<Seq<u8>>)> {
    s.map_values(|p: PeerConsensus| p@)
}

/// What a [`ConsensusGroup`] holds, as plain values.
pub struct GroupModel {
    /// The peers taking part, with the hashes each is known to have.
    pub peers: Seq<(Seq<u8>, Seq<Seq<u8>>)>,
    /// Registered messages, oldest first.
    pub messages: Seq<EntryModel>,
    /// Recently seen hashes, most recent first.
    pub known: Seq<Seq<u8>>,
    pub capacity: nat,
    pub protocol: Seq<char>,
    /// When the next periodic rebroadcast is due.
    pub next_broadcast: u64,
    /// The latest reading of the clock, in nanoseconds since the group was made.
    pub clock: u64,
}

/// The state with its clock read as `now`.
pub open spec fn at_clock(s: GroupModel, now: u64) -> GroupModel {
    GroupModel { clock: now, ..s }
}

/// The peer table holds no peer twice and no peer's set a hash twice; the
/// cache of known hashes holds no hash twice and at most its capacity.
pub open spec fn group_wf(m: GroupModel) -> bool {
    &&& distinct(keys(m.peers))
    &&& forall|i: int| 0 <= i < m.peers.len() ==> distinct(#[trigger] m.peers[i].1)
    &&& distinct(m.known)
    &&& m.known.len() <= m.capacity
    &&& m.capacity > 0
}

/// Consensus network protocol handler: manages the messages of the groups
/// and which peers know them.
pub struct ConsensusGroup {
    peers: Vec<PeerConsensus>,
    messages: Vec<MessageEntry>,
    known_messages: LruCache<Vec<u8>, ()>,
    protocol: String,
    started: Instant,
    next_broadcast: u64,
    clock: u64,
}

impl View for ConsensusGroup {
    type V = GroupModel;

    closed spec fn view(&self) -> GroupModel {
        GroupModel {
            peers: consensus_models(self.peers@),
            messages: entry_models(self.messages@),
            known: lru_keys(self.known_messages),
            capacity: lru_capacity(self.known_messages),
            protocol: self.protocol@,
            next_broadcast: self.next_broadcast,
            clock: self.clock,
        }
    }
}

/// The state after a message is registered at `now`: its hash moves to the
/// front of the known cache, and the message is kept unless the cache knew
/// the hash already.
pub open spec fn register_effect(s: GroupModel, e: EntryModel) -> GroupModel {
    GroupModel {
        known: keys_after_put(s.known, s.capacity, e.hash),
        messages: if s.known.contains(e.hash) { s.messages } else { s.messages.push(e) },
        ..s
    }
}

/// Finds the entry of a peer.
fn find_peer(s: &Vec<PeerConsensus>, x: &Vec<u8>) -> (r: Option<usize>)
    ensures
        match r {
            Some(i) => i < s@.len() && consensus_models(s@)[i as int].0 == x@,
            None => !has_key(consensus_models(s@), x@),
        },
{
    let mut i: usize = 0;
    while i < s.len()
        invariant
            i <= s@.len(),
            forall|j: int| 0 <= j < i ==> consensus_models(s@)[j].0 != x@,
        decreases s@.len() - i,
    {
        if bytes_equal(&s[i].peer_id, x) {
            return Some(i);
        }
        i = i + 1;
    }
    None
}

/// Whether a list of hashes holds `h`.
fn holds_hash(s: &Vec<Vec<u8>>, h: &Vec<u8>) -> (r: bool)
    ensures
        r == byte_strings(s@).contains(h@),
{
    let mut i: usize = 0;
    while i < s.len()
        invariant
            i <= s@.len(),
            forall|j: int| 0 <= j < i ==> byte_strings(s@)[j] != h@,
        decreases s@.len() - i,
    {
        if bytes_equal(&s[i], h) {
            assert(byte_strings(s@)[i as int] == h@);
            return true;
        }
        i = i + 1;
    }
    false
}

/// Adds `h` to a set of hashes.
fn insert_hash(s: &mut Vec<Vec<u8>>, h: &Vec<u8>)
    requires
        distinct(byte_strings(old(s)@)),
    ensures
        distinct(byte_strings(final(s)@)),
        byte_strings(final(s)@) == insert_value(byte_strings(old(s)@), h@),
{
    let ghost s0 = byte_strings(s@);
    if !holds_hash(s, h) {
        s.push(h.clone());
        proof {
            assert(byte_strings(s@) =~= s0.push(h@));
            lemma_distinct_push(s0, h@);
        }
    }
}

fn clone_sender(s: &Option<Vec<u8>>) -> (r: Option<Vec<u8>>)
    ensures
        match r {
            Some(x) => s matches Some(y) && x@ == y@,
            None => s is None,
        },
{
    match s {
        Some(v) => Some(v.clone()),
        None => None,
    }
}

/// Holds of the entries of group `g`.
pub open spec fn in_group(g: Seq<u8>) -> spec_fn(EntryModel) -> bool {
    |e: EntryModel| e.group == g
}

/// The registered messages of group `g`, oldest first.
pub open spec fn group_entries(msgs: Seq<EntryModel>, g: Seq<u8>) -> Seq<EntryModel> {
    msgs.filter(in_group(g))
}

/// The hashes of the entries, in order.
pub open spec fn entry_hashes(msgs: Seq<EntryModel>) -> Seq<Seq<u8>> {
    msgs.map_values(|e: EntryModel| e.hash)
}

/// The set of hashes with each of `hs` added, in order.
pub open spec fn insert_all(known: Seq<Seq<u8>>, hs: Seq<Seq<u8>>) -> Seq<Seq<u8>>
    decreases hs.len(),
{
    if hs.len() == 0 {
        known
    } else {
        insert_value(insert_all(known, hs.drop_last()), hs.last())
    }
}

/// The peer table with `f` applied to the hashes known for `who`.
pub open spec fn update_known(
    peers: Seq<(Seq<u8>, Seq<Seq<u8>>)>,
    who: Seq<u8>,
    f: spec_fn(Seq<Seq<u8>>) -> Seq<Seq<u8>>,
) -> Seq<(Seq<u8>, Seq<Seq<u8>>)> {
    peers.map_values(|e: (Seq<u8>, Seq<Seq<u8>>)| if e.0 == who { (e.0, f(e.1)) } else { e })
}

/// The notification of a registered message.
pub open spec fn notification_of(e: EntryModel) -> NotificationModel {
    NotificationModel { message: e.message, sender: e.sender }
}

proof fn lemma_distinct_insert_value(s: Seq<Seq<u8>>, x: Seq<u8>)
    requires
        distinct(s),
    ensures
        distinct(insert_value(s, x)),
{
    if !s.contains(x) {
        lemma_distinct_push(s, x);
    }
}

/// Adds the hashes to the set of a peer, in order.
fn insert_hashes(s: &mut Vec<Vec<u8>>, hs: &Vec<Vec<u8>>)
    requires
        distinct(byte_strings(old(s)@)),
    ensures
        distinct(byte_strings(final(s)@)),
        byte_strings(final(s)@) == insert_all(byte_strings(old(s)@), byte_strings(hs@)),
{
    let ghost s0 = byte_strings(s@);
    let ghost h = byte_strings(hs@);
    let mut i: usize = 0;
    while i < hs.len()
        invariant
            i <= hs@.len(),
            h == byte_strings(hs@),
            distinct(byte_strings(s@)),
            byte_strings(s@) == insert_all(s0, h.take(i as int)),
        decreases hs@.len() - i,
    {
        assert(h.take(i + 1).drop_last() =~= h.take(i as int));
        assert(h.take(i + 1).last() == h[i as int]);
        insert_hash(s, &hs[i]);
        i = i + 1;
    }
    assert(h.take(hs@.len() as int) =~= h);
}

/// How old an entry made at `t` is at `now`, in nanoseconds (none if `t`
/// is later).
pub open spec fn age(now: u64, t: u64) -> int {
    if now >= t { now - t } else { 0 }
}

/// Holds of the entries younger than the message lifetime at `now`.
pub open spec fn still_fresh(now: u64) -> spec_fn(EntryModel) -> bool {
    |e: EntryModel| age(now, e.create_time) < MESSAGE_LIFETIME_NS
}

/// Holds of the hashes in the cache of known hashes.
pub open spec fn in_cache(known: Seq<Seq<u8>>) -> spec_fn(Seq<u8>) -> bool {
    |h: Seq<u8>| known.contains(h)
}

/// The state after garbage collection at `now`: messages past their lifetime
/// are dropped, and each peer forgets the hashes no longer in the cache.
pub open spec fn collect_effect(s: GroupModel, now: u64) -> GroupModel {
    GroupModel {
        messages: s.messages.filter(still_fresh(now)),
        peers: s.peers.map_values(|e: (Seq<u8>, Seq<Seq<u8>>)| (e.0, e.1.filter(in_cache(s.known)))),
        ..s
    }
}

/// `t + REBROADCAST_INTERVAL_NS`, saturating at the largest instant.
pub open spec fn after_interval(t: u64) -> u64 {
    if t as int + REBROADCAST_INTERVAL_NS as int > u64::MAX as int { u64::MAX } else { (t + REBROADCAST_INTERVAL_NS) as u64 }
}

/// Periodic maintenance at `now`: garbage collection, then, when the next
/// rebroadcast is due, a rebroadcast of every message to every peer and the
/// next one scheduled an interval later. Gives the new state and the
/// notifications written.
pub open spec fn tick_effect(s: GroupModel, now: u64) -> (GroupModel, Seq<NetworkActionModel>) {
    let c = collect_effect(s, now);
    if now >= s.next_broadcast {
        (
            GroupModel {
                peers: propagate_peers(c.peers, c.messages, MessageIntent::PeriodicRebroadcast),
                next_broadcast: after_interval(now),
                ..c
            },
            propagate_actions(c.peers, c.messages, MessageIntent::PeriodicRebroadcast, c.protocol),
        )
    } else {
        (c, Seq::empty())
    }
}

/// What propagating the messages to one peer does: the hashes it then knows,
/// and the messages sent to it, in order. A plain broadcast skips the
/// messages the peer already knows; the other intents send them all.
pub open spec fn propagate_to_peer(
    known: Seq<Seq<u8>>,
    msgs: Seq<EntryModel>,
    intent: MessageIntent,
) -> (Seq<Seq<u8>>, Seq<Seq<u8>>)
    decreases msgs.len(),
{
    if msgs.len() == 0 {
        (known, Seq::empty())
    } else {
        let (k, sent) = propagate_to_peer(known, msgs.drop_last(), intent);
        let m = msgs.last();
        if intent == MessageIntent::Broadcast && k.contains(m.hash) {
            (k, sent)
        } else {
            (insert_value(k, m.hash), sent.push(m.message))
        }
    }
}

/// The notifications propagation writes, peer after peer.
pub open spec fn propagate_actions(
    peers: Seq<(Seq<u8>, Seq<Seq<u8>>)>,
    msgs: Seq<EntryModel>,
    intent: MessageIntent,
    protocol: Seq<char>,
) -> Seq<NetworkActionModel>
    decreases peers.len(),
{
    if peers.len() == 0 {
        Seq::empty()
    } else {
        let p = peers.last();
        propagate_actions(peers.drop_last(), msgs, intent, protocol)
            + propagate_to_peer(p.1, msgs, intent).1.map_values(|m: Seq<u8>| NetworkActionModel::Write(p.0, protocol, m))
    }
}

/// The peer table after propagation.
pub open spec fn propagate_peers(
    peers: Seq<(Seq<u8>, Seq<Seq<u8>>)>,
    msgs: Seq<EntryModel>,
    intent: MessageIntent,
) -> Seq<(Seq<u8>, Seq<Seq<u8>>)> {
    peers.map_values(|e: (Seq<u8>, Seq<Seq<u8>>)| (e.0, propagate_to_peer(e.1, msgs, intent).0))
}

/// The hash and data of each received message, in order.
pub open spec fn hashed_models(s: Seq<HashedMessage>) -> Seq<(Seq<u8>, Seq<u8>)> {
    s.map_values(|m: HashedMessage| (m.hash@, m.message@))
}

/// What is forwarded to the upper layers, as plain values.
pub open spec fn forwarded_models(s: Seq<(Vec<u8>, GroupNotification)>) -> Seq<(Seq<u8>, NotificationModel)> {
    s.map_values(|p: (Vec<u8>, GroupNotification)| (p.0@, p.1@))
}

/// How a message is sent to one peer: forced, or skipped when the peer
/// knows it already.
pub open spec fn send_intent(force: bool) -> MessageIntent {
    if force { MessageIntent::ForcedBroadcast } else { MessageIntent::Broadcast }
}

/// The notifications written to `who`, one per message sent.
pub open spec fn writes_to(who: Seq<u8>, protocol: Seq<char>, sent: Seq<Seq<u8>>) -> Seq<NetworkActionModel> {
    sent.map_values(|m: Seq<u8>| NetworkActionModel::Write(who, protocol, m))
}

/// Handling messages received from a peer taking part, in order: a message
/// whose hash is in the cache of known hashes is ignored; any other is new:
/// the peer then counts as knowing it, its hash becomes the most recently
/// seen, and it is forwarded, keyed by its hash, with the peer as sender.
/// Gives the new state and what is forwarded.
pub open spec fn incoming_effect(
    s: GroupModel,
    who: Seq<u8>,
    msgs: Seq<(Seq<u8>, Seq<u8>)>,
) -> (GroupModel, Seq<(Seq<u8>, NotificationModel)>)
    decreases msgs.len(),
{
    if msgs.len() == 0 {
        (s, Seq::empty())
    } else {
        let (t, out) = incoming_effect(s, who, msgs.drop_last());
        let h = msgs.last().0;
        if t.known.contains(h) {
            (t, out)
        } else {
            (
                GroupModel {
                    peers: update_known(t.peers, who, |k: Seq<Seq<u8>>| insert_value(k, h)),
                    known: keys_after_put(t.known, t.capacity, h),
                    ..t
                },
                out.push((h, NotificationModel { message: msgs.last().1, sender: Some(who) })),
            )
        }
    }
}

/// Handling incoming messages changes neither the protocol nor the
/// registered messages.
pub proof fn lemma_incoming_keeps_protocol(s: GroupModel, who: Seq<u8>, msgs: Seq<(Seq<u8>, Seq<u8>)>)
    ensures
        incoming_effect(s, who, msgs).0.protocol == s.protocol,
        incoming_effect(s, who, msgs).0.messages == s.messages,
    decreases msgs.len(),
{
    if msgs.len() > 0 {
        lemma_incoming_keeps_protocol(s, who, msgs.drop_last());
    }
}

proof fn lemma_propagate_to_peer_distinct(known: Seq<Seq<u8>>, msgs: Seq<EntryModel>, intent: MessageIntent)
    requires
        distinct(known),
    ensures
        distinct(propagate_to_peer(known, msgs, intent).0),
    decreases msgs.len(),
{
    if msgs.len() > 0 {
        lemma_propagate_to_peer_distinct(known, msgs.drop_last(), intent);
        let (k, sent) = propagate_to_peer(known, msgs.drop_last(), intent);
        lemma_distinct_insert_value(k, msgs.last().hash);
    }
}

proof fn lemma_filter_distinct<A>(s: Seq<A>, pred: spec_fn(A) -> bool)
    requires
        distinct(s),
    ensures
        distinct(s.filter(pred)),
    decreases s.len(),
{
    reveal(Seq::filter);
    if s.len() > 0 {
        let d = s.drop_last();
        assert forall|i: int, j: int| 0 <= i < d.len() && 0 <= j < d.len() && i != j implies d[i] != d[j] by {
            assert(d[i] == s[i] && d[j] == s[j]);
        }
        lemma_filter_distinct(d, pred);
        if pred(s.last()) {
            let f = d.filter(pred);
            assert(!f.contains(s.last())) by {
                if f.contains(s.last()) {
                    d.lemma_filter_contains_rev(pred, s.last());
                    let w = choose|w: int| 0 <= w < d.len() && d[w] == s.last();
                    assert(s[w] == s[s.len() - 1]);
                }
            }
            lemma_distinct_push(f, s.last());
        }
    }
}


fn clone_entry(e: &MessageEntry) -> (r: MessageEntry)
    ensures
        r@ == e@,
{
    MessageEntry {
        message_hash: e.message_hash.clone(),
        group: e.group.clone(),
        message: e.message.clone(),
        sender: clone_sender(&e.sender),
        create_time: e.create_time,
    }
}

/// Propagates the messages to one peer, appending the notifications to `out`.
fn propagate_to(
    known: &mut Vec<Vec<u8>>,
    who: &Vec<u8>,
    msgs: &Vec<MessageEntry>,
    intent: MessageIntent,
    protocol: &String,
    out: &mut Vec<NetworkAction>,
)
    requires
        distinct(byte_strings(old(known)@)),
    ensures
        distinct(byte_strings(final(known)@)),
        byte_strings(final(known)@) == propagate_to_peer(byte_strings(old(known)@), entry_models(msgs@), intent).0,
        network_models(final(out)@) == network_models(old(out)@)
            + propagate_to_peer(byte_strings(old(known)@), entry_models(msgs@), intent).1.map_values(
                |m: Seq<u8>| NetworkActionModel::Write(who@, protocol@, m),
            ),
{
    let ghost k0 = byte_strings(known@);
    let ghost o0 = network_models(out@);
    let ghost ms = entry_models(msgs@);
    let ghost f = |m: Seq<u8>| NetworkActionModel::Write(who@, protocol@, m);
    let mut i: usize = 0;
    while i < msgs.len()
        invariant
            i <= msgs@.len(),
            ms == entry_models(msgs@),
            f == (|m: Seq<u8>| NetworkActionModel::Write(who@, protocol@, m)),
            distinct(byte_strings(known@)),
            byte_strings(known@) == propagate_to_peer(k0, ms.take(i as int), intent).0,
            network_models(out@) == o0 + propagate_to_peer(k0, ms.take(i as int), intent).1.map_values(f),
        decreases msgs@.len() - i,
    {
        assert(ms.take(i + 1).drop_last() =~= ms.take(i as int));
        assert(ms.take(i + 1).last() == ms[i as int]);
        let ghost sent = propagate_to_peer(k0, ms.take(i as int), intent).1;
        let skip = match intent {
            MessageIntent::Broadcast => holds_hash(known, &msgs[i].message_hash),
            _ => false,
        };
        if !skip {
            insert_hash(known, &msgs[i].message_hash);
            let a = NetworkAction::WriteNotification { who: who.clone(), protocol: protocol.clone(), message: msgs[i].message.clone() };
            let ghost prev = network_models(out@);
            out.push(a);
            proof {
                assert(network_models(out@) =~= prev.push(a@));
                assert(a@ == f(ms[i as int].message));
                assert(sent.push(ms[i as int].message).map_values(f) =~= sent.map_values(f).push(a@));
            }
        }
        i = i + 1;
    }
    assert(ms.take(msgs@.len() as int) =~= ms);
}

impl ConsensusGroup {
    pub open spec fn wf(&self) -> bool {
        group_wf(self@)
    }

    /// Creates a new state machine for the given protocol.
    pub fn new(protocol: String) -> (r: ConsensusGroup)
        ensures
            r.wf(),
            r@ == (GroupModel {
                peers: Seq::empty(),
                messages: Seq::empty(),
                known: Seq::empty(),
                capacity: KNOWN_MESSAGES_CACHE_SIZE as nat,
                protocol: protocol@,
                next_broadcast: REBROADCAST_INTERVAL_NS,
                clock: 0,
            }),
    {
        let r = ConsensusGroup {
            peers: Vec::new(),
            messages: Vec::new(),
            known_messages: lru_new(KNOWN_MESSAGES_CACHE_SIZE),
            protocol,
            started: instant_now(),
            next_broadcast: REBROADCAST_INTERVAL_NS,
            clock: 0,
        };
        assert(r@.peers =~= Seq::empty());
        assert(r@.messages =~= Seq::empty());
        r
    }

    /// Reads the clock: nanoseconds since this state machine was made
    /// (saturating after some five centuries). The monotonic clock never goes
    /// back; a reading below the last one would count as the last one.
    fn now(&mut self) -> (r: u64)
        ensures
            r >= old(self)@.clock,
            final(self)@ == at_clock(old(self)@, r),
    {
        let ns = duration_nanos(&elapsed_since(&self.started));
        let reading: u64 = if ns > 0xffff_ffff_ffff_ffffu128 {
            0xffff_ffff_ffff_ffffu64
        } else {
            ns as u64
        };
        let r = if reading > self.clock { reading } else { self.clock };
        self.clock = r;
        r
    }

    /// Handles a newly connected peer: light nodes are ignored, others start
    /// with no known messages.
    pub fn new_peer(&mut self, who: &Vec<u8>, role: ObservedRole)
        requires
            old(self).wf(),
        ensures
            final(self).wf(),
            role == ObservedRole::Light ==> final(self)@ == old(self)@,
            role != ObservedRole::Light ==> final(self)@ == (GroupModel {
                peers: assoc_set(old(self)@.peers, who@, Seq::empty()),
                ..old(self)@
            }),
    {
        if role.is_light() {
            return;
        }
        let ghost k = who@;
        let ghost old_peers = self@.peers;
        let entry = PeerConsensus { peer_id: who.clone(), known_messages: Vec::new() };
        assert(entry@ =~= (k, Seq::<Seq<u8>>::empty()));
        match find_peer(&self.peers, who) {
            Some(i) => {
                self.peers.set(i, entry);
                proof {
                    assert forall|j: int| 0 <= j < old_peers.len() && j != i implies old_peers[j].0 != k by {
                        assert(keys(old_peers)[j] == old_peers[j].0);
                        assert(keys(old_peers)[i as int] == old_peers[i as int].0);
                    }
                    assert(self@.peers =~= assoc_set(old_peers, k, Seq::empty()));
                    assert(keys(self@.peers) =~= keys(old_peers));
                    assert forall|j: int| 0 <= j < self@.peers.len() implies distinct(#[trigger] self@.peers[j].1) by {
                        if j != i {
                            assert(self@.peers[j] == old_peers[j]);
                        }
                    }
                }
            },
            None => {
                self.peers.push(entry);
                proof {
                    assert(self@.peers =~= old_peers.push((k, Seq::empty())));
                    assert(keys(self@.peers) =~= keys(old_peers).push(k));
                    assert(!keys(old_peers).contains(k)) by {
                        if keys(old_peers).contains(k) {
                            let j = choose|j: int| 0 <= j < keys(old_peers).len() && keys(old_peers)[j] == k;
                            assert(old_peers[j].0 == k);
                        }
                    }
                    assert forall|j: int| 0 <= j < self@.peers.len() implies distinct(#[trigger] self@.peers[j].1) by {
                        if j < old_peers.len() {
                            assert(self@.peers[j] == old_peers[j]);
                        }
                    }
                }
            },
        }
    }

    /// Stops tracking a disconnected peer.
    pub fn peer_disconnected(&mut self, who: &Vec<u8>)
        requires
            old(self).wf(),
        ensures
            final(self).wf(),
            final(self)@ == (GroupModel { peers: assoc_remove(old(self)@.peers, who@), ..old(self)@ }),
    {
        let ghost old_peers = self@.peers;
        match find_peer(&self.peers, who) {
            Some(i) => {
                self.peers.remove(i);
                proof {
                    lemma_assoc_remove_at(old_peers, who@, i as int);
                    assert(self@.peers =~= old_peers.remove(i as int));
                    assert(keys(self@.peers) =~= keys(old_peers).remove(i as int));
                    lemma_distinct_remove(keys(old_peers), i as int);
                    assert forall|j: int| 0 <= j < self@.peers.len() implies distinct(#[trigger] self@.peers[j].1) by {
                        if j < i {
                            assert(self@.peers[j] == old_peers[j]);
                        } else {
                            assert(self@.peers[j] == old_peers[j + 1]);
                        }
                    }
                }
            },
            None => {
                proof {
                    lemma_assoc_remove_absent(old_peers, who@);
                }
            },
        }
    }

    /// Registers a message, with its sender and the time `now` it arrived,
    /// unless its hash is known already; either way the hash becomes the most
    /// recently seen.
    pub fn register_message_hashed(
        &mut self,
        message_hash: Vec<u8>,
        group: Vec<u8>,
        message: Vec<u8>,
        sender: Option<Vec<u8>>,
        now: u64,
    )
        requires
            old(self).wf(),
        ensures
            final(self).wf(),
            final(self)@ == register_effect(old(self)@, EntryModel {
                hash: message_hash@,
                group: group@,
                message: message@,
                sender: match sender {
                    Some(s) => Some(s@),
                    None => None,
                },
                create_time: now,
            }),
    {
        let ghost m0 = self@.messages;
        let entry = MessageEntry { message_hash: message_hash.clone(), group, message, sender, create_time: now };
        let ghost e = entry@;
        if lru_put(&mut self.known_messages, message_hash).is_none() {
            self.messages.push(entry);
            assert(self@.messages =~= m0.push(e));
        }
    }

    /// Registers a message without propagating it to any peer; `message_hash`
    /// is the hash the message is known by. The message is kept unless its
    /// hash is known already.
    pub fn register_message(&mut self, group: Vec<u8>, message: Vec<u8>, message_hash: Vec<u8>)
        requires
            old(self).wf(),
        ensures
            final(self).wf(),
            exists|now: u64| now >= old(self)@.clock && final(self)@ == register_effect(at_clock(old(self)@, now), EntryModel {
                hash: message_hash@,
                group: group@,
                message: message@,
                sender: None,
                create_time: now,
            }),
    {
        let now = self.now();
        self.register_message_hashed(message_hash, group, message, None, now);
    }

    /// Adds the hashes to the set of the peer at `i`.
    fn add_known_to_peer(&mut self, i: usize, hs: &Vec<Vec<u8>>)
        requires
            old(self).wf(),
            i < old(self)@.peers.len(),
        ensures
            final(self).wf(),
            final(self)@ == (GroupModel {
                peers: update_known(old(self)@.peers, old(self)@.peers[i as int].0, |k: Seq<Seq<u8>>| insert_all(k, byte_strings(hs@))),
                ..old(self)@
            }),
    {
        let ghost p0 = self@.peers;
        let ghost who = p0[i as int].0;
        let ghost f = |k: Seq<Seq<u8>>| insert_all(k, byte_strings(hs@));
        proof {
            assert forall|j: int| 0 <= j < p0.len() && j != i implies p0[j].0 != who by {
                assert(keys(p0)[j] == p0[j].0);
                assert(keys(p0)[i as int] == p0[i as int].0);
            }
            assert(distinct(p0[i as int].1));
        }
        let mut entry = self.peers.remove(i);
        insert_hashes(&mut entry.known_messages, hs);
        self.peers.insert(i, entry);
        proof {
            assert(self@.peers =~= update_known(p0, who, f));
            assert(keys(self@.peers) =~= keys(p0));
            assert forall|j: int| 0 <= j < self@.peers.len() implies distinct(#[trigger] self@.peers[j].1) by {
                if j != i {
                    assert(self@.peers[j] == p0[j]);
                }
            }
        }
    }

    /// Past messages of a group, oldest first (some may have expired meanwhile).
    pub fn messages_for(&self, group: &Vec<u8>) -> (r: Vec<GroupNotification>)
        ensures
            r@.map_values(|n: GroupNotification| n@) == group_entries(self@.messages, group@).map_values(|e: EntryModel| notification_of(e)),
    {
        let ghost ms = self@.messages;
        let ghost pred = in_group(group@);
        let ghost f = |e: EntryModel| notification_of(e);
        let ghost g = |n: GroupNotification| n@;
        let mut r: Vec<GroupNotification> = Vec::new();
        let mut i: usize = 0;
        while i < self.messages.len()
            invariant
                i <= self.messages@.len(),
                ms == self@.messages,
                pred == in_group(group@),
                f == (|e: EntryModel| notification_of(e)),
                g == (|n: GroupNotification| n@),
                r@.map_values(g) == ms.take(i as int).filter(pred).map_values(f),
            decreases self.messages@.len() - i,
        {
            proof {
                reveal(Seq::filter);
                assert(ms.take(i + 1).drop_last() =~= ms.take(i as int));
                assert(ms.take(i + 1).last() == ms[i as int]);
            }
            if bytes_equal(&self.messages[i].group, group) {
                let n = GroupNotification {
                    message: self.messages[i].message.clone(),
                    sender: clone_sender(&self.messages[i].sender),
                };
                let ghost prev = r@;
                r.push(n);
                proof {
                    assert(n@ == f(ms[i as int]));
                    assert(r@.map_values(g) =~= prev.map_values(g).push(n@));
                    assert(ms.take(i + 1).filter(pred) == ms.take(i as int).filter(pred).push(ms[i as int]));
                    assert(ms.take(i + 1).filter(pred).map_values(f) =~= ms.take(i as int).filter(pred).map_values(f).push(n@));
                }
            } else {
                assert(ms.take(i + 1).filter(pred) == ms.take(i as int).filter(pred));
            }
            i = i + 1;
        }
        assert(ms.take(self.messages@.len() as int) =~= ms);
        r
    }

    /// Publishes every registered message of a group to the group, oldest
    /// first.
    pub fn broadcast_group(&self, group: &Vec<u8>, force: bool) -> (r: Vec<NetworkAction>)
        ensures
            network_models(r@) == group_entries(self@.messages, group@).map_values(
                |e: EntryModel| NetworkActionModel::Publish(hex_lower(e.group), e.message),
            ),
    {
        let ghost ms = self@.messages;
        let ghost pred = in_group(group@);
        let ghost f = |e: EntryModel| NetworkActionModel::Publish(hex_lower(e.group), e.message);
        let mut r: Vec<NetworkAction> = Vec::new();
        let mut i: usize = 0;
        while i < self.messages.len()
            invariant
                i <= self.messages@.len(),
                ms == self@.messages,
                pred == in_group(group@),
                f == (|e: EntryModel| NetworkActionModel::Publish(hex_lower(e.group), e.message)),
                network_models(r@) == ms.take(i as int).filter(pred).map_values(f),
            decreases self.messages@.len() - i,
        {
            proof {
                reveal(Seq::filter);
                assert(ms.take(i + 1).drop_last() =~= ms.take(i as int));
                assert(ms.take(i + 1).last() == ms[i as int]);
            }
            if bytes_equal(&self.messages[i].group, group) {
                let a = NetworkAction::PublishMessage {
                    group_id: hex_encode(self.messages[i].group.as_slice()),
                    data: self.messages[i].message.clone(),
                };
                let ghost prev = r@;
                r.push(a);
                proof {
                    assert(a@ == f(ms[i as int]));
                    assert(network_models(r@) =~= network_models(prev).push(a@));
                    assert(ms.take(i + 1).filter(pred) == ms.take(i as int).filter(pred).push(ms[i as int]));
                    assert(ms.take(i + 1).filter(pred).map_values(f) =~= ms.take(i as int).filter(pred).map_values(f).push(a@));
                }
            } else {
                assert(ms.take(i + 1).filter(pred) == ms.take(i as int).filter(pred));
            }
            i = i + 1;
        }
        assert(ms.take(self.messages@.len() as int) =~= ms);
        r
    }

    /// Registers a message and publishes it to its group.
    pub fn multicast(&mut self, group: Vec<u8>, message: Vec<u8>, message_hash: Vec<u8>, force: bool) -> (r: Vec<NetworkAction>)
        requires
            old(self).wf(),
        ensures
            final(self).wf(),
            exists|now: u64| now >= old(self)@.clock && final(self)@ == register_effect(at_clock(old(self)@, now), EntryModel {
                hash: message_hash@,
                group: group@,
                message: message@,
                sender: None,
                create_time: now,
            }),
            network_models(r@) == seq![NetworkActionModel::Publish(hex_lower(group@), message@)],
    {
        let now = self.now();
        let group_id = hex_encode(group.as_slice());
        let data = message.clone();
        self.register_message_hashed(message_hash, group, message, None, now);
        let mut r: Vec<NetworkAction> = Vec::new();
        r.push(NetworkAction::PublishMessage { group_id, data });
        assert(network_models(r@) =~= seq![NetworkActionModel::Publish(hex_lower(group@), message@)]);
        r
    }

    /// Sends a message to one peer, which then counts as knowing it. Nothing
    /// happens if the peer is not taking part.
    pub fn send_message(&mut self, who: &Vec<u8>, message: Vec<u8>, message_hash: &Vec<u8>) -> (r: Vec<NetworkAction>)
        requires
            old(self).wf(),
        ensures
            final(self).wf(),
            !has_key(old(self)@.peers, who@) ==> final(self)@ == old(self)@ && r@.len() == 0,
            has_key(old(self)@.peers, who@) ==> final(self)@ == (GroupModel {
                peers: update_known(old(self)@.peers, who@, |k: Seq<Seq<u8>>| insert_value(k, message_hash@)),
                ..old(self)@
            }) && network_models(r@) == seq![NetworkActionModel::Write(who@, old(self)@.protocol, message@)],
    {
        let mut r: Vec<NetworkAction> = Vec::new();
        let i = match find_peer(&self.peers, who) {
            None => return r,
            Some(i) => i,
        };
        let mut hs: Vec<Vec<u8>> = Vec::new();
        hs.push(message_hash.clone());
        let ghost p0 = self@.peers;
        self.add_known_to_peer(i, &hs);
        proof {
            assert(byte_strings(hs@) =~= seq![message_hash@]);
            assert forall|k: Seq<Seq<u8>>| insert_all(k, seq![message_hash@]) == insert_value(k, message_hash@) by {
                assert(seq![message_hash@].drop_last() =~= Seq::<Seq<u8>>::empty());
                assert(insert_all(k, Seq::<Seq<u8>>::empty()) == k);
                assert(seq![message_hash@].last() == message_hash@);
            }
            assert(self@.peers =~= update_known(p0, who@, |k: Seq<Seq<u8>>| insert_value(k, message_hash@)));
        }
        let a = NetworkAction::WriteNotification { who: who.clone(), protocol: self.protocol.clone(), message };
        r.push(a);
        assert(network_models(r@) =~= seq![a@]);
        r
    }

    /// The peer at `i` counts as knowing `h`.
    fn insert_known_at(&mut self, i: usize, h: &Vec<u8>)
        requires
            old(self).wf(),
            i < old(self)@.peers.len(),
        ensures
            final(self).wf(),
            final(self)@ == (GroupModel {
                peers: update_known(old(self)@.peers, old(self)@.peers[i as int].0, |k: Seq<Seq<u8>>| insert_value(k, h@)),
                ..old(self)@
            }),
    {
        let ghost p0 = self@.peers;
        let ghost who = p0[i as int].0;
        let ghost f = |k: Seq<Seq<u8>>| insert_value(k, h@);
        proof {
            assert forall|j: int| 0 <= j < p0.len() && j != i implies p0[j].0 != who by {
                assert(keys(p0)[j] == p0[j].0);
                assert(keys(p0)[i as int] == p0[i as int].0);
            }
            assert(distinct(p0[i as int].1));
        }
        let mut entry = self.peers.remove(i);
        insert_hash(&mut entry.known_messages, h);
        self.peers.insert(i, entry);
        proof {
            assert(self@.peers =~= update_known(p0, who, f));
            assert(keys(self@.peers) =~= keys(p0));
            assert forall|j: int| 0 <= j < self@.peers.len() implies distinct(#[trigger] self@.peers[j].1) by {
                if j != i {
                    assert(self@.peers[j] == p0[j]);
                }
            }
        }
    }

    /// The registered messages of a group, oldest first.
    fn entries_of(&self, group: &Vec<u8>) -> (r: Vec<MessageEntry>)
        ensures
            entry_models(r@) == group_entries(self@.messages, group@),
    {
        let ghost ms = self@.messages;
        let ghost pred = in_group(group@);
        let mut r: Vec<MessageEntry> = Vec::new();
        let mut j: usize = 0;
        while j < self.messages.len()
            invariant
                j <= self.messages@.len(),
                ms == self@.messages,
                pred == in_group(group@),
                entry_models(r@) == ms.take(j as int).filter(pred),
            decreases self.messages@.len() - j,
        {
            proof {
                reveal(Seq::filter);
                assert(ms.take(j + 1).drop_last() =~= ms.take(j as int));
                assert(ms.take(j + 1).last() == ms[j as int]);
            }
            if bytes_equal(&self.messages[j].group, group) {
                let ghost prev = entry_models(r@);
                let e = clone_entry(&self.messages[j]);
                r.push(e);
                proof {
                    assert(entry_models(r@) =~= prev.push(ms[j as int]));
                    assert(ms.take(j + 1).filter(pred) == ms.take(j as int).filter(pred).push(ms[j as int]));
                }
            } else {
                assert(ms.take(j + 1).filter(pred) == ms.take(j as int).filter(pred));
            }
            j = j + 1;
        }
        assert(ms.take(self.messages@.len() as int) =~= ms);
        r
    }

    /// Sends the registered messages of a group to one peer, oldest first:
    /// all of them when `force` is set, otherwise those the peer is not
    /// known to have. The peer then counts as knowing each of them. Nothing
    /// happens if the peer is not taking part.
    pub fn send_group(&mut self, who: &Vec<u8>, group: &Vec<u8>, force: bool) -> (r: Vec<NetworkAction>)
        requires
            old(self).wf(),
        ensures
            final(self).wf(),
            !has_key(old(self)@.peers, who@) ==> final(self)@ == old(self)@ && r@.len() == 0,
            has_key(old(self)@.peers, who@) ==> final(self)@ == (GroupModel {
                peers: update_known(old(self)@.peers, who@, |k: Seq<Seq<u8>>|
                    propagate_to_peer(k, group_entries(old(self)@.messages, group@), send_intent(force)).0),
                ..old(self)@
            }),
            forall|x: int| 0 <= x < old(self)@.peers.len() && #[trigger] old(self)@.peers[x].0 == who@
                ==> network_models(r@) == writes_to(who@, old(self)@.protocol,
                    propagate_to_peer(old(self)@.peers[x].1, group_entries(old(self)@.messages, group@), send_intent(force)).1),
    {
        let mut r: Vec<NetworkAction> = Vec::new();
        let ghost p0 = self@.peers;
        let i = match find_peer(&self.peers, who) {
            None => {
                proof {
                    assert forall|x: int| 0 <= x < p0.len() implies p0[x].0 != who@ by {
                        if p0[x].0 == who@ {
                            assert(has_key(p0, who@));
                        }
                    }
                }
                return r;
            },
            Some(i) => i,
        };
        let intent = if force { MessageIntent::ForcedBroadcast } else { MessageIntent::Broadcast };
        let msgs = self.entries_of(group);
        let ghost ge = entry_models(msgs@);
        let ghost f = |k: Seq<Seq<u8>>| propagate_to_peer(k, ge, intent).0;
        proof {
            assert forall|j: int| 0 <= j < p0.len() && j != i implies p0[j].0 != who@ by {
                assert(keys(p0)[j] == p0[j].0);
                assert(keys(p0)[i as int] == p0[i as int].0);
            }
            assert(distinct(p0[i as int].1));
        }
        let mut entry = self.peers.remove(i);
        propagate_to(&mut entry.known_messages, who, &msgs, intent, &self.protocol, &mut r);
        self.peers.insert(i, entry);
        proof {
            assert(network_models(r@) =~= writes_to(who@, self@.protocol, propagate_to_peer(p0[i as int].1, ge, intent).1));
            assert(self@.peers =~= update_known(p0, who@, f));
            assert(keys(self@.peers) =~= keys(p0));
            assert forall|j: int| 0 <= j < self@.peers.len() implies distinct(#[trigger] self@.peers[j].1) by {
                if j != i {
                    assert(self@.peers[j] == p0[j]);
                }
            }
        }
        r
    }

    /// Handles messages received from a peer, each given with its hash, and
    /// returns the new ones for the upper layers: a message whose hash is in
    /// the cache of known hashes is ignored; any other is new: the peer then
    /// counts as knowing it, its hash becomes known, and it is returned,
    /// keyed by its hash, with the peer as sender. A repeated message is thus
    /// returned once. Nothing happens if the peer is not taking part.
    pub fn on_incoming(&mut self, who: &Vec<u8>, messages: &Vec<HashedMessage>) -> (r: Vec<(Vec<u8>, GroupNotification)>)
        requires
            old(self).wf(),
        ensures
            final(self).wf(),
            !has_key(old(self)@.peers, who@) ==> final(self)@ == old(self)@ && r@.len() == 0,
            has_key(old(self)@.peers, who@) ==> {
                &&& final(self)@ == incoming_effect(old(self)@, who@, hashed_models(messages@)).0
                &&& forwarded_models(r@) == incoming_effect(old(self)@, who@, hashed_models(messages@)).1
            },
    {
        let mut r: Vec<(Vec<u8>, GroupNotification)> = Vec::new();
        let ghost s0 = self@;
        let ghost p0 = self@.peers;
        let i = match find_peer(&self.peers, who) {
            None => {
                proof {
                    assert forall|x: int| 0 <= x < p0.len() implies p0[x].0 != who@ by {
                        if p0[x].0 == who@ {
                            assert(has_key(p0, who@));
                        }
                    }
                }
                return r;
            },
            Some(i) => i,
        };
        let ghost ms = hashed_models(messages@);
        let mut j: usize = 0;
        assert(ms.take(0) =~= Seq::<(Seq<u8>, Seq<u8>)>::empty());
        assert(forwarded_models(r@) =~= Seq::<(Seq<u8>, NotificationModel)>::empty());
        while j < messages.len()
            invariant
                j <= messages@.len(),
                ms == hashed_models(messages@),
                self.wf(),
                i < self@.peers.len(),
                self@.peers[i as int].0 == who@,
                self@ == incoming_effect(s0, who@, ms.take(j as int)).0,
                forwarded_models(r@) == incoming_effect(s0, who@, ms.take(j as int)).1,
            decreases messages@.len() - j,
        {
            assert(ms.take(j + 1).drop_last() =~= ms.take(j as int));
            assert(ms.take(j + 1).last() == ms[j as int]);
            assert(ms[j as int] == (messages@[j as int].hash@, messages@[j as int].message@));
            if !lru_contains(&self.known_messages, &messages[j].hash) {
                self.insert_known_at(i, &messages[j].hash);
                let _ = lru_put(&mut self.known_messages, messages[j].hash.clone());
                let n = GroupNotification { message: messages[j].message.clone(), sender: Some(who.clone()) };
                let ghost prev = forwarded_models(r@);
                r.push((messages[j].hash.clone(), n));
                proof {
                    assert(forwarded_models(r@) =~= prev.push((ms[j as int].0, NotificationModel { message: ms[j as int].1, sender: Some(who@) })));
                    assert(self@ =~= incoming_effect(s0, who@, ms.take(j + 1)).0);
                }
            }
            j = j + 1;
        }
        assert(ms.take(messages@.len() as int) =~= ms);
        r
    }

    /// Garbage collection at `now`: messages past their lifetime are dropped,
    /// and each peer forgets the hashes no longer in the cache.
    pub fn collect_garbage_at(&mut self, now: u64)
        requires
            old(self).wf(),
        ensures
            final(self).wf(),
            final(self)@ == collect_effect(old(self)@, now),
    {
        let ghost s0 = self@;
        let ghost ms = s0.messages;
        let ghost keep = still_fresh(now);
        let mut kept: Vec<MessageEntry> = Vec::new();
        let mut i: usize = 0;
        while i < self.messages.len()
            invariant
                i <= self.messages@.len(),
                ms == self@.messages,
                keep == still_fresh(now),
                entry_models(kept@) == ms.take(i as int).filter(keep),
            decreases self.messages@.len() - i,
        {
            proof {
                reveal(Seq::filter);
                assert(ms.take(i + 1).drop_last() =~= ms.take(i as int));
                assert(ms.take(i + 1).last() == ms[i as int]);
            }
            let t = self.messages[i].create_time;
            let elapsed: u64 = if now >= t { now - t } else { 0 };
            if elapsed < MESSAGE_LIFETIME_NS {
                let e = clone_entry(&self.messages[i]);
                let ghost prev = entry_models(kept@);
                kept.push(e);
                assert(entry_models(kept@) =~= prev.push(ms[i as int]));
            }
            i = i + 1;
        }
        assert(ms.take(self.messages@.len() as int) =~= ms);
        self.messages = kept;
        let ghost p0 = self@.peers;
        let ghost known = self@.known;
        let ghost g = |e: (Seq<u8>, Seq<Seq<u8>>)| (e.0, e.1.filter(in_cache(known)));
        let mut k: usize = 0;
        while k < self.peers.len()
            invariant
                k <= self.peers@.len(),
                p0.len() == self.peers@.len(),
                known == self@.known,
                g == (|e: (Seq<u8>, Seq<Seq<u8>>)| (e.0, e.1.filter(in_cache(known)))),
                self@ == (GroupModel { peers: self@.peers, ..collect_effect(s0, now) }),
                forall|j: int| 0 <= j < k ==> #[trigger] self@.peers[j] == g(p0[j]),
                forall|j: int| k <= j < p0.len() ==> #[trigger] self@.peers[j] == p0[j],
                forall|j: int| 0 <= j < p0.len() ==> distinct(#[trigger] p0[j].1),
            decreases self.peers@.len() - k,
        {
            assert(self@.peers[k as int] == p0[k as int]);
            assert(self@.peers[k as int] == self.peers@[k as int]@);
            assert(distinct(p0[k as int].1));
            let ghost before = self@.peers;
            let mut entry = self.peers.remove(k);
            let ghost old_known = byte_strings(entry.known_messages@);
            assert(old_known == p0[k as int].1);
            let mut filtered: Vec<Vec<u8>> = Vec::new();
            let mut j: usize = 0;
            while j < entry.known_messages.len()
                invariant
                    j <= entry.known_messages@.len(),
                    old_known == byte_strings(entry.known_messages@),
                    known == lru_keys(self.known_messages),
                    byte_strings(filtered@) == old_known.take(j as int).filter(in_cache(known)),
                decreases entry.known_messages@.len() - j,
            {
                proof {
                    reveal(Seq::filter);
                    assert(old_known.take(j + 1).drop_last() =~= old_known.take(j as int));
                    assert(old_known.take(j + 1).last() == old_known[j as int]);
                }
                if lru_contains(&self.known_messages, &entry.known_messages[j]) {
                    let ghost prev = byte_strings(filtered@);
                    filtered.push(entry.known_messages[j].clone());
                    assert(byte_strings(filtered@) =~= prev.push(old_known[j as int]));
                }
                j = j + 1;
            }
            assert(old_known.take(entry.known_messages@.len() as int) =~= old_known);
            entry.known_messages = filtered;
            let ghost ne = entry@;
            self.peers.insert(k, entry);
            proof {
                assert(self@.peers =~= before.update(k as int, ne));
                assert(ne == g(p0[k as int]));
                assert forall|j: int| 0 <= j < k + 1 implies #[trigger] self@.peers[j] == g(p0[j]) by {
                    if j == k {
                        assert(self@.peers[j] == ne);
                    }
                }
            }
            k = k + 1;
        }
        proof {
            assert(self@.peers =~= p0.map_values(g));
            assert(keys(self@.peers) =~= keys(p0));
            assert forall|j: int| 0 <= j < self@.peers.len() implies distinct(#[trigger] self@.peers[j].1) by {
                lemma_filter_distinct(p0[j].1, in_cache(known));
            }
        }
    }

    /// Garbage collection at the current time.
    pub fn collect_garbage(&mut self)
        requires
            old(self).wf(),
        ensures
            final(self).wf(),
            exists|now: u64| now >= old(self)@.clock && final(self)@ == collect_effect(at_clock(old(self)@, now), now),
    {
        let now = self.now();
        self.collect_garbage_at(now);
    }

    /// Sends every registered message to every peer according to `intent`,
    /// recording what each peer then knows.
    pub fn propagate(&mut self, intent: MessageIntent) -> (r: Vec<NetworkAction>)
        requires
            old(self).wf(),
        ensures
            final(self).wf(),
            final(self)@ == (GroupModel {
                peers: propagate_peers(old(self)@.peers, old(self)@.messages, intent),
                ..old(self)@
            }),
            network_models(r@) == propagate_actions(old(self)@.peers, old(self)@.messages, intent, old(self)@.protocol),
    {
        let ghost s0 = self@;
        let ghost p0 = s0.peers;
        let ghost ms = s0.messages;
        let ghost g = |e: (Seq<u8>, Seq<Seq<u8>>)| (e.0, propagate_to_peer(e.1, ms, intent).0);
        let mut r: Vec<NetworkAction> = Vec::new();
        let mut k: usize = 0;
        while k < self.peers.len()
            invariant
                k <= self.peers@.len(),
                p0.len() == self.peers@.len(),
                ms == self@.messages,
                g == (|e: (Seq<u8>, Seq<Seq<u8>>)| (e.0, propagate_to_peer(e.1, ms, intent).0)),
                self@ == (GroupModel { peers: self@.peers, ..s0 }),
                forall|j: int| 0 <= j < k ==> #[trigger] self@.peers[j] == g(p0[j]),
                forall|j: int| k <= j < p0.len() ==> #[trigger] self@.peers[j] == p0[j],
                forall|j: int| 0 <= j < p0.len() ==> distinct(#[trigger] p0[j].1),
                network_models(r@) == propagate_actions(p0.take(k as int), ms, intent, s0.protocol),
            decreases self.peers@.len() - k,
        {
            proof {
                assert(p0.take(k + 1).drop_last() =~= p0.take(k as int));
                assert(p0.take(k + 1).last() == p0[k as int]);
            }
            assert(self@.peers[k as int] == p0[k as int]);
            assert(self@.peers[k as int] == self.peers@[k as int]@);
            assert(distinct(p0[k as int].1));
            let ghost before = self@.peers;
            let mut entry = self.peers.remove(k);
            assert(entry@ == p0[k as int]);
            propagate_to(&mut entry.known_messages, &entry.peer_id, &self.messages, intent, &self.protocol, &mut r);
            let ghost ne = entry@;
            self.peers.insert(k, entry);
            proof {
                assert(self@.peers =~= before.update(k as int, ne));
                assert(ne == g(p0[k as int]));
                assert forall|j: int| 0 <= j < k + 1 implies #[trigger] self@.peers[j] == g(p0[j]) by {
                    if j == k {
                        assert(self@.peers[j] == ne);
                    }
                }
            }
            k = k + 1;
        }
        proof {
            assert(p0.take(p0.len() as int) =~= p0);
            assert(self@.peers =~= propagate_peers(p0, ms, intent));
            assert(keys(self@.peers) =~= keys(p0));
            assert forall|j: int| 0 <= j < self@.peers.len() implies distinct(#[trigger] self@.peers[j].1) by {
                lemma_propagate_to_peer_distinct(p0[j].1, ms, intent);
            }
        }
        r
    }

    /// Rebroadcasts every registered message to every peer.
    fn rebroadcast(&mut self) -> (r: Vec<NetworkAction>)
        requires
            old(self).wf(),
        ensures
            final(self).wf(),
            final(self)@ == (GroupModel {
                peers: propagate_peers(old(self)@.peers, old(self)@.messages, MessageIntent::PeriodicRebroadcast),
                ..old(self)@
            }),
            network_models(r@) == propagate_actions(old(self)@.peers, old(self)@.messages, MessageIntent::PeriodicRebroadcast, old(self)@.protocol),
    {
        self.propagate(MessageIntent::PeriodicRebroadcast)
    }

    /// Periodic maintenance at `now`.
    pub fn tick_at(&mut self, now: u64) -> (r: Vec<NetworkAction>)
        requires
            old(self).wf(),
        ensures
            final(self).wf(),
            final(self)@ == tick_effect(old(self)@, now).0,
            network_models(r@) == tick_effect(old(self)@, now).1,
    {
        self.collect_garbage_at(now);
        if now >= self.next_broadcast {
            let r = self.rebroadcast();
            self.next_broadcast = now.saturating_add(REBROADCAST_INTERVAL_NS);
            r
        } else {
            let r: Vec<NetworkAction> = Vec::new();
            assert(network_models(r@) =~= Seq::<NetworkActionModel>::empty());
            r
        }
    }

    /// Periodic maintenance at the current time.
    pub fn tick(&mut self) -> (r: Vec<NetworkAction>)
        requires
            old(self).wf(),
        ensures
            final(self).wf(),
            exists|now: u64| now >= old(self)@.clock && final(self)@ == tick_effect(at_clock(old(self)@, now), now).0
                && network_models(r@) == tick_effect(at_clock(old(self)@, now), now).1,
    {
        let now = self.now();
        self.tick_at(now)
    }

    /// The protocol the notifications are written on.
    pub fn protocol(&self) -> (r: &String)
        ensures
            r@ == self@.protocol,
    {
        &self.protocol
    }
}


/// Registering a message whose hash was just registered changes nothing:
/// only the first registration adds an entry, and the hash stays the most
/// recently seen.
pub proof fn law_register_deduplicates(s: GroupModel, e1: EntryModel, e2: EntryModel)
    requires
        group_wf(s),
        e1.hash == e2.hash,
    ensures
        register_effect(register_effect(s, e1), e2) == register_effect(s, e1),
{
    let h = e1.hash;
    let s1 = register_effect(s, e1);
    let pred = crate::lru_cache::other_than(h);
    let rest = if s.known.contains(h) {
        s.known.filter(pred)
    } else if s.known.len() == s.capacity {
        s.known.drop_last()
    } else {
        s.known
    };
    assert(s1.known == seq![h] + rest) by {
        if s.known.contains(h) {
        } else {
            assert(s.capacity > 0);
        }
    }
    assert(!rest.contains(h)) by {
        if s.known.contains(h) {
            if rest.contains(h) {
                let k = choose|k: int| 0 <= k < rest.len() && rest[k] == h;
                s.known.lemma_filter_pred(pred, k);
            }
        } else if s.known.len() == s.capacity {
            if rest.contains(h) {
                let k = choose|k: int| 0 <= k < rest.len() && rest[k] == h;
                assert(s.known[k] == h);
            }
        }
    }
    assert forall|j: int| 0 <= j < rest.len() implies #[trigger] pred(rest[j]) by {
        if rest[j] == h {
            assert(rest.contains(h));
        }
    }
    crate::assoc::lemma_filter_keeps_all(rest, pred);
    assert(seq![h].filter(pred) =~= Seq::<Seq<u8>>::empty()) by {
        reveal(Seq::filter);
        assert(seq![h].drop_last() =~= Seq::<Seq<u8>>::empty());
        assert(!pred(h));
        assert(Seq::<Seq<u8>>::empty().filter(pred) =~= Seq::<Seq<u8>>::empty());
    }
    Seq::filter_distributes_over_add(seq![h], rest, pred);
    assert(s1.known.contains(h)) by {
        assert(s1.known[0] == h);
    }
    assert(s1.known.filter(pred) == rest);
    assert(seq![h] + s1.known.filter(pred) =~= s1.known);
    assert(keys_after_put(s1.known, s1.capacity, h) == s1.known);
    assert(register_effect(s1, e2) =~= s1);
}

/// A periodic rebroadcast sends each peer every registered message, oldest
/// first, after which the peer knows every hash of them.
pub proof fn law_rebroadcast_reaches_all(known: Seq<Seq<u8>>, msgs: Seq<EntryModel>)
    ensures
        propagate_to_peer(known, msgs, MessageIntent::PeriodicRebroadcast).1 == msgs.map_values(|e: EntryModel| e.message),
        forall|i: int| 0 <= i < msgs.len() ==> propagate_to_peer(known, msgs, MessageIntent::PeriodicRebroadcast).0.contains(#[trigger] msgs[i].hash),
    decreases msgs.len(),
{
    if msgs.len() > 0 {
        let d = msgs.drop_last();
        law_rebroadcast_reaches_all(known, d);
        let (k, sent) = propagate_to_peer(known, d, MessageIntent::PeriodicRebroadcast);
        let m = msgs.last();
        assert(msgs.map_values(|e: EntryModel| e.message) =~= d.map_values(|e: EntryModel| e.message).push(m.message));
        let k2 = insert_value(k, m.hash);
        assert forall|i: int| 0 <= i < msgs.len() implies k2.contains(#[trigger] msgs[i].hash) by {
            if i < msgs.len() - 1 {
                assert(d[i] == msgs[i]);
                assert(k.contains(d[i].hash));
                if !k.contains(m.hash) {
                    let w = choose|w: int| 0 <= w < k.len() && k[w] == d[i].hash;
                    assert(k2[w] == d[i].hash);
                }
            } else {
                if !k.contains(m.hash) {
                    assert(k2[k.len() as int] == m.hash);
                }
            }
        }
    } else {
        assert(msgs.map_values(|e: EntryModel| e.message) =~= Seq::<Seq<u8>>::empty());
    }
}

/// Whatever the intent, propagating messages to a peer leaves it knowing
/// every hash it knew and the hash of every message propagated, sent or
/// skipped; a forced broadcast or a periodic rebroadcast sends every message,
/// oldest first, and a plain broadcast sends a message only if the peer did
/// not know its hash.
pub proof fn law_propagate_marks_known(known: Seq<Seq<u8>>, msgs: Seq<EntryModel>, intent: MessageIntent)
    ensures
        forall|h: Seq<u8>| known.contains(h) ==> #[trigger] propagate_to_peer(known, msgs, intent).0.contains(h),
        forall|i: int| 0 <= i < msgs.len() ==> propagate_to_peer(known, msgs, intent).0.contains(#[trigger] msgs[i].hash),
        intent != MessageIntent::Broadcast ==> propagate_to_peer(known, msgs, intent).1 == msgs.map_values(|e: EntryModel| e.message),
        intent == MessageIntent::Broadcast ==> propagate_to_peer(known, msgs, intent).1.len() <= msgs.len(),
        intent == MessageIntent::Broadcast && msgs.len() > 0 && !propagate_to_peer(known, msgs.drop_last(), intent).0.contains(msgs.last().hash)
            ==> propagate_to_peer(known, msgs, intent).1.last() == msgs.last().message,
    decreases msgs.len(),
{
    if msgs.len() > 0 {
        let d = msgs.drop_last();
        law_propagate_marks_known(known, d, intent);
        let (k, sent) = propagate_to_peer(known, d, intent);
        let m = msgs.last();
        assert(msgs.map_values(|e: EntryModel| e.message) =~= d.map_values(|e: EntryModel| e.message).push(m.message));
        let k2 = insert_value(k, m.hash);
        assert forall|h: Seq<u8>| k.contains(h) implies k2.contains(h) by {
            if !k.contains(m.hash) {
                let w = choose|w: int| 0 <= w < k.len() && k[w] == h;
                assert(k2[w] == h);
            }
        }
        assert forall|i: int| 0 <= i < msgs.len() implies k2.contains(#[trigger] msgs[i].hash) by {
            if i < msgs.len() - 1 {
                assert(d[i] == msgs[i]);
                assert(k.contains(d[i].hash));
            } else if !k.contains(m.hash) {
                assert(k2[k.len() as int] == m.hash);
            }
        }
        assert forall|h: Seq<u8>| known.contains(h) implies #[trigger] propagate_to_peer(known, msgs, intent).0.contains(h) by {
            assert(k.contains(h));
        }
        assert forall|i: int| 0 <= i < msgs.len() implies propagate_to_peer(known, msgs, intent).0.contains(#[trigger] msgs[i].hash) by {
            if i < msgs.len() - 1 {
                assert(d[i] == msgs[i]);
                assert(k.contains(d[i].hash));
            }
        }
    } else {
        assert(msgs.map_values(|e: EntryModel| e.message) =~= Seq::<Seq<u8>>::empty());
    }
}

/// Garbage collection drops exactly the messages past their lifetime, keeps
/// the cache of known hashes, and makes each peer forget exactly the hashes
/// that are no longer in that cache: every hash a peer knew that the cache
/// still holds is still known, and no hash is gained.
pub proof fn law_collect_keeps_cached_hashes(s: GroupModel, now: u64)
    ensures
        ({
            let t = collect_effect(s, now);
            &&& t.known == s.known
            &&& t.peers.len() == s.peers.len()
            &&& forall|i: int| 0 <= i < s.peers.len() ==> #[trigger] t.peers[i].0 == s.peers[i].0
            &&& forall|i: int, h: Seq<u8>| 0 <= i < s.peers.len() ==>
                (#[trigger] t.peers[i].1.contains(h) == (s.peers[i].1.contains(h) && s.known.contains(h)))
            &&& forall|e: EntryModel| #[trigger] t.messages.contains(e)
                == (s.messages.contains(e) && age(now, e.create_time) < MESSAGE_LIFETIME_NS)
        }),
{
    let t = collect_effect(s, now);
    assert forall|i: int, h: Seq<u8>| 0 <= i < s.peers.len() implies
        (#[trigger] t.peers[i].1.contains(h) == (s.peers[i].1.contains(h) && s.known.contains(h))) by {
        let p = in_cache(s.known);
        let ks = s.peers[i].1;
        assert(t.peers[i].1 == ks.filter(p));
        ks.filter_lemma(p);
        if ks.filter(p).contains(h) {
            ks.lemma_filter_contains_rev(p, h);
            let w = choose|w: int| 0 <= w < ks.filter(p).len() && ks.filter(p)[w] == h;
            assert(p(ks.filter(p)[w]));
        }
        if ks.contains(h) && s.known.contains(h) {
            let w = choose|w: int| 0 <= w < ks.len() && ks[w] == h;
            assert(p(ks[w]));
        }
    }
    assert forall|e: EntryModel| #[trigger] t.messages.contains(e)
        == (s.messages.contains(e) && age(now, e.create_time) < MESSAGE_LIFETIME_NS) by {
        let p = still_fresh(now);
        s.messages.filter_lemma(p);
        if s.messages.filter(p).contains(e) {
            s.messages.lemma_filter_contains_rev(p, e);
            let w = choose|w: int| 0 <= w < s.messages.filter(p).len() && s.messages.filter(p)[w] == e;
            assert(p(s.messages.filter(p)[w]));
        }
        if s.messages.contains(e) && age(now, e.create_time) < MESSAGE_LIFETIME_NS {
            let w = choose|w: int| 0 <= w < s.messages.len() && s.messages[w] == e;
            assert(p(s.messages[w]));
        }
    }
}

/// A message registered under a hash not seen before is listed among its
/// group's messages, after those registered before it; the other groups'
/// lists are unchanged.
pub proof fn law_registered_message_is_listed(s: GroupModel, e: EntryModel, g: Seq<u8>)
    requires
        !s.known.contains(e.hash),
    ensures
        group_entries(register_effect(s, e).messages, e.group) == group_entries(s.messages, e.group).push(e),
        g != e.group ==> group_entries(register_effect(s, e).messages, g) == group_entries(s.messages, g),
{
    reveal(Seq::filter);
    let pushed = s.messages.push(e);
    assert(pushed.drop_last() =~= s.messages);
    assert(pushed.last() == e);
}

} // verus!
