//! The shards behaviour: which peers to reach, which shards they and we are
//! joined to, and what to send or report when any of that changes or an RPC
//! arrives.
use std::collections::hash_map::DefaultHasher;
use std::collections::VecDeque;

use cuckoofilter::CuckooFilter;
use fnv::FnvHashSet;
use vstd::prelude::*;

use crate::assoc::{
    assoc_remove, assoc_set, distinct, has_key, keys, lemma_assoc_remove_absent, lemma_assoc_remove_at,
    lemma_distinct_push, lemma_distinct_remove, lemma_remove_value_absent, lemma_remove_value_at, remove_value,
};
use crate::shards::protocol::{
    join_models, message_models, shard_names, JoinModel, MessageModel, Rpc, RpcModel, ShardsAction, ShardsJoin,
    ShardsMessage, clone_messages,
};
use crate::shards::peer_set::{peer_set_contains, peer_set_insert, peer_set_members, peer_set_new, peer_set_remove};
use crate::shards::received::{
    filter_add, filter_len, filter_reports, filter_test_and_add, new_received_filter, FilterOutcome,
};
use crate::shards::shard::{bytes_equal, Shard};
use crate::shards::shard_list::{
    shard_list_get, shard_list_len, shard_list_new, shard_list_position, shard_list_push, shard_list_remove, ShardList,
};

verus! {

/// The hop count given to the RPCs this node originates.
pub const DEFAULT_TTL: u8 = 6;

/// Configuration of the shards behaviour.
pub struct ShardsConfig {
    /// Peer id of the local node, as bytes. Used as the source of the
    /// messages we publish.
    pub local_peer_id: Vec<u8>,
    /// Whether messages we publish ourselves are also reported to us.
    pub join_local_messages: bool,
}

impl ShardsConfig {
    /// A configuration for the given local peer that does not report our own
    /// messages back to us.
    pub fn new(local_peer_id: Vec<u8>) -> (r: ShardsConfig)
        ensures
            r.local_peer_id@ == local_peer_id@,
            !r.join_local_messages,
    {
        ShardsConfig { local_peer_id, join_local_messages: false }
    }
}

/// How a connection to a remote was set up.
pub enum ConnectedPoint {
    /// We dialed the remote at `address`.
    Dialer { address: Vec<u8> },
    /// The remote dialed us; `send_back_addr` is where it can be reached.
    Listener { local_addr: Vec<u8>, send_back_addr: Vec<u8> },
}

/// Event that can happen on the shards behaviour.
#[derive(Debug)]
pub enum ShardsEvent {
    /// A message has been received.
    Message(ShardsMessage),
    /// A remote joined a shard.
    Joined { peer_id: Vec<u8>, shard: Shard },
    /// A remote left a shard.
    Left { peer_id: Vec<u8>, shard: Shard },
}

/// What a [`ShardsEvent`] holds, as plain values.
pub enum EventModel {
    Message(MessageModel),
    Joined(Seq<u8>, Seq<char>),
    Left(Seq<u8>, Seq<char>),
}

impl View for ShardsEvent {
    type V = EventModel;

    open spec fn view(&self) -> EventModel {
        match self {
            ShardsEvent::Message(m) => EventModel::Message(m@),
            ShardsEvent::Joined { peer_id, shard } => EventModel::Joined(peer_id@, shard@),
            ShardsEvent::Left { peer_id, shard } => EventModel::Left(peer_id@, shard@),
        }
    }
}

/// What the behaviour asks of the swarm.
#[derive(Debug)]
pub enum BehaviourAction {
    /// Report an event to the user.
    GenerateEvent(ShardsEvent),
    /// Dial the peer if we are not connected to it.
    DialPeer { peer_id: Vec<u8> },
    /// Send the RPC to the peer, on any of its connections.
    NotifyHandler { peer_id: Vec<u8>, event: Rpc },
}

/// What a [`BehaviourAction`] holds, as plain values.
pub enum ActionModel {
    Generate(EventModel),
    Dial(Seq<u8>),
    Notify(Seq<u8>, RpcModel),
}

impl View for BehaviourAction {
    type V = ActionModel;

    open spec fn view(&self) -> ActionModel {
        match self {
            BehaviourAction::GenerateEvent(e) => ActionModel::Generate(e@),
            BehaviourAction::DialPeer { peer_id } => ActionModel::Dial(peer_id@),
            BehaviourAction::NotifyHandler { peer_id, event } => ActionModel::Notify(peer_id@, event@),
        }
    }
}

/// Transmission between the connection handler and the behaviour.
pub enum InnerMessage {
    /// We received an RPC from a remote.
    Rx(Rpc),
    /// We successfully sent an RPC.
    Sent,
}

impl InnerMessage {
    /// The notice of a received RPC.
    pub fn from_rpc(rpc: Rpc) -> (r: InnerMessage)
        ensures
            r == InnerMessage::Rx(rpc),
    {
        InnerMessage::Rx(rpc)
    }

    /// The notice of a completed send.
    pub fn sent() -> (r: InnerMessage)
        ensures
            r == InnerMessage::Sent,
    {
        InnerMessage::Sent
    }
}

/// The models of a list of actions, in order.
pub open spec fn action_models(s: Seq<BehaviourAction>) -> Seq<ActionModel> {
    s.map_values(|a: BehaviourAction| a@)
}

/// The views of a list of byte strings, in order.
pub open spec fn byte_strings(s: Seq<Vec<u8>>) -> Seq<Seq<u8>> {
    s.map_values(|v: Vec<u8>| v@)
}

/// An RPC with one join or leave notice and the default hop count.
pub open spec fn join_notice(shard: Seq<char>, action: ShardsAction) -> RpcModel {
    RpcModel {
        messages: Seq::empty(),
        shards: seq![JoinModel { action, shard }],
        ttl: Some(DEFAULT_TTL),
    }
}

/// One notice per shard to a single peer.
pub open spec fn notices_of_shards(peer: Seq<u8>, shards: Seq<Seq<char>>, action: ShardsAction) -> Seq<ActionModel> {
    shards.map_values(|s: Seq<char>| ActionModel::Notify(peer, join_notice(s, action)))
}

/// One notice about a shard to each of the peers.
pub open spec fn notices_to_peers(peers: Seq<Seq<u8>>, shard: Seq<char>, action: ShardsAction) -> Seq<ActionModel> {
    peers.map_values(|p: Seq<u8>| ActionModel::Notify(p, join_notice(shard, action)))
}

/// The keyed list with `a` appended to the value under `k`, or with `(k, [a])`
/// appended when no entry has key `k`.
pub open spec fn assoc_append(s: Seq<(Seq<u8>, Seq<Seq<u8>>)>, k: Seq<u8>, a: Seq<u8>) -> Seq<(Seq<u8>, Seq<Seq<u8>>)> {
    if has_key(s, k) {
        s.map_values(|e: (Seq<u8>, Seq<Seq<u8>>)| if e.0 == k { (k, e.1.push(a)) } else { e })
    } else {
        s.push((k, seq![a]))
    }
}

/// `s` with `x` appended unless it already holds it.
pub open spec fn insert_value<A>(s: Seq<A>, x: A) -> Seq<A> {
    if s.contains(x) { s } else { s.push(x) }
}

/// What a [`Shards`] behaviour holds, as plain values.
pub struct ShardsModel {
    /// Actions not yet handed to the swarm, oldest first.
    pub events: Seq<ActionModel>,
    pub local_peer_id: Seq<u8>,
    pub join_local_messages: bool,
    /// Peers we want to stay connected to.
    pub target_peers: Set<Seq<u8>>,
    /// Peers we are connected to, with the shards each has joined.
    pub connected: Seq<(Seq<u8>, Seq<Seq<char>>)>,
    /// Addresses known for each peer.
    pub known: Seq<(Seq<u8>, Seq<Seq<u8>>)>,
    /// Shards we have joined.
    pub joined: Seq<Seq<char>>,
    /// The messages the received-filter reports as seen.
    pub received: Set<MessageModel>,
    /// How many fingerprints the received-filter holds.
    pub stored: nat,
}

/// The tables hold no peer or shard twice.
pub open spec fn model_wf(m: ShardsModel) -> bool {
    &&& distinct(keys(m.connected))
    &&& distinct(keys(m.known))
    &&& distinct(m.joined)
    &&& forall|i: int| 0 <= i < m.connected.len() ==> distinct(#[trigger] m.connected[i].1)
}

struct PeerShards {
    peer_id: Vec<u8>,
    shards: ShardList,
}

impl View for PeerShards {
    type V = (Seq<u8>, Seq<Seq<char>>);

    closed spec fn view(&self) -> (Seq<u8>, Seq<Seq<char>>) {
        (self.peer_id@, self.shards@)
    }
}

struct KnownPeer {
    peer_id: Vec<u8>,
    addresses: Vec<Vec<u8>>,
}

impl View for KnownPeer {
    type V = (Seq<u8>, Seq<Seq<u8>>);

    closed spec fn view(&self) -> (Seq<u8>, Seq<Seq<u8>>) {
        (self.peer_id@, byte_strings(self.addresses@))
    }
}

spec fn peer_models(s: Seq<PeerShards>) -> Seq<(Seq<u8>, Seq<Seq<char>>)> {
    s.map_values(|p: PeerShards| p@)
}

spec fn known_models(s: Seq<KnownPeer>) -> Seq<(Seq<u8>, Seq<Seq<u8>>)> {
    s.map_values(|p: KnownPeer| p@)
}

/// Network behaviour that handles the shards protocol.
pub struct Shards {
    events: VecDeque<BehaviourAction>,
    config: ShardsConfig,
    target_peers: FnvHashSet<Vec<u8>>,
    connected_peers: Vec<PeerShards>,
    known_peers: Vec<KnownPeer>,
    joined_shards: ShardList,
    received: CuckooFilter<DefaultHasher>,
}

impl View for Shards {
    type V = ShardsModel;

    closed spec fn view(&self) -> ShardsModel {
        ShardsModel {
            events: action_models(self.events@),
            local_peer_id: self.config.local_peer_id@,
            join_local_messages: self.config.join_local_messages,
            target_peers: peer_set_members(self.target_peers),
            connected: peer_models(self.connected_peers@),
            known: known_models(self.known_peers@),
            joined: self.joined_shards@,
            received: filter_reports(self.received),
            stored: filter_len(self.received),
        }
    }
}

/// Finds a shard in a list.
fn find_shard(s: &Vec<Shard>, x: &Shard) -> (r: Option<usize>)
    ensures
        match r {
            Some(i) => i < s@.len() && shard_names(s@)[i as int] == x@
                && forall|j: int| 0 <= j < i ==> shard_names(s@)[j] != x@,
            None => !shard_names(s@).contains(x@),
        },
{
    let mut i: usize = 0;
    while i < s.len()
        invariant
            i <= s@.len(),
            forall|j: int| 0 <= j < i ==> shard_names(s@)[j] != x@,
        decreases s@.len() - i,
    {
        if s[i].same_as(x) {
            return Some(i);
        }
        i = i + 1;
    }
    None
}

/// Finds the entry of a connected peer.
fn find_connected(s: &Vec<PeerShards>, x: &Vec<u8>) -> (r: Option<usize>)
    ensures
        match r {
            Some(i) => i < s@.len() && peer_models(s@)[i as int].0 == x@,
            None => !has_key(peer_models(s@), x@),
        },
{
    let mut i: usize = 0;
    while i < s.len()
        invariant
            i <= s@.len(),
            forall|j: int| 0 <= j < i ==> peer_models(s@)[j].0 != x@,
        decreases s@.len() - i,
    {
        if bytes_equal(&s[i].peer_id, x) {
            return Some(i);
        }
        i = i + 1;
    }
    None
}

/// Finds the entry of a known peer.
fn find_known(s: &Vec<KnownPeer>, x: &Vec<u8>) -> (r: Option<usize>)
    ensures
        match r {
            Some(i) => i < s@.len() && known_models(s@)[i as int].0 == x@,
            None => !has_key(known_models(s@), x@),
        },
{
    let mut i: usize = 0;
    while i < s.len()
        invariant
            i <= s@.len(),
            forall|j: int| 0 <= j < i ==> known_models(s@)[j].0 != x@,
        decreases s@.len() - i,
    {
        if bytes_equal(&s[i].peer_id, x) {
            return Some(i);
        }
        i = i + 1;
    }
    None
}

/// The RPC carrying one join or leave notice with the default hop count.
fn make_join_notice(shard: &Shard, action: ShardsAction) -> (r: Rpc)
    ensures
        r@ == join_notice(shard@, action),
{
    let j = ShardsJoin { action, shard: shard.clone() };
    let r = Rpc { messages: Vec::new(), shards: vec![j], ttl: Some(DEFAULT_TTL) };
    assert(r@.messages =~= Seq::<MessageModel>::empty());
    assert(r@.shards =~= seq![JoinModel { action, shard: shard@ }]);
    assert(r@ =~= join_notice(shard@, action));
    r
}

/// Appends one notice per shard, all to `peer`.
fn push_shard_notices(events: &mut VecDeque<BehaviourAction>, peer: &Vec<u8>, shards: &ShardList, action: ShardsAction)
    ensures
        action_models(final(events)@) == action_models(old(events)@) + notices_of_shards(peer@, shards@, action),
{
    let ghost start = action_models(events@);
    let ghost names = shards@;
    let n = shard_list_len(shards);
    let mut i: usize = 0;
    while i < n
        invariant
            n == shards@.len(),
            i <= n,
            names == shards@,
            action_models(events@) == start + notices_of_shards(peer@, names.take(i as int), action),
        decreases n - i,
    {
        let rpc = make_join_notice(shard_list_get(shards, i), action);
        let p = peer.clone();
        let a = BehaviourAction::NotifyHandler { peer_id: p, event: rpc };
        let ghost prev = events@;
        events.push_back(a);
        assert(events@ == prev.push(a));
        assert(names.take(i + 1) =~= names.take(i as int).push(names[i as int]));
        assert(a@ == ActionModel::Notify(peer@, join_notice(names[i as int], action)));
        assert(action_models(events@) =~= action_models(prev).push(a@));
        assert(notices_of_shards(peer@, names.take(i + 1), action) =~= notices_of_shards(peer@, names.take(i as int), action).push(a@));
        assert(action_models(events@) =~= start + notices_of_shards(peer@, names.take(i + 1), action));
        i = i + 1;
    }
    assert(names.take(shards@.len() as int) =~= names);
}

/// Appends one notice about `shard` to each connected peer.
fn push_peer_notices(events: &mut VecDeque<BehaviourAction>, peers: &Vec<PeerShards>, shard: &Shard, action: ShardsAction)
    ensures
        action_models(final(events)@) == action_models(old(events)@) + notices_to_peers(keys(peer_models(peers@)), shard@, action),
{
    let ghost start = action_models(events@);
    let ghost ks = keys(peer_models(peers@));
    let mut i: usize = 0;
    while i < peers.len()
        invariant
            i <= peers@.len(),
            ks == keys(peer_models(peers@)),
            action_models(events@) == start + notices_to_peers(ks.take(i as int), shard@, action),
        decreases peers@.len() - i,
    {
        let rpc = make_join_notice(shard, action);
        let p = peers[i].peer_id.clone();
        assert(p@ == ks[i as int]);
        let a = BehaviourAction::NotifyHandler { peer_id: p, event: rpc };
        let ghost prev = events@;
        events.push_back(a);
        assert(events@ == prev.push(a));
        assert(ks.take(i + 1) =~= ks.take(i as int).push(ks[i as int]));
        assert(a@ == ActionModel::Notify(ks[i as int], join_notice(shard@, action)));
        assert(action_models(events@) =~= action_models(prev).push(a@));
        assert(notices_to_peers(ks.take(i + 1), shard@, action) =~= notices_to_peers(ks.take(i as int), shard@, action).push(a@));
        assert(action_models(events@) =~= start + notices_to_peers(ks.take(i + 1), shard@, action));
        i = i + 1;
    }
    assert(ks.take(peers@.len() as int) =~= ks);
}

/// Some shard occurs in both lists.
pub open spec fn intersects(a: Seq<Seq<char>>, b: Seq<Seq<char>>) -> bool {
    exists|i: int, j: int| 0 <= i < a.len() && 0 <= j < b.len() && a[i] == b[j]
}

/// An RPC carrying the given messages and nothing else.
pub open spec fn messages_rpc(ms: Seq<MessageModel>, ttl: u8) -> RpcModel {
    RpcModel { messages: ms, shards: Seq::empty(), ttl: Some(ttl) }
}

/// Holds of the connected peers that have joined one of the message's shards.
pub open spec fn shares_shard_with(m: MessageModel) -> spec_fn((Seq<u8>, Seq<Seq<char>>)) -> bool {
    |e: (Seq<u8>, Seq<Seq<char>>)| intersects(e.1, m.shards)
}

/// One RPC carrying `m` to each connected peer that has joined one of its
/// shards, in the order of the peers.
pub open spec fn forward_notices(conn: Seq<(Seq<u8>, Seq<Seq<char>>)>, m: MessageModel) -> Seq<ActionModel> {
    conn.filter(shares_shard_with(m)).map_values(
        |e: (Seq<u8>, Seq<Seq<char>>)| ActionModel::Notify(e.0, messages_rpc(seq![m], DEFAULT_TTL)),
    )
}

/// What publishing `m` appends to the pending actions: the message itself,
/// reported to us when we joined one of its shards and asked for our own
/// messages; then, unless publishing is restricted to joined shards and we
/// joined none of them, one RPC to each connected peer sharing a shard.
pub open spec fn publish_events(s: ShardsModel, m: MessageModel, check_self_joins: bool) -> Seq<ActionModel> {
    let self_joined = intersects(s.joined, m.shards);
    (if self_joined && s.join_local_messages {
        seq![ActionModel::Generate(EventModel::Message(m))]
    } else {
        Seq::empty()
    }) + (if check_self_joins && !self_joined {
        Seq::empty()
    } else {
        forward_notices(s.connected, m)
    })
}

/// Adding `m` to the received-filter took `s` to `t`: either it found room,
/// so that the filter holds one more fingerprint and reports what it
/// reported before and `m` too, or it had to drop another record in
/// exchange, so that the count stays; the latter only once the filter
/// holds at least four fingerprints (a full bucket).
pub open spec fn recorded(s: ShardsModel, t: ShardsModel, m: MessageModel) -> bool {
    ||| t.stored == s.stored + 1 && s.received.subset_of(t.received) && t.received.contains(m)
    ||| t.stored == s.stored && s.stored >= 4
}

/// Publishing `m` took `s` to `t`: the actions of [`publish_events`] are
/// queued; when we joined one of its shards `m` is added to the
/// received-filter, otherwise the filter is untouched; nothing else changes.
pub open spec fn published(s: ShardsModel, t: ShardsModel, m: MessageModel, check_self_joins: bool) -> bool {
    &&& t == ShardsModel {
        events: s.events + publish_events(s, m, check_self_joins),
        received: t.received,
        stored: t.stored,
        ..s
    }
    &&& if intersects(s.joined, m.shards) {
        recorded(s, t, m)
    } else {
        t.received == s.received && t.stored == s.stored
    }
}

/// One test-and-add of the received-filter on `m`, answering `o`, taking
/// what it reports from `r` to `r2` and its count of fingerprints from `l`
/// to `l2`: it answers that it saw `m` exactly when it reported `m`, and is
/// then left as it was; otherwise it adds `m`, either finding room (one more
/// fingerprint; what was reported still is, and `m` too) or dropping another
/// record in exchange (the count stays), which only a filter holding at
/// least four fingerprints can have to do.
pub open spec fn filter_step(
    r: Set<MessageModel>,
    l: nat,
    m: MessageModel,
    o: FilterOutcome,
    r2: Set<MessageModel>,
    l2: nat,
) -> bool {
    &&& (o == FilterOutcome::AlreadySeen) == r.contains(m)
    &&& o == FilterOutcome::AlreadySeen ==> r2 == r && l2 == l
    &&& o == FilterOutcome::Added ==> r.subset_of(r2) && r2.contains(m) && l2 == l + 1
    &&& o == FilterOutcome::AddedDroppingAnother ==> l2 == l && l >= 4
}

/// Which messages count as new: those the filter did not answer as seen.
pub open spec fn new_flags(outs: Seq<FilterOutcome>) -> Seq<bool> {
    outs.map_values(|o: FilterOutcome| o != FilterOutcome::AlreadySeen)
}

/// The received-filter was offered each message of `msgs` in turn, taking
/// `s` to `t` and answering `outs`; `rs` and `ls` are what it reported and
/// how many fingerprints it held before each offer, and after the last.
pub open spec fn filter_trace(
    s: ShardsModel,
    t: ShardsModel,
    msgs: Seq<MessageModel>,
    outs: Seq<FilterOutcome>,
    rs: Seq<Set<MessageModel>>,
    ls: Seq<nat>,
) -> bool {
    &&& outs.len() == msgs.len()
    &&& rs.len() == msgs.len() + 1
    &&& ls.len() == msgs.len() + 1
    &&& rs[0] == s.received
    &&& ls[0] == s.stored
    &&& rs[msgs.len() as int] == t.received
    &&& ls[msgs.len() as int] == t.stored
    &&& forall|i: int| 0 <= i < msgs.len() ==> #[trigger] filter_step(rs[i], ls[i], msgs[i], outs[i], rs[i + 1], ls[i + 1])
}

/// Whether the two lists share a shard.
fn shards_intersect(a: &ShardList, b: &Vec<Shard>) -> (r: bool)
    ensures
        r == intersects(a@, shard_names(b@)),
{
    let n = shard_list_len(a);
    let mut i: usize = 0;
    while i < n
        invariant
            n == a@.len(),
            i <= n,
            forall|x: int, y: int| 0 <= x < i && 0 <= y < b@.len() ==> a@[x] != shard_names(b@)[y],
        decreases n - i,
    {
        let item = shard_list_get(a, i);
        match find_shard(b, item) {
            Some(j) => {
                assert(a@[i as int] == shard_names(b@)[j as int]);
                return true;
            },
            None => {
                assert forall|y: int| 0 <= y < b@.len() implies a@[i as int] != shard_names(b@)[y] by {
                    if a@[i as int] == shard_names(b@)[y] {
                        assert(shard_names(b@).contains(item@));
                    }
                }
            },
        }
        i = i + 1;
    }
    false
}

/// `rand::random::<[u8; 20]>()` as a vector: twenty bytes from the thread's
/// random generator. Only their number is stated.
#[verifier::external_body]
fn random_sequence_number() -> (r: Vec<u8>)
    ensures
        r@.len() == 20,
{
    rand::random::<[u8; 20]>().to_vec()
}

/// A peer's shard list after the join and leave notices, applied in order:
/// a join adds the shard unless present, a leave removes it.
pub open spec fn apply_joins(shards: Seq<Seq<char>>, joins: Seq<JoinModel>) -> Seq<Seq<char>>
    decreases joins.len(),
{
    if joins.len() == 0 {
        shards
    } else {
        let before = apply_joins(shards, joins.drop_last());
        let j = joins.last();
        match j.action {
            ShardsAction::Join => insert_value(before, j.shard),
            ShardsAction::Leave => remove_value(before, j.shard),
        }
    }
}

/// The event reporting one join or leave notice of `source`.
pub open spec fn join_event(source: Seq<u8>, j: JoinModel) -> ActionModel {
    ActionModel::Generate(match j.action {
        ShardsAction::Join => EventModel::Joined(source, j.shard),
        ShardsAction::Leave => EventModel::Left(source, j.shard),
    })
}

/// The events reporting the notices of `source`, in order.
pub open spec fn join_events(source: Seq<u8>, joins: Seq<JoinModel>) -> Seq<ActionModel> {
    joins.map_values(|j: JoinModel| join_event(source, j))
}

/// The connected-peer table after the notices of `source` are applied to its entry.
pub open spec fn connected_after_joins(
    conn: Seq<(Seq<u8>, Seq<Seq<char>>)>,
    source: Seq<u8>,
    joins: Seq<JoinModel>,
) -> Seq<(Seq<u8>, Seq<Seq<char>>)> {
    conn.map_values(|e: (Seq<u8>, Seq<Seq<char>>)| if e.0 == source { (e.0, apply_joins(e.1, joins)) } else { e })
}


/// A join or leave notice applied to a shard list without repeats.
fn apply_join(shards: &mut ShardList, j: &ShardsJoin)
    requires
        distinct(old(shards)@),
    ensures
        distinct(final(shards)@),
        final(shards)@ == match j@.action {
            ShardsAction::Join => insert_value(old(shards)@, j@.shard),
            ShardsAction::Leave => remove_value(old(shards)@, j@.shard),
        },
{
    let ghost s0 = shards@;
    match j.action {
        ShardsAction::Join => {
            if shard_list_position(shards, &j.shard).is_none() {
                shard_list_push(shards, j.shard.clone());
                proof {
                    lemma_distinct_push(s0, j@.shard);
                }
            }
        },
        ShardsAction::Leave => {
            match shard_list_position(shards, &j.shard) {
                Some(pos) => {
                    shard_list_remove(shards, pos);
                    proof {
                        lemma_remove_value_at(s0, j@.shard, pos as int);
                        lemma_distinct_remove(s0, pos as int);
                    }
                },
                None => {
                    proof {
                        lemma_remove_value_absent(s0, j@.shard);
                    }
                },
            }
        },
    }
}

/// The messages whose flag is set, in order.
pub open spec fn fresh_messages(msgs: Seq<MessageModel>, fresh: Seq<bool>) -> Seq<MessageModel>
    decreases msgs.len(),
{
    if msgs.len() == 0 {
        Seq::empty()
    } else {
        let before = fresh_messages(msgs.drop_last(), fresh.drop_last());
        if fresh.last() { before.push(msgs.last()) } else { before }
    }
}

/// Holds of the messages that belong to one of the shards.
pub open spec fn in_shards(joined: Seq<Seq<char>>) -> spec_fn(MessageModel) -> bool {
    |m: MessageModel| intersects(joined, m.shards)
}

/// The reports of the messages that belong to a shard we have joined.
pub open spec fn deliveries(ms: Seq<MessageModel>, joined: Seq<Seq<char>>) -> Seq<ActionModel> {
    ms.filter(in_shards(joined)).map_values(|m: MessageModel| ActionModel::Generate(EventModel::Message(m)))
}

/// The forwarding table with `m` queued for `p`: appended to the messages of
/// its entry, or in a new entry at the end.
pub open spec fn add_to_entry(
    t: Seq<(Seq<u8>, Seq<MessageModel>)>,
    p: Seq<u8>,
    m: MessageModel,
) -> Seq<(Seq<u8>, Seq<MessageModel>)> {
    if has_key(t, p) {
        t.map_values(|e: (Seq<u8>, Seq<MessageModel>)| if e.0 == p { (e.0, e.1.push(m)) } else { e })
    } else {
        t.push((p, seq![m]))
    }
}

/// The forwarding table with `m` queued for every connected peer, other than
/// `source`, that has joined one of its shards, taken in order.
pub open spec fn plan_forwarding(
    t: Seq<(Seq<u8>, Seq<MessageModel>)>,
    conn: Seq<(Seq<u8>, Seq<Seq<char>>)>,
    source: Seq<u8>,
    m: MessageModel,
) -> Seq<(Seq<u8>, Seq<MessageModel>)>
    decreases conn.len(),
{
    if conn.len() == 0 {
        t
    } else {
        let before = plan_forwarding(t, conn.drop_last(), source, m);
        let e = conn.last();
        if e.0 != source && intersects(e.1, m.shards) { add_to_entry(before, e.0, m) } else { before }
    }
}

/// The forwarding table built from the messages, in order, starting empty.
pub open spec fn dispatch_table(
    ms: Seq<MessageModel>,
    conn: Seq<(Seq<u8>, Seq<Seq<char>>)>,
    source: Seq<u8>,
) -> Seq<(Seq<u8>, Seq<MessageModel>)>
    decreases ms.len(),
{
    if ms.len() == 0 {
        Seq::empty()
    } else {
        plan_forwarding(dispatch_table(ms.drop_last(), conn, source), conn, source, ms.last())
    }
}

/// One RPC per entry of the forwarding table, with the given hop count.
pub open spec fn dispatch_notices(t: Seq<(Seq<u8>, Seq<MessageModel>)>, ttl: u8) -> Seq<ActionModel> {
    t.map_values(|e: (Seq<u8>, Seq<MessageModel>)| ActionModel::Notify(e.0, messages_rpc(e.1, ttl)))
}

struct PendingRpc {
    peer_id: Vec<u8>,
    messages: Vec<ShardsMessage>,
}

impl View for PendingRpc {
    type V = (Seq<u8>, Seq<MessageModel>);

    closed spec fn view(&self) -> (Seq<u8>, Seq<MessageModel>) {
        (self.peer_id@, message_models(self.messages@))
    }
}

spec fn pending_models(s: Seq<PendingRpc>) -> Seq<(Seq<u8>, Seq<MessageModel>)> {
    s.map_values(|p: PendingRpc| p@)
}

/// Queues `m` for `p` in the forwarding table.
fn add_entry(table: &mut Vec<PendingRpc>, p: &Vec<u8>, m: &ShardsMessage)
    requires
        distinct(keys(pending_models(old(table)@))),
    ensures
        distinct(keys(pending_models(final(table)@))),
        pending_models(final(table)@) == add_to_entry(pending_models(old(table)@), p@, m@),
{
    let ghost t0 = pending_models(table@);
    let mut i: usize = 0;
    while i < table.len()
        invariant
            i <= table@.len(),
            t0 == pending_models(table@),
            table@ == old(table)@,
            distinct(keys(t0)),
            forall|j: int| 0 <= j < i ==> t0[j].0 != p@,
        decreases table@.len() - i,
    {
        if bytes_equal(&table[i].peer_id, p) {
            assert(t0[i as int].0 == p@);
            let mut e = table.remove(i);
            let ghost prev = e.messages@;
            e.messages.push(m.clone());
            assert(message_models(e.messages@) =~= message_models(prev).push(m@));
            table.insert(i, e);
            proof {
                assert(has_key(t0, p@));
                assert forall|j: int| 0 <= j < t0.len() && j != i implies t0[j].0 != p@ by {
                    assert(keys(t0)[j] == t0[j].0);
                    assert(keys(t0)[i as int] == t0[i as int].0);
                }
                assert(pending_models(table@) =~= add_to_entry(t0, p@, m@));
                assert(keys(pending_models(table@)) =~= keys(t0));
            }
            return;
        }
        i = i + 1;
    }
    let mut ms: Vec<ShardsMessage> = Vec::new();
    ms.push(m.clone());
    let e = PendingRpc { peer_id: p.clone(), messages: ms };
    assert(e@ =~= (p@, seq![m@]));
    table.push(e);
    proof {
        assert(!has_key(t0, p@));
        assert(pending_models(table@) =~= t0.push((p@, seq![m@])));
        assert(keys(pending_models(table@)) =~= keys(t0).push(p@));
        assert(!keys(t0).contains(p@)) by {
            if keys(t0).contains(p@) {
                let j = choose|j: int| 0 <= j < keys(t0).len() && keys(t0)[j] == p@;
                assert(t0[j].0 == p@);
            }
        }
        lemma_distinct_push(keys(t0), p@);
    }
}

/// Queues `m` for every connected peer, other than `source`, that has joined
/// one of its shards.
fn plan_message(table: &mut Vec<PendingRpc>, conn: &Vec<PeerShards>, source: &Vec<u8>, m: &ShardsMessage)
    requires
        distinct(keys(pending_models(old(table)@))),
    ensures
        distinct(keys(pending_models(final(table)@))),
        pending_models(final(table)@) == plan_forwarding(pending_models(old(table)@), peer_models(conn@), source@, m@),
{
    let ghost t0 = pending_models(table@);
    let ghost cs = peer_models(conn@);
    let mut i: usize = 0;
    while i < conn.len()
        invariant
            i <= conn@.len(),
            cs == peer_models(conn@),
            distinct(keys(pending_models(table@))),
            pending_models(table@) == plan_forwarding(t0, cs.take(i as int), source@, m@),
        decreases conn@.len() - i,
    {
        assert(cs.take(i + 1).drop_last() =~= cs.take(i as int));
        assert(cs.take(i + 1).last() == cs[i as int]);
        if !bytes_equal(&conn[i].peer_id, source) && shards_intersect(&conn[i].shards, &m.shards) {
            add_entry(table, &conn[i].peer_id, m);
        }
        i = i + 1;
    }
    assert(cs.take(conn@.len() as int) =~= cs);
}

/// The hop count of an RPC; a missing one counts as the default.
pub open spec fn rpc_ttl(rpc: RpcModel) -> u8 {
    match rpc.ttl {
        Some(t) => t,
        None => DEFAULT_TTL,
    }
}

/// The state after an RPC from `source` is handled, given which of its
/// messages the received-filter took as new. An RPC with no hops left is
/// ignored. Otherwise the join and leave notices update the source's shards
/// and are reported; the new messages that belong to a shard we have joined
/// are reported; and the new messages are forwarded, one RPC per peer with
/// one hop less, to every other connected peer that has joined one of their
/// shards.
pub open spec fn rpc_effect(s: ShardsModel, source: Seq<u8>, rpc: RpcModel, fresh: Seq<bool>) -> ShardsModel {
    let ttl = rpc_ttl(rpc);
    if ttl < 1 {
        s
    } else {
        let conn = connected_after_joins(s.connected, source, rpc.shards);
        let fm = fresh_messages(rpc.messages, fresh);
        ShardsModel {
            events: s.events + join_events(source, rpc.shards) + deliveries(fm, s.joined)
                + dispatch_notices(dispatch_table(fm, conn, source), (ttl - 1) as u8),
            connected: conn,
            ..s
        }
    }
}

/// Handling an RPC from `source` needs its entry when the RPC carries notices.
pub open spec fn rpc_acceptable(s: ShardsModel, source: Seq<u8>, rpc: RpcModel) -> bool {
    rpc_ttl(rpc) >= 1 && rpc.shards.len() > 0 ==> has_key(s.connected, source)
}

impl Shards {
    /// The tables hold no peer or shard twice.
    pub open spec fn wf(&self) -> bool {
        model_wf(self@)
    }

    /// Creates a `Shards` with the default configuration.
    pub fn new(local_peer_id: Vec<u8>) -> (r: Shards)
        ensures
            r.wf(),
            r@ == (ShardsModel {
                events: Seq::empty(),
                local_peer_id: local_peer_id@,
                join_local_messages: false,
                target_peers: Set::empty(),
                connected: Seq::empty(),
                known: Seq::empty(),
                joined: Seq::empty(),
                received: Set::empty(),
                stored: 0,
            }),
    {
        Self::from_config(ShardsConfig::new(local_peer_id))
    }

    /// Creates a `Shards` with the given configuration.
    pub fn from_config(config: ShardsConfig) -> (r: Shards)
        ensures
            r.wf(),
            r@ == (ShardsModel {
                events: Seq::empty(),
                local_peer_id: config.local_peer_id@,
                join_local_messages: config.join_local_messages,
                target_peers: Set::empty(),
                connected: Seq::empty(),
                known: Seq::empty(),
                joined: Seq::empty(),
                received: Set::empty(),
                stored: 0,
            }),
    {
        let r = Shards {
            events: VecDeque::new(),
            config,
            target_peers: peer_set_new(),
            connected_peers: Vec::new(),
            known_peers: Vec::new(),
            joined_shards: shard_list_new(),
            received: new_received_filter(),
        };
        assert(r@.events =~= Seq::empty());
        assert(r@.connected =~= Seq::empty());
        assert(r@.known =~= Seq::empty());
        assert(r@.joined =~= Seq::empty());
        r
    }

    /// Whether we are connected to the peer.
    pub fn is_connected(&self, peer_id: &Vec<u8>) -> (r: bool)
        ensures
            r == has_key(self@.connected, peer_id@),
    {
        find_connected(&self.connected_peers, peer_id).is_some()
    }

    /// Records the addresses at which a peer can be reached, replacing those
    /// known before.
    pub fn add_known_peer(&mut self, peer_id: Vec<u8>, addrs: Vec<Vec<u8>>)
        requires
            old(self).wf(),
        ensures
            final(self).wf(),
            final(self)@ == (ShardsModel {
                known: assoc_set(old(self)@.known, peer_id@, byte_strings(addrs@)),
                ..old(self)@
            }),
    {
        let ghost k = peer_id@;
        let ghost v = byte_strings(addrs@);
        let ghost old_known = self@.known;
        let entry = KnownPeer { peer_id, addresses: addrs };
        assert(entry@ == (k, v));
        match find_known(&self.known_peers, &entry.peer_id) {
            Some(i) => {
                self.known_peers.set(i, entry);
                proof {
                    assert(has_key(old_known, k));
                    assert forall|j: int| 0 <= j < old_known.len() && j != i implies old_known[j].0 != k by {
                        assert(keys(old_known)[j] == old_known[j].0);
                        assert(keys(old_known)[i as int] == old_known[i as int].0);
                    }
                    assert(self@.known =~= assoc_set(old_known, k, v));
                    assert(keys(self@.known) =~= keys(old_known));
                }
            },
            None => {
                self.known_peers.push(entry);
                proof {
                    assert(self@.known =~= old_known.push((k, v)));
                    assert(keys(self@.known) =~= keys(old_known).push(k));
                    assert(!keys(old_known).contains(k)) by {
                        if keys(old_known).contains(k) {
                            let j = choose|j: int| 0 <= j < keys(old_known).len() && keys(old_known)[j] == k;
                            assert(old_known[j].0 == k);
                        }
                    }
                }
            },
        }
    }

    /// Adds a node to the nodes we propagate messages to: if we are connected
    /// to it, it is told every shard we have joined; if it was not a target
    /// yet, it becomes one and is dialed.
    pub fn add_node_to_partial_view(&mut self, peer_id: Vec<u8>)
        requires
            old(self).wf(),
        ensures
            final(self).wf(),
            final(self)@ == (ShardsModel {
                events: old(self)@.events
                    + (if has_key(old(self)@.connected, peer_id@) {
                        notices_of_shards(peer_id@, old(self)@.joined, ShardsAction::Join)
                    } else {
                        Seq::empty()
                    })
                    + (if old(self)@.target_peers.contains(peer_id@) {
                        Seq::empty()
                    } else {
                        seq![ActionModel::Dial(peer_id@)]
                    }),
                target_peers: old(self)@.target_peers.insert(peer_id@),
                ..old(self)@
            }),
    {
        let ghost e0 = self@.events;
        let ghost notices = if has_key(self@.connected, peer_id@) {
            notices_of_shards(peer_id@, self@.joined, ShardsAction::Join)
        } else {
            Seq::empty()
        };
        if find_connected(&self.connected_peers, &peer_id).is_some() {
            push_shard_notices(&mut self.events, &peer_id, &self.joined_shards, ShardsAction::Join);
        }
        assert(self@.events =~= e0 + notices);
        let ghost e1 = self@.events;
        if peer_set_insert(&mut self.target_peers, peer_id.clone()) {
            let a = BehaviourAction::DialPeer { peer_id };
            let ghost prev = self.events@;
            self.events.push_back(a);
            proof {
                assert(self.events@ == prev.push(a));
                assert(self@.events =~= e1 + seq![ActionModel::Dial(a@->Dial_0)]);
            }
        } else {
            assert(self@.events =~= e1 + Seq::<ActionModel>::empty());
        }
    }

    /// Removes a node from the nodes we propagate messages to.
    pub fn remove_node_from_partial_view(&mut self, peer_id: &Vec<u8>)
        requires
            old(self).wf(),
        ensures
            final(self).wf(),
            final(self)@ == (ShardsModel {
                target_peers: old(self)@.target_peers.remove(peer_id@),
                ..old(self)@
            }),
    {
        peer_set_remove(&mut self.target_peers, peer_id);
    }

    /// Joins a shard: every connected peer is told. Returns true if the join
    /// happened, false if we had joined the shard already.
    pub fn join(&mut self, shard: Shard) -> (r: bool)
        requires
            old(self).wf(),
        ensures
            final(self).wf(),
            r == !old(self)@.joined.contains(shard@),
            r ==> final(self)@ == (ShardsModel {
                events: old(self)@.events + notices_to_peers(keys(old(self)@.connected), shard@, ShardsAction::Join),
                joined: old(self)@.joined.push(shard@),
                ..old(self)@
            }),
            !r ==> final(self)@ == old(self)@,
    {
        if shard_list_position(&self.joined_shards, &shard).is_some() {
            return false;
        }
        let ghost j0 = self@.joined;
        push_peer_notices(&mut self.events, &self.connected_peers, &shard, ShardsAction::Join);
        let ghost name = shard@;
        shard_list_push(&mut self.joined_shards, shard);
        true
    }

    /// Leaves a shard: every connected peer is told. Returns true if we had
    /// joined the shard.
    pub fn leave(&mut self, shard: Shard) -> (r: bool)
        requires
            old(self).wf(),
        ensures
            final(self).wf(),
            r == old(self)@.joined.contains(shard@),
            r ==> final(self)@ == (ShardsModel {
                events: old(self)@.events + notices_to_peers(keys(old(self)@.connected), shard@, ShardsAction::Leave),
                joined: remove_value(old(self)@.joined, shard@),
                ..old(self)@
            }),
            !r ==> final(self)@ == old(self)@,
    {
        let pos = match shard_list_position(&self.joined_shards, &shard) {
            Some(pos) => pos,
            None => return false,
        };
        let ghost j0 = self@.joined;
        shard_list_remove(&mut self.joined_shards, pos);
        proof {
            lemma_remove_value_at(j0, shard@, pos as int);
            lemma_distinct_remove(j0, pos as int);
        }
        push_peer_notices(&mut self.events, &self.connected_peers, &shard, ShardsAction::Leave);
        true
    }

    /// The addresses known for a peer; none when it is unknown.
    pub fn addresses_of_peer(&self, peer_id: &Vec<u8>) -> (r: Vec<Vec<u8>>)
        requires
            self.wf(),
        ensures
            !has_key(self@.known, peer_id@) ==> r@.len() == 0,
            forall|i: int| 0 <= i < self@.known.len() && #[trigger] self@.known[i].0 == peer_id@ ==> byte_strings(r@) == self@.known[i].1,
    {
        match find_known(&self.known_peers, peer_id) {
            None => Vec::new(),
            Some(i) => {
                let addrs = &self.known_peers[i].addresses;
                let mut r: Vec<Vec<u8>> = Vec::new();
                let mut j: usize = 0;
                while j < addrs.len()
                    invariant
                        j <= addrs@.len(),
                        byte_strings(r@) =~= byte_strings(addrs@).take(j as int),
                    decreases addrs@.len() - j,
                {
                    let a = addrs[j].clone();
                    let ghost prev = r@;
                    r.push(a);
                    assert(byte_strings(r@) =~= byte_strings(prev).push(a@));
                    j = j + 1;
                }
                proof {
                    assert(byte_strings(addrs@).take(addrs@.len() as int) =~= byte_strings(addrs@));
                    let known = self@.known;
                    assert forall|k: int| 0 <= k < known.len() && #[trigger] known[k].0 == peer_id@ implies byte_strings(r@) == known[k].1 by {
                        assert(keys(known)[k] == known[k].0);
                        assert(keys(known)[i as int] == known[i as int].0);
                    }
                }
                r
            },
        }
    }

    /// A connection to `remote` was established: the address it was reached
    /// at (ours when dialing, its own when it dialed us) is recorded, and it
    /// becomes a target peer.
    pub fn inject_connection_established(&mut self, remote: &Vec<u8>, point: &ConnectedPoint)
        requires
            old(self).wf(),
        ensures
            final(self).wf(),
            final(self)@ == (ShardsModel {
                known: assoc_append(old(self)@.known, remote@, match point {
                    ConnectedPoint::Dialer { address } => address@,
                    ConnectedPoint::Listener { send_back_addr, .. } => send_back_addr@,
                }),
                target_peers: old(self)@.target_peers.insert(remote@),
                ..old(self)@
            }),
    {
        let address = match point {
            ConnectedPoint::Dialer { address } => address.clone(),
            ConnectedPoint::Listener { send_back_addr, .. } => send_back_addr.clone(),
        };
        let ghost a = address@;
        let ghost k = remote@;
        let ghost old_known = self@.known;
        match find_known(&self.known_peers, remote) {
            Some(i) => {
                let mut entry = self.known_peers.remove(i);
                let ghost prev = entry.addresses@;
                entry.addresses.push(address);
                assert(byte_strings(entry.addresses@) =~= byte_strings(prev).push(a));
                self.known_peers.insert(i, entry);
                proof {
                    assert forall|j: int| 0 <= j < old_known.len() && j != i implies old_known[j].0 != k by {
                        assert(keys(old_known)[j] == old_known[j].0);
                        assert(keys(old_known)[i as int] == old_known[i as int].0);
                    }
                    assert(self@.known =~= assoc_append(old_known, k, a));
                    assert(keys(self@.known) =~= keys(old_known));
                }
            },
            None => {
                let mut addrs: Vec<Vec<u8>> = Vec::new();
                addrs.push(address);
                let entry = KnownPeer { peer_id: remote.clone(), addresses: addrs };
                assert(byte_strings(entry.addresses@) =~= seq![a]);
                self.known_peers.push(entry);
                proof {
                    assert(self@.known =~= old_known.push((k, seq![a])));
                    assert(keys(self@.known) =~= keys(old_known).push(k));
                    assert(!keys(old_known).contains(k)) by {
                        if keys(old_known).contains(k) {
                            let j = choose|j: int| 0 <= j < keys(old_known).len() && keys(old_known)[j] == k;
                            assert(old_known[j].0 == k);
                        }
                    }
                }
            },
        }
        peer_set_insert(&mut self.target_peers, remote.clone());
    }

    /// A first connection to `peer_id` was opened: if it is a target peer it is
    /// told every shard we have joined, and it is recorded as connected with
    /// no shards.
    pub fn inject_connected(&mut self, peer_id: &Vec<u8>)
        requires
            old(self).wf(),
        ensures
            final(self).wf(),
            final(self)@ == (ShardsModel {
                events: old(self)@.events + (if old(self)@.target_peers.contains(peer_id@) {
                    notices_of_shards(peer_id@, old(self)@.joined, ShardsAction::Join)
                } else {
                    Seq::empty()
                }),
                connected: assoc_set(old(self)@.connected, peer_id@, Seq::empty()),
                ..old(self)@
            }),
    {
        let ghost e0 = self@.events;
        if peer_set_contains(&self.target_peers, peer_id) {
            push_shard_notices(&mut self.events, peer_id, &self.joined_shards, ShardsAction::Join);
        } else {
            assert(self@.events =~= e0 + Seq::<ActionModel>::empty());
        }
        let ghost k = peer_id@;
        let ghost v = Seq::<Seq<char>>::empty();
        let ghost old_conn = self@.connected;
        let entry = PeerShards { peer_id: peer_id.clone(), shards: shard_list_new() };
        assert(entry@ =~= (k, v));
        match find_connected(&self.connected_peers, peer_id) {
            Some(i) => {
                self.connected_peers.set(i, entry);
                proof {
                    assert forall|j: int| 0 <= j < old_conn.len() && j != i implies old_conn[j].0 != k by {
                        assert(keys(old_conn)[j] == old_conn[j].0);
                        assert(keys(old_conn)[i as int] == old_conn[i as int].0);
                    }
                    assert(self@.connected =~= assoc_set(old_conn, k, v));
                    assert(keys(self@.connected) =~= keys(old_conn));
                    assert forall|j: int| 0 <= j < self@.connected.len() implies distinct(#[trigger] self@.connected[j].1) by {
                        if j != i {
                            assert(self@.connected[j] == old_conn[j]);
                        }
                    }
                }
            },
            None => {
                self.connected_peers.push(entry);
                proof {
                    assert(self@.connected =~= old_conn.push((k, v)));
                    assert(keys(self@.connected) =~= keys(old_conn).push(k));
                    assert(!keys(old_conn).contains(k)) by {
                        if keys(old_conn).contains(k) {
                            let j = choose|j: int| 0 <= j < keys(old_conn).len() && keys(old_conn)[j] == k;
                            assert(old_conn[j].0 == k);
                        }
                    }
                    assert forall|j: int| 0 <= j < self@.connected.len() implies distinct(#[trigger] self@.connected[j].1) by {
                        if j < old_conn.len() {
                            assert(self@.connected[j] == old_conn[j]);
                        }
                    }
                }
            },
        }
    }

    /// The last connection to `peer_id` closed: it is no longer connected, and
    /// if it is a target peer it is dialed again.
    pub fn inject_disconnected(&mut self, peer_id: &Vec<u8>)
        requires
            old(self).wf(),
        ensures
            final(self).wf(),
            final(self)@ == (ShardsModel {
                events: old(self)@.events + (if old(self)@.target_peers.contains(peer_id@) {
                    seq![ActionModel::Dial(peer_id@)]
                } else {
                    Seq::empty()
                }),
                connected: assoc_remove(old(self)@.connected, peer_id@),
                ..old(self)@
            }),
    {
        let ghost old_conn = self@.connected;
        match find_connected(&self.connected_peers, peer_id) {
            Some(i) => {
                self.connected_peers.remove(i);
                proof {
                    lemma_assoc_remove_at(old_conn, peer_id@, i as int);
                    assert(self@.connected =~= old_conn.remove(i as int));
                    assert(keys(self@.connected) =~= keys(old_conn).remove(i as int));
                    lemma_distinct_remove(keys(old_conn), i as int);
                    assert forall|j: int| 0 <= j < self@.connected.len() implies distinct(#[trigger] self@.connected[j].1) by {
                        if j < i {
                            assert(self@.connected[j] == old_conn[j]);
                        } else {
                            assert(self@.connected[j] == old_conn[j + 1]);
                        }
                    }
                }
            },
            None => {
                proof {
                    lemma_assoc_remove_absent(old_conn, peer_id@);
                }
            },
        }
        let ghost e0 = self@.events;
        if peer_set_contains(&self.target_peers, peer_id) {
            let a = BehaviourAction::DialPeer { peer_id: peer_id.clone() };
            let ghost prev = self.events@;
            self.events.push_back(a);
            assert(self.events@ == prev.push(a));
            assert(self@.events =~= e0 + seq![ActionModel::Dial(peer_id@)]);
        } else {
            assert(self@.events =~= e0 + Seq::<ActionModel>::empty());
        }
    }

    /// Hands the oldest pending action to the swarm, if any.
    pub fn poll(&mut self) -> (r: Option<BehaviourAction>)
        requires
            old(self).wf(),
        ensures
            final(self).wf(),
            match r {
                Some(a) => old(self)@.events.len() > 0 && a@ == old(self)@.events[0]
                    && final(self)@ == (ShardsModel { events: old(self)@.events.drop_first(), ..old(self)@ }),
                None => old(self)@.events.len() == 0 && final(self)@ == old(self)@,
            },
    {
        let ghost e0 = self.events@;
        let r = self.events.pop_front();
        if r.is_some() {
            assert(self@.events =~= action_models(e0).drop_first());
        }
        r
    }

    /// Publishes `message`: records it as received, reports it to us if we
    /// joined one of its shards and asked for our own messages, and sends it
    /// to every connected peer that joined one of its shards, unless
    /// `check_self_joins` is set and we joined none of them.
    pub fn publish_message(&mut self, message: ShardsMessage, check_self_joins: bool)
        requires
            old(self).wf(),
        ensures
            final(self).wf(),
            published(old(self)@, final(self)@, message@, check_self_joins),
    {
        let ghost m = message@;
        let ghost s0 = self@;
        let ghost e0 = self@.events;
        let self_joined = shards_intersect(&self.joined_shards, &message.shards);
        if self_joined {
            let _ = filter_add(&mut self.received, &message);
            assert(recorded(s0, self@, m));
            if self.config.join_local_messages {
                let a = BehaviourAction::GenerateEvent(ShardsEvent::Message(message.clone()));
                let ghost prev = self.events@;
                self.events.push_back(a);
                assert(self.events@ == prev.push(a));
                assert(self@.events =~= e0 + seq![ActionModel::Generate(EventModel::Message(m))]);
            } else {
                assert(self@.events =~= e0 + Seq::<ActionModel>::empty());
            }
        } else {
            assert(self@.events =~= e0 + Seq::<ActionModel>::empty());
        }
        let ghost e1 = self@.events;
        let ghost s1 = self@;
        if check_self_joins && !self_joined {
            assert(self@.events =~= e0 + publish_events(s0, m, check_self_joins));
            return;
        }
        let ghost conn = s0.connected;
        let ghost pred = shares_shard_with(m);
        let ghost f = |e: (Seq<u8>, Seq<Seq<char>>)| ActionModel::Notify(e.0, messages_rpc(seq![m], DEFAULT_TTL));
        let mut i: usize = 0;
        while i < self.connected_peers.len()
            invariant
                i <= self.connected_peers@.len(),
                self@ == (ShardsModel { events: self@.events, ..s1 }),
                s1 == (ShardsModel { events: e1, received: s1.received, stored: s1.stored, ..s0 }),
                conn == self@.connected,
                message@ == m,
                pred == shares_shard_with(m),
                f == (|e: (Seq<u8>, Seq<Seq<char>>)| ActionModel::Notify(e.0, messages_rpc(seq![m], DEFAULT_TTL))),
                self@.events == e1 + conn.take(i as int).filter(pred).map_values(f),
            decreases self.connected_peers@.len() - i,
        {
            proof {
                reveal(Seq::filter);
                assert(conn.take(i + 1).drop_last() =~= conn.take(i as int));
                assert(conn.take(i + 1).last() == conn[i as int]);
            }
            if shards_intersect(&self.connected_peers[i].shards, &message.shards) {
                let rpc = Rpc { shards: Vec::new(), messages: vec![message.clone()], ttl: Some(DEFAULT_TTL) };
                assert(rpc@ =~= messages_rpc(seq![m], DEFAULT_TTL)) by {
                    assert(rpc@.messages =~= seq![m]);
                    assert(rpc@.shards =~= Seq::<JoinModel>::empty());
                }
                let a = BehaviourAction::NotifyHandler { peer_id: self.connected_peers[i].peer_id.clone(), event: rpc };
                let ghost prev = self.events@;
                let ghost prev_model = self@.events;
                self.events.push_back(a);
                proof {
                    assert(self.events@ == prev.push(a));
                    assert(prev_model == action_models(prev));
                    assert(self@.events =~= prev_model.push(a@));
                    assert(a@ == f(conn[i as int]));
                    assert(pred(conn[i as int]));
                    assert(conn.take(i + 1).filter(pred) == conn.take(i as int).filter(pred).push(conn[i as int]));
                    assert(conn.take(i + 1).filter(pred).map_values(f) =~= conn.take(i as int).filter(pred).map_values(f).push(a@));
                    assert(self@.events =~= e1 + conn.take(i + 1).filter(pred).map_values(f));
                }
            } else {
                proof {
                    assert(!pred(conn[i as int]));
                    assert(conn.take(i + 1).filter(pred) == conn.take(i as int).filter(pred));
                }
            }
            i = i + 1;
        }
        assert(conn.take(conn.len() as int) =~= conn);
        assert(self@.events =~= e0 + publish_events(s0, m, check_self_joins));
    }

    /// Publishes `data` to the shards as a message from the local peer. Its
    /// sequence number is twenty random bytes: numbers an attacker could
    /// predict would let it flood the network with those numbers first and
    /// have our own messages taken as already seen.
    fn publish_many_inner(&mut self, shards: Vec<Shard>, data: Vec<u8>, check_self_joins: bool)
        requires
            old(self).wf(),
        ensures
            final(self).wf(),
            exists|sequence_number: Seq<u8>| sequence_number.len() == 20
                && published(old(self)@, final(self)@, MessageModel {
                    source: old(self)@.local_peer_id,
                    data: data@,
                    sequence_number,
                    shards: shard_names(shards@),
                }, check_self_joins),
    {
        let message = ShardsMessage {
            source: self.config.local_peer_id.clone(),
            data,
            sequence_number: random_sequence_number(),
            shards,
        };
        let ghost sn = message.sequence_number@;
        self.publish_message(message, check_self_joins);
    }

    /// Publishes a message to the network, if we have joined the shard.
    pub fn publish(&mut self, shard: Shard, data: Vec<u8>)
        requires
            old(self).wf(),
        ensures
            final(self).wf(),
            exists|sequence_number: Seq<u8>| sequence_number.len() == 20
                && published(old(self)@, final(self)@, MessageModel {
                    source: old(self)@.local_peer_id,
                    data: data@,
                    sequence_number,
                    shards: seq![shard@],
                }, true),
    {
        let ghost name = shard@;
        let shards = vec![shard];
        assert(shard_names(shards@) =~= seq![name]);
        self.publish_many_inner(shards, data, true)
    }

    /// Publishes a message to the network, even if we have not joined the shard.
    pub fn publish_any(&mut self, shard: Shard, data: Vec<u8>)
        requires
            old(self).wf(),
        ensures
            final(self).wf(),
            exists|sequence_number: Seq<u8>| sequence_number.len() == 20
                && published(old(self)@, final(self)@, MessageModel {
                    source: old(self)@.local_peer_id,
                    data: data@,
                    sequence_number,
                    shards: seq![shard@],
                }, false),
    {
        let ghost name = shard@;
        let shards = vec![shard];
        assert(shard_names(shards@) =~= seq![name]);
        self.publish_many_inner(shards, data, false)
    }

    /// Publishes a message belonging to several shards. Does nothing if we
    /// have joined none of them.
    pub fn publish_many(&mut self, shards: Vec<Shard>, data: Vec<u8>)
        requires
            old(self).wf(),
        ensures
            final(self).wf(),
            exists|sequence_number: Seq<u8>| sequence_number.len() == 20
                && published(old(self)@, final(self)@, MessageModel {
                    source: old(self)@.local_peer_id,
                    data: data@,
                    sequence_number,
                    shards: shard_names(shards@),
                }, true),
    {
        self.publish_many_inner(shards, data, true)
    }

    /// Publishes a message belonging to several shards, even if we have joined
    /// none of them.
    pub fn publish_many_any(&mut self, shards: Vec<Shard>, data: Vec<u8>)
        requires
            old(self).wf(),
        ensures
            final(self).wf(),
            exists|sequence_number: Seq<u8>| sequence_number.len() == 20
                && published(old(self)@, final(self)@, MessageModel {
                    source: old(self)@.local_peer_id,
                    data: data@,
                    sequence_number,
                    shards: shard_names(shards@),
                }, false),
    {
        self.publish_many_inner(shards, data, false)
    }

    /// Applies the join and leave notices of `source` to its entry and reports
    /// each of them.
    fn apply_join_notices(&mut self, source: &Vec<u8>, joins: &Vec<ShardsJoin>)
        requires
            old(self).wf(),
            joins@.len() > 0 ==> has_key(old(self)@.connected, source@),
        ensures
            final(self).wf(),
            final(self)@ == (ShardsModel {
                events: old(self)@.events + join_events(source@, join_models(joins@)),
                connected: connected_after_joins(old(self)@.connected, source@, join_models(joins@)),
                ..old(self)@
            }),
    {
        let ghost s0 = self@;
        let ghost js = join_models(joins@);
        if joins.len() == 0 {
            assert(self@.events =~= s0.events + join_events(source@, js));
            assert(self@.connected =~= connected_after_joins(s0.connected, source@, js));
            return;
        }
        let k = match find_connected(&self.connected_peers, source) {
            Some(k) => k,
            None => {
                assert(false);
                return;
            },
        };
        let ghost conn = s0.connected;
        proof {
            assert forall|x: int| 0 <= x < conn.len() && x != k implies conn[x].0 != source@ by {
                assert(keys(conn)[x] == conn[x].0);
                assert(keys(conn)[k as int] == conn[k as int].0);
            }
        }
        let mut entry = self.connected_peers.remove(k);
        assert(self@.connected =~= conn.remove(k as int));
        assert(self@.events =~= s0.events + join_events(source@, js.take(0)));
        let ghost start_shards = entry.shards@;
        assert(start_shards == conn[k as int].1);
        let mut i: usize = 0;
        while i < joins.len()
            invariant
                i <= joins@.len(),
                js == join_models(joins@),
                entry.peer_id@ == source@,
                k < conn.len(),
                self.connected_peers@.len() + 1 == conn.len(),
                distinct(entry.shards@),
                entry.shards@ == apply_joins(start_shards, js.take(i as int)),
                self@ == (ShardsModel { events: self@.events, connected: conn.remove(k as int), ..s0 }),
                self@.events == s0.events + join_events(source@, js.take(i as int)),
            decreases joins@.len() - i,
        {
            let j = &joins[i];
            assert(js.take(i + 1).drop_last() =~= js.take(i as int));
            assert(js.take(i + 1).last() == j@);
            apply_join(&mut entry.shards, j);
            let ev = match j.action {
                ShardsAction::Join => ShardsEvent::Joined { peer_id: source.clone(), shard: j.shard.clone() },
                ShardsAction::Leave => ShardsEvent::Left { peer_id: source.clone(), shard: j.shard.clone() },
            };
            let a = BehaviourAction::GenerateEvent(ev);
            let ghost prev = self.events@;
            let ghost prev_model = self@.events;
            self.events.push_back(a);
            proof {
                assert(self.events@ == prev.push(a));
                assert(self@.events =~= prev_model.push(a@));
                assert(a@ == join_event(source@, j@));
                assert(js.take(i + 1) =~= js.take(i as int).push(j@));
                assert(join_events(source@, js.take(i + 1)) =~= join_events(source@, js.take(i as int)).push(a@));
            }
            i = i + 1;
        }
        assert(js.take(joins@.len() as int) =~= js);
        let ghost new_entry = entry@;
        self.connected_peers.insert(k, entry);
        proof {
            assert(new_entry == (source@, apply_joins(conn[k as int].1, js)));
            assert(self@.connected =~= conn.remove(k as int).insert(k as int, new_entry));
            assert(self@.connected =~= connected_after_joins(conn, source@, js));
            assert(keys(self@.connected) =~= keys(conn));
            assert forall|x: int| 0 <= x < self@.connected.len() implies distinct(#[trigger] self@.connected[x].1) by {
                if x != k {
                    assert(self@.connected[x] == conn[x]);
                }
            }
        }
    }

    /// Reports the flagged messages that belong to a shard we have joined and
    /// forwards them, grouped per peer, to every other connected peer that
    /// has joined one of their shards.
    fn dispatch_messages(&mut self, source: &Vec<u8>, msgs: &Vec<ShardsMessage>, fresh: &Vec<bool>, ttl: u8)
        requires
            old(self).wf(),
            fresh@.len() == msgs@.len(),
        ensures
            final(self).wf(),
            final(self)@ == (ShardsModel {
                events: old(self)@.events
                    + deliveries(fresh_messages(message_models(msgs@), fresh@), old(self)@.joined)
                    + dispatch_notices(dispatch_table(fresh_messages(message_models(msgs@), fresh@), old(self)@.connected, source@), ttl),
                ..old(self)@
            }),
    {
        let ghost s0 = self@;
        let ghost ms = message_models(msgs@);
        let ghost fl = fresh@;
        let mut table: Vec<PendingRpc> = Vec::new();
        let mut i: usize = 0;
        assert(pending_models(table@) =~= Seq::<(Seq<u8>, Seq<MessageModel>)>::empty());
        proof {
            reveal(Seq::filter);
            assert(ms.take(0) =~= Seq::<MessageModel>::empty());
            assert(self@.events =~= s0.events + deliveries(fresh_messages(ms.take(0), fl.take(0)), s0.joined));
        }
        while i < msgs.len()
            invariant
                i <= msgs@.len(),
                fresh@.len() == msgs@.len(),
                ms == message_models(msgs@),
                fl == fresh@,
                self@ == (ShardsModel { events: self@.events, ..s0 }),
                self@.events == s0.events + deliveries(fresh_messages(ms.take(i as int), fl.take(i as int)), s0.joined),
                distinct(keys(pending_models(table@))),
                pending_models(table@) == dispatch_table(fresh_messages(ms.take(i as int), fl.take(i as int)), s0.connected, source@),
            decreases msgs@.len() - i,
        {
            let ghost before = fresh_messages(ms.take(i as int), fl.take(i as int));
            proof {
                assert(ms.take(i + 1).drop_last() =~= ms.take(i as int));
                assert(fl.take(i + 1).drop_last() =~= fl.take(i as int));
                assert(ms.take(i + 1).last() == ms[i as int]);
            }
            if fresh[i] {
                let m = &msgs[i];
                let ghost after = before.push(m@);
                assert(fresh_messages(ms.take(i + 1), fl.take(i + 1)) == after);
                proof {
                    reveal(Seq::filter);
                    assert(after.drop_last() =~= before);
                }
                if shards_intersect(&self.joined_shards, &m.shards) {
                    let a = BehaviourAction::GenerateEvent(ShardsEvent::Message(m.clone()));
                    let ghost prev = self.events@;
                    let ghost prev_model = self@.events;
                    self.events.push_back(a);
                    proof {
                        assert(self.events@ == prev.push(a));
                        assert(self@.events =~= prev_model.push(a@));
                        assert(after.filter(in_shards(s0.joined)) == before.filter(in_shards(s0.joined)).push(m@));
                        assert(deliveries(after, s0.joined) =~= deliveries(before, s0.joined).push(a@));
                    }
                } else {
                    assert(after.filter(in_shards(s0.joined)) == before.filter(in_shards(s0.joined)));
                }
                plan_message(&mut table, &self.connected_peers, source, m);
                assert(after.drop_last() =~= before);
            }
            i = i + 1;
        }
        assert(ms.take(msgs@.len() as int) =~= ms);
        assert(fl.take(msgs@.len() as int) =~= fl);
        let ghost t = pending_models(table@);
        let ghost e1 = self@.events;
        let mut k: usize = 0;
        while k < table.len()
            invariant
                k <= table@.len(),
                t == pending_models(table@),
                self@ == (ShardsModel { events: self@.events, ..s0 }),
                self@.events == e1 + dispatch_notices(t.take(k as int), ttl),
            decreases table@.len() - k,
        {
            let rpc = Rpc { shards: Vec::new(), messages: clone_messages(&table[k].messages), ttl: Some(ttl) };
            assert(rpc@ =~= messages_rpc(t[k as int].1, ttl)) by {
                assert(rpc@.shards =~= Seq::<JoinModel>::empty());
            }
            let a = BehaviourAction::NotifyHandler { peer_id: table[k].peer_id.clone(), event: rpc };
            let ghost prev = self.events@;
            let ghost prev_model = self@.events;
            self.events.push_back(a);
            proof {
                assert(self.events@ == prev.push(a));
                assert(self@.events =~= prev_model.push(a@));
                assert(t.take(k + 1) =~= t.take(k as int).push(t[k as int]));
                assert(dispatch_notices(t.take(k + 1), ttl) =~= dispatch_notices(t.take(k as int), ttl).push(a@));
            }
            k = k + 1;
        }
        assert(t.take(table@.len() as int) =~= t);
    }

    /// Handles an RPC received from `source`, given for each of its messages
    /// whether the received-filter took it as new.
    pub fn handle_rpc(&mut self, source: &Vec<u8>, rpc: &Rpc, fresh: &Vec<bool>)
        requires
            old(self).wf(),
            fresh@.len() == rpc@.messages.len(),
            rpc_acceptable(old(self)@, source@, rpc@),
        ensures
            final(self).wf(),
            final(self)@ == rpc_effect(old(self)@, source@, rpc@, fresh@),
    {
        let ttl: u8 = match rpc.ttl {
            Some(t) => t,
            None => DEFAULT_TTL,
        };
        if ttl < 1 {
            return;
        }
        let ghost s0 = self@;
        self.apply_join_notices(source, &rpc.shards);
        let ghost s1 = self@;
        self.dispatch_messages(source, &rpc.messages, fresh, ttl - 1);
        assert(self@.events =~= rpc_effect(s0, source@, rpc@, fresh@).events);
    }

    /// Handles what a connection handler reports about `source`: a received
    /// RPC is handled, each of its messages being offered to the
    /// received-filter first; a completed send changes nothing.
    pub fn inject_event(&mut self, source: Vec<u8>, event: InnerMessage)
        requires
            old(self).wf(),
            event matches InnerMessage::Rx(rpc) ==> rpc_acceptable(old(self)@, source@, rpc@),
        ensures
            final(self).wf(),
            match event {
                InnerMessage::Sent => final(self)@ == old(self)@,
                InnerMessage::Rx(rpc) => if rpc_ttl(rpc@) < 1 {
                    final(self)@ == old(self)@
                } else {
                    exists|outs: Seq<FilterOutcome>, rs: Seq<Set<MessageModel>>, ls: Seq<nat>|
                        filter_trace(old(self)@, final(self)@, rpc@.messages, outs, rs, ls)
                        && final(self)@ == (ShardsModel {
                            received: final(self)@.received,
                            stored: final(self)@.stored,
                            ..rpc_effect(old(self)@, source@, rpc@, new_flags(outs))
                        })
                },
            },
    {
        let rpc = match event {
            InnerMessage::Rx(rpc) => rpc,
            InnerMessage::Sent => return,
        };
        let ttl: u8 = match rpc.ttl {
            Some(t) => t,
            None => DEFAULT_TTL,
        };
        if ttl < 1 {
            return;
        }
        let ghost s0 = self@;
        let ghost ms = rpc@.messages;
        let ghost mut outs: Seq<FilterOutcome> = Seq::empty();
        let ghost mut rs: Seq<Set<MessageModel>> = seq![s0.received];
        let ghost mut ls: Seq<nat> = seq![s0.stored];
        let mut fresh: Vec<bool> = Vec::new();
        let mut i: usize = 0;
        while i < rpc.messages.len()
            invariant
                i <= rpc.messages@.len(),
                ms == rpc@.messages,
                self@ == (ShardsModel { received: self@.received, stored: self@.stored, ..s0 }),
                outs.len() == i,
                rs.len() == i + 1,
                ls.len() == i + 1,
                rs[0] == s0.received,
                ls[0] == s0.stored,
                rs[i as int] == self@.received,
                ls[i as int] == self@.stored,
                forall|k: int| 0 <= k < i ==> #[trigger] filter_step(rs[k], ls[k], ms[k], outs[k], rs[k + 1], ls[k + 1]),
                fresh@ == new_flags(outs),
            decreases rpc.messages@.len() - i,
        {
            let outcome = filter_test_and_add(&mut self.received, &rpc.messages[i]);
            proof {
                assert(rpc.messages@[i as int]@ == ms[i as int]);
                let ghost o2 = outs.push(outcome);
                let ghost rs2 = rs.push(self@.received);
                let ghost ls2 = ls.push(self@.stored);
                assert forall|k: int| 0 <= k < i + 1 implies #[trigger] filter_step(rs2[k], ls2[k], ms[k], o2[k], rs2[k + 1], ls2[k + 1]) by {
                    if k < i {
                        assert(filter_step(rs[k], ls[k], ms[k], outs[k], rs[k + 1], ls[k + 1]));
                    }
                }
                outs = o2;
                rs = rs2;
                ls = ls2;
            }
            fresh.push(outcome != FilterOutcome::AlreadySeen);
            assert(fresh@ =~= new_flags(outs));
            i = i + 1;
        }
        let ghost s1 = self@;
        self.handle_rpc(&source, &rpc, &fresh);
        proof {
            assert(rpc_effect(s1, source@, rpc@, fresh@) == (ShardsModel {
                received: s1.received,
                stored: s1.stored,
                ..rpc_effect(s0, source@, rpc@, fresh@)
            }));
            assert(filter_trace(s0, self@, ms, outs, rs, ls));
        }
    }
}


/// The forwarding table is sound for the connected peers and the source:
/// each peer has one entry, the source has none, and each queued message
/// shares a shard with the peer it is queued for.
pub open spec fn table_sound(
    t: Seq<(Seq<u8>, Seq<MessageModel>)>,
    conn: Seq<(Seq<u8>, Seq<Seq<char>>)>,
    source: Seq<u8>,
) -> bool {
    &&& distinct(keys(t))
    &&& forall|i: int| 0 <= i < t.len() ==> #[trigger] t[i].0 != source
    &&& forall|i: int, j: int| 0 <= i < t.len() && 0 <= j < t[i].1.len() ==> may_receive(conn, t[i].0, #[trigger] t[i].1[j])
}

/// Some connected peer `q` has joined one of the shards of `x`.
pub open spec fn may_receive(conn: Seq<(Seq<u8>, Seq<Seq<char>>)>, q: Seq<u8>, x: MessageModel) -> bool {
    exists|k: int| 0 <= k < conn.len() && conn[k].0 == q && intersects(conn[k].1, x.shards)
}

/// The table queues `x` for `q`.
pub open spec fn queues(t: Seq<(Seq<u8>, Seq<MessageModel>)>, q: Seq<u8>, x: MessageModel) -> bool {
    exists|i: int| 0 <= i < t.len() && t[i].0 == q && t[i].1.contains(x)
}

proof fn lemma_add_to_entry(
    t: Seq<(Seq<u8>, Seq<MessageModel>)>,
    conn: Seq<(Seq<u8>, Seq<Seq<char>>)>,
    source: Seq<u8>,
    k: int,
    m: MessageModel,
)
    requires
        table_sound(t, conn, source),
        0 <= k < conn.len(),
        conn[k].0 != source,
        intersects(conn[k].1, m.shards),
    ensures
        table_sound(add_to_entry(t, conn[k].0, m), conn, source),
        queues(add_to_entry(t, conn[k].0, m), conn[k].0, m),
        forall|q: Seq<u8>, x: MessageModel| queues(t, q, x) ==> queues(add_to_entry(t, conn[k].0, m), q, x),
{
    let p = conn[k].0;
    let r = add_to_entry(t, p, m);
    if has_key(t, p) {
        let w = choose|i: int| 0 <= i < t.len() && t[i].0 == p;
        assert(keys(r) =~= keys(t));
        assert forall|i: int| 0 <= i < r.len() implies #[trigger] r[i].0 != source by {
            assert(r[i].0 == t[i].0);
        }
        assert forall|i: int, j: int| 0 <= i < r.len() && 0 <= j < r[i].1.len() implies may_receive(conn, r[i].0, #[trigger] r[i].1[j]) by {
            if t[i].0 == p {
                assert(r[i].0 == p);
                if j == t[i].1.len() {
                    assert(r[i].1[j] == m);
                    assert(conn[k].0 == r[i].0 && intersects(conn[k].1, r[i].1[j].shards));
                } else {
                    assert(r[i].1[j] == t[i].1[j]);
                    assert(may_receive(conn, t[i].0, t[i].1[j]));
                }
            } else {
                assert(r[i] == t[i]);
                assert(may_receive(conn, t[i].0, t[i].1[j]));
            }
        }
        assert(distinct(keys(r)));
        assert(table_sound(r, conn, source));
        assert(r[w].1.contains(m)) by {
            assert(r[w].1[t[w].1.len() as int] == m);
        }
        assert forall|q: Seq<u8>, x: MessageModel| queues(t, q, x) implies queues(r, q, x) by {
            let i = choose|i: int| 0 <= i < t.len() && t[i].0 == q && t[i].1.contains(x);
            let j = choose|j: int| 0 <= j < t[i].1.len() && t[i].1[j] == x;
            if t[i].0 == p {
                assert(r[i].1[j] == x);
            } else {
                assert(r[i] == t[i]);
            }
        }
    } else {
        assert(keys(r) =~= keys(t).push(p));
        assert(!keys(t).contains(p)) by {
            if keys(t).contains(p) {
                let j = choose|j: int| 0 <= j < keys(t).len() && keys(t)[j] == p;
                assert(t[j].0 == p);
            }
        }
        lemma_distinct_push(keys(t), p);
        assert forall|i: int| 0 <= i < r.len() implies #[trigger] r[i].0 != source by {
            if i < t.len() {
                assert(r[i] == t[i]);
            }
        }
        assert forall|i: int, j: int| 0 <= i < r.len() && 0 <= j < r[i].1.len() implies may_receive(conn, r[i].0, #[trigger] r[i].1[j]) by {
            if i == t.len() {
                assert(r[i].1[j] == m);
                assert(conn[k].0 == r[i].0 && intersects(conn[k].1, r[i].1[j].shards));
            } else {
                assert(r[i] == t[i]);
                assert(may_receive(conn, t[i].0, t[i].1[j]));
            }
        }
        assert(distinct(keys(r)));
        assert(table_sound(r, conn, source));
        let last = t.len() as int;
        assert(r[last].1[0] == m);
        assert(r[last].1.contains(m));
        assert forall|q: Seq<u8>, x: MessageModel| queues(t, q, x) implies queues(r, q, x) by {
            let i = choose|i: int| 0 <= i < t.len() && t[i].0 == q && t[i].1.contains(x);
            assert(r[i] == t[i]);
        }
    }
}

proof fn lemma_plan_forwarding(
    t: Seq<(Seq<u8>, Seq<MessageModel>)>,
    conn: Seq<(Seq<u8>, Seq<Seq<char>>)>,
    source: Seq<u8>,
    n: int,
    m: MessageModel,
)
    requires
        table_sound(t, conn, source),
        0 <= n <= conn.len(),
    ensures
        table_sound(plan_forwarding(t, conn.take(n), source, m), conn, source),
        forall|q: Seq<u8>, x: MessageModel| queues(t, q, x) ==> queues(plan_forwarding(t, conn.take(n), source, m), q, x),
        forall|k: int| 0 <= k < n && conn[k].0 != source && intersects(conn[k].1, m.shards)
            ==> queues(plan_forwarding(t, conn.take(n), source, m), conn[k].0, m),
    decreases n,
{
    if n > 0 {
        assert(conn.take(n).drop_last() =~= conn.take(n - 1));
        assert(conn.take(n).last() == conn[n - 1]);
        lemma_plan_forwarding(t, conn, source, n - 1, m);
        let before = plan_forwarding(t, conn.take(n - 1), source, m);
        if conn[n - 1].0 != source && intersects(conn[n - 1].1, m.shards) {
            lemma_add_to_entry(before, conn, source, n - 1, m);
        }
    }
}

proof fn lemma_dispatch_table(
    ms: Seq<MessageModel>,
    conn: Seq<(Seq<u8>, Seq<Seq<char>>)>,
    source: Seq<u8>,
)
    ensures
        table_sound(dispatch_table(ms, conn, source), conn, source),
        forall|x: int, k: int| 0 <= x < ms.len() && 0 <= k < conn.len() && conn[k].0 != source
            && intersects(conn[k].1, ms[x].shards) ==> queues(dispatch_table(ms, conn, source), conn[k].0, ms[x]),
    decreases ms.len(),
{
    if ms.len() == 0 {
        let t = dispatch_table(ms, conn, source);
        assert(keys(t) =~= Seq::<Seq<u8>>::empty());
    } else {
        lemma_dispatch_table(ms.drop_last(), conn, source);
        let before = dispatch_table(ms.drop_last(), conn, source);
        assert(conn.take(conn.len() as int) =~= conn);
        lemma_plan_forwarding(before, conn, source, conn.len() as int, ms.last());
        assert forall|x: int, k: int| 0 <= x < ms.len() && 0 <= k < conn.len() && conn[k].0 != source
            && intersects(conn[k].1, ms[x].shards) implies queues(dispatch_table(ms, conn, source), conn[k].0, ms[x]) by {
            if x < ms.len() - 1 {
                assert(ms.drop_last()[x] == ms[x]);
            }
        }
    }
}

/// Relaying never sends a message back to the peer it came from, sends each
/// peer at most one RPC, queues a message only for a peer that has joined
/// one of its shards, and queues every new message for every other connected
/// peer that has joined one of its shards.
pub proof fn law_forwarding(
    s: ShardsModel,
    source: Seq<u8>,
    rpc: RpcModel,
    fresh: Seq<bool>,
)
    requires
        fresh.len() == rpc.messages.len(),
    ensures
        ({
            let conn = connected_after_joins(s.connected, source, rpc.shards);
            let fm = fresh_messages(rpc.messages, fresh);
            let t = dispatch_table(fm, conn, source);
            &&& table_sound(t, conn, source)
            &&& forall|x: int, k: int| 0 <= x < fm.len() && 0 <= k < conn.len() && conn[k].0 != source
                && intersects(conn[k].1, fm[x].shards) ==> queues(t, conn[k].0, fm[x])
        }),
{
    let conn = connected_after_joins(s.connected, source, rpc.shards);
    let fm = fresh_messages(rpc.messages, fresh);
    lemma_dispatch_table(fm, conn, source);
}

/// Leaving a shard just joined restores the list of joined shards.
pub proof fn law_join_then_leave(joined: Seq<Seq<char>>, shard: Seq<char>)
    requires
        distinct(joined),
        !joined.contains(shard),
    ensures
        remove_value(joined.push(shard), shard) == joined,
{
    lemma_distinct_push(joined, shard);
    lemma_remove_value_at(joined.push(shard), shard, joined.len() as int);
    assert(joined.push(shard).remove(joined.len() as int) =~= joined);
}

/// The connected-peer table follows connections: a newly connected peer is
/// recorded with no shards, and its disconnection restores the table.
pub proof fn law_connect_then_disconnect(conn: Seq<(Seq<u8>, Seq<Seq<char>>)>, peer: Seq<u8>)
    requires
        !has_key(conn, peer),
    ensures
        has_key(assoc_set(conn, peer, Seq::empty()), peer),
        !has_key(assoc_remove(assoc_set(conn, peer, Seq::empty()), peer), peer),
        assoc_remove(assoc_set(conn, peer, Seq::empty()), peer) == conn,
{
    let added = conn.push((peer, Seq::<Seq<char>>::empty()));
    assert(added[conn.len() as int].0 == peer);
    let pred = crate::assoc::key_differs::<Seq<Seq<char>>>(peer);
    assert forall|j: int| 0 <= j < added.len() && j != conn.len() implies #[trigger] pred(added[j]) by {
        assert(added[j] == conn[j]);
        if conn[j].0 == peer {
            assert(has_key(conn, peer));
        }
    }
    crate::assoc::lemma_filter_drops_one(added, pred, conn.len() as int);
    assert(added.remove(conn.len() as int) =~= conn);
}

/// `a` sends `m`, with the default hop count, to a connected peer that has
/// joined one of its shards.
pub open spec fn sends_to_sharing_peer(conn: Seq<(Seq<u8>, Seq<Seq<char>>)>, m: MessageModel, a: ActionModel) -> bool {
    exists|k: int| 0 <= k < conn.len() && intersects(conn[k].1, m.shards)
        && a == ActionModel::Notify(conn[k].0, messages_rpc(seq![m], DEFAULT_TTL))
}

/// A publication is sent only to connected peers that have joined one of the
/// message's shards, one RPC each with the default hop count; and nothing at
/// all happens when publishing is restricted to joined shards and we joined
/// none.
pub proof fn law_publish_reaches_sharing_peers(s: ShardsModel, m: MessageModel, check_self_joins: bool)
    ensures
        forall|i: int| 0 <= i < forward_notices(s.connected, m).len()
            ==> sends_to_sharing_peer(s.connected, m, #[trigger] forward_notices(s.connected, m)[i]),
        check_self_joins && !intersects(s.joined, m.shards) ==> publish_events(s, m, check_self_joins).len() == 0,
{
    let pred = shares_shard_with(m);
    let kept = s.connected.filter(pred);
    assert forall|i: int| 0 <= i < forward_notices(s.connected, m).len()
        implies sends_to_sharing_peer(s.connected, m, #[trigger] forward_notices(s.connected, m)[i]) by {
        assert(kept.contains(kept[i]));
        s.connected.lemma_filter_contains_rev(pred, kept[i]);
        s.connected.lemma_filter_pred(pred, i);
        let k = choose|k: int| 0 <= k < s.connected.len() && s.connected[k] == kept[i];
        assert(forward_notices(s.connected, m)[i] == ActionModel::Notify(s.connected[k].0, messages_rpc(seq![m], DEFAULT_TTL)));
    }
    if check_self_joins && !intersects(s.joined, m.shards) {
        assert(publish_events(s, m, check_self_joins) =~= Seq::<ActionModel>::empty());
    }
}

/// The action reports `m` to us or sends it to a peer.
pub open spec fn carries(a: ActionModel, m: MessageModel) -> bool {
    match a {
        ActionModel::Generate(EventModel::Message(x)) => x == m,
        ActionModel::Notify(_, r) => r.messages.contains(m),
        _ => false,
    }
}

proof fn lemma_fresh_messages_flagged(msgs: Seq<MessageModel>, fresh: Seq<bool>, x: MessageModel)
    requires
        fresh.len() == msgs.len(),
        fresh_messages(msgs, fresh).contains(x),
    ensures
        exists|i: int| 0 <= i < msgs.len() && fresh[i] && msgs[i] == x,
    decreases msgs.len(),
{
    if msgs.len() > 0 {
        let before = fresh_messages(msgs.drop_last(), fresh.drop_last());
        if fresh.last() && x == msgs.last() {
            assert(fresh[msgs.len() - 1] && msgs[msgs.len() - 1] == x);
        } else {
            if fresh.last() {
                let k = choose|k: int| 0 <= k < before.push(msgs.last()).len() && before.push(msgs.last())[k] == x;
                assert(before[k] == x);
            }
            assert(before.contains(x));
            lemma_fresh_messages_flagged(msgs.drop_last(), fresh.drop_last(), x);
            let i = choose|i: int| 0 <= i < msgs.len() - 1 && fresh.drop_last()[i] && msgs.drop_last()[i] == x;
            assert(fresh[i] && msgs[i] == x);
        }
    }
}

proof fn lemma_table_from_messages(
    ms: Seq<MessageModel>,
    conn: Seq<(Seq<u8>, Seq<Seq<char>>)>,
    source: Seq<u8>,
)
    ensures
        forall|i: int, j: int| 0 <= i < dispatch_table(ms, conn, source).len()
            && 0 <= j < dispatch_table(ms, conn, source)[i].1.len()
            ==> ms.contains(#[trigger] dispatch_table(ms, conn, source)[i].1[j]),
    decreases ms.len(),
{
    if ms.len() > 0 {
        lemma_table_from_messages(ms.drop_last(), conn, source);
        let before = dispatch_table(ms.drop_last(), conn, source);
        assert(conn.take(conn.len() as int) =~= conn);
        lemma_plan_from(before, conn, source, conn.len() as int, ms.drop_last(), ms.last());
        assert forall|x: MessageModel| ms.drop_last().contains(x) || x == ms.last() implies ms.contains(x) by {
            if x == ms.last() {
                assert(ms[ms.len() - 1] == x);
            } else {
                let k = choose|k: int| 0 <= k < ms.drop_last().len() && ms.drop_last()[k] == x;
                assert(ms[k] == x);
            }
        }
    }
}

proof fn lemma_plan_from(
    t: Seq<(Seq<u8>, Seq<MessageModel>)>,
    conn: Seq<(Seq<u8>, Seq<Seq<char>>)>,
    source: Seq<u8>,
    n: int,
    ms: Seq<MessageModel>,
    m: MessageModel,
)
    requires
        0 <= n <= conn.len(),
        forall|i: int, j: int| 0 <= i < t.len() && 0 <= j < t[i].1.len() ==> ms.contains(#[trigger] t[i].1[j]),
    ensures
        forall|i: int, j: int| 0 <= i < plan_forwarding(t, conn.take(n), source, m).len()
            && 0 <= j < plan_forwarding(t, conn.take(n), source, m)[i].1.len()
            ==> ({
                let x = #[trigger] plan_forwarding(t, conn.take(n), source, m)[i].1[j];
                ms.contains(x) || x == m
            }),
    decreases n,
{
    if n > 0 {
        assert(conn.take(n).drop_last() =~= conn.take(n - 1));
        assert(conn.take(n).last() == conn[n - 1]);
        lemma_plan_from(t, conn, source, n - 1, ms, m);
        let before = plan_forwarding(t, conn.take(n - 1), source, m);
        let e = conn[n - 1];
        if e.0 != source && intersects(e.1, m.shards) {
            let r = add_to_entry(before, e.0, m);
            assert forall|i: int, j: int| 0 <= i < r.len() && 0 <= j < r[i].1.len() implies ({
                let x = #[trigger] r[i].1[j];
                ms.contains(x) || x == m
            }) by {
                if has_key(before, e.0) {
                    if before[i].0 == e.0 && j == before[i].1.len() {
                        assert(r[i].1[j] == m);
                    } else {
                        assert(r[i].1[j] == before[i].1[j]);
                    }
                } else if i == before.len() {
                    assert(r[i].1[j] == m);
                } else {
                    assert(r[i] == before[i]);
                }
            }
        }
    } else {
        assert(conn.take(0) =~= Seq::<(Seq<u8>, Seq<Seq<char>>)>::empty());
        assert forall|i: int, j: int| 0 <= i < t.len() && 0 <= j < t[i].1.len() implies ({
            let x = #[trigger] t[i].1[j];
            ms.contains(x) || x == m
        }) by {
            assert(ms.contains(t[i].1[j]));
        }
    }
}

/// Publishing with the check on our own joins, to shards none of which we
/// joined, changes nothing at all.
pub proof fn law_publish_unjoined_does_nothing(s: ShardsModel, t: ShardsModel, m: MessageModel)
    requires
        !intersects(s.joined, m.shards),
        published(s, t, m, true),
    ensures
        t == s,
{
    assert(publish_events(s, m, true) =~= Seq::<ActionModel>::empty());
    assert(s.events + publish_events(s, m, true) =~= s.events);
}

proof fn lemma_trace_grows(
    s: ShardsModel,
    t: ShardsModel,
    msgs: Seq<MessageModel>,
    outs: Seq<FilterOutcome>,
    rs: Seq<Set<MessageModel>>,
    ls: Seq<nat>,
    k: int,
)
    requires
        filter_trace(s, t, msgs, outs, rs, ls),
        !outs.contains(FilterOutcome::AddedDroppingAnother),
        0 <= k <= msgs.len(),
    ensures
        rs[0].subset_of(rs[k]),
        forall|j: int| 0 <= j < k ==> rs[k].contains(#[trigger] msgs[j]),
    decreases k,
{
    if k > 0 {
        lemma_trace_grows(s, t, msgs, outs, rs, ls, k - 1);
        let i = k - 1;
        assert(filter_step(rs[i], ls[i], msgs[i], outs[i], rs[i + 1], ls[i + 1]));
        assert(outs[i] != FilterOutcome::AddedDroppingAnother) by {
            if outs[i] == FilterOutcome::AddedDroppingAnother {
                assert(outs.contains(FilterOutcome::AddedDroppingAnother));
            }
        }
        assert(outs[i] == FilterOutcome::AlreadySeen ==> rs[k].contains(msgs[i]));
    }
}

/// While the received-filter drops no record, it deduplicates: what it
/// reported before it still reports, together with every message offered;
/// a message counts as new exactly when the filter did not report it when
/// offered, so neither a message it reported before nor a repeat of an
/// earlier message of the same list counts as new.
pub proof fn law_filter_dedup(
    s: ShardsModel,
    t: ShardsModel,
    msgs: Seq<MessageModel>,
    outs: Seq<FilterOutcome>,
    rs: Seq<Set<MessageModel>>,
    ls: Seq<nat>,
)
    requires
        filter_trace(s, t, msgs, outs, rs, ls),
        !outs.contains(FilterOutcome::AddedDroppingAnother),
    ensures
        s.received.subset_of(t.received),
        forall|i: int| 0 <= i < msgs.len() ==> t.received.contains(#[trigger] msgs[i]),
        forall|i: int| 0 <= i < msgs.len() ==> #[trigger] new_flags(outs)[i] == !rs[i].contains(msgs[i]),
        forall|i: int| 0 <= i < msgs.len() && s.received.contains(msgs[i]) ==> !#[trigger] new_flags(outs)[i],
        forall|i: int, j: int| #![trigger msgs[j], new_flags(outs)[i]]
            0 <= j < i < msgs.len() && msgs[j] == msgs[i] ==> !new_flags(outs)[i],
{
    let n = msgs.len() as int;
    lemma_trace_grows(s, t, msgs, outs, rs, ls, n);
    assert forall|i: int| 0 <= i < msgs.len() implies #[trigger] new_flags(outs)[i] == !rs[i].contains(msgs[i]) by {
        assert(filter_step(rs[i], ls[i], msgs[i], outs[i], rs[i + 1], ls[i + 1]));
    }
    assert forall|i: int| 0 <= i < msgs.len() && s.received.contains(msgs[i]) implies !#[trigger] new_flags(outs)[i] by {
        lemma_trace_grows(s, t, msgs, outs, rs, ls, i);
        assert(filter_step(rs[i], ls[i], msgs[i], outs[i], rs[i + 1], ls[i + 1]));
    }
    assert forall|i: int, j: int| #![trigger msgs[j], new_flags(outs)[i]] 0 <= j < i < msgs.len() && msgs[j] == msgs[i] implies !new_flags(outs)[i] by {
        lemma_trace_grows(s, t, msgs, outs, rs, ls, i);
        assert(rs[i].contains(msgs[j]));
        assert(filter_step(rs[i], ls[i], msgs[i], outs[i], rs[i + 1], ls[i + 1]));
    }
}

/// A message delivered again is not dispatched again: when the
/// received-filter reported a message before an RPC carrying it is handled,
/// and drops no record while the RPC's messages are offered, handling the
/// RPC neither reports that message to us nor relays it.
pub proof fn law_redelivery_not_dispatched(
    s: ShardsModel,
    t: ShardsModel,
    source: Seq<u8>,
    rpc: RpcModel,
    outs: Seq<FilterOutcome>,
    rs: Seq<Set<MessageModel>>,
    ls: Seq<nat>,
    m: MessageModel,
)
    requires
        filter_trace(s, t, rpc.messages, outs, rs, ls),
        !outs.contains(FilterOutcome::AddedDroppingAnother),
        s.received.contains(m),
    ensures
        forall|i: int| s.events.len() <= i < rpc_effect(s, source, rpc, new_flags(outs)).events.len()
            ==> !carries(#[trigger] rpc_effect(s, source, rpc, new_flags(outs)).events[i], m),
{
    law_filter_dedup(s, t, rpc.messages, outs, rs, ls);
    law_seen_messages_not_dispatched(s, source, rpc, new_flags(outs), m);
}

/// A node does not dispatch its own message again: once it has published a
/// message to a shard it joined, and the received-filter found room for it
/// (as it always does while it holds fewer than four fingerprints), a later
/// RPC carrying that message, handled while the filter drops no record,
/// neither reports it to us nor relays it.
pub proof fn law_own_message_not_redispatched(
    s: ShardsModel,
    t: ShardsModel,
    m: MessageModel,
    check_self_joins: bool,
    u: ShardsModel,
    source: Seq<u8>,
    rpc: RpcModel,
    outs: Seq<FilterOutcome>,
    rs: Seq<Set<MessageModel>>,
    ls: Seq<nat>,
)
    requires
        published(s, t, m, check_self_joins),
        intersects(s.joined, m.shards),
        t.stored == s.stored + 1 || s.stored < 4,
        filter_trace(t, u, rpc.messages, outs, rs, ls),
        !outs.contains(FilterOutcome::AddedDroppingAnother),
    ensures
        forall|i: int| t.events.len() <= i < rpc_effect(t, source, rpc, new_flags(outs)).events.len()
            ==> !carries(#[trigger] rpc_effect(t, source, rpc, new_flags(outs)).events[i], m),
{
    assert(t.received.contains(m));
    law_redelivery_not_dispatched(t, u, source, rpc, outs, rs, ls, m);
}

/// Publishing to a shard we joined records the message in the
/// received-filter, whether or not our own messages are reported to us: the
/// filter then holds one more fingerprint, reports what it reported before
/// and the message too, unless it had to drop another record to make room,
/// which only a filter holding at least four fingerprints can have to do.
/// Publishing to shards none of which we joined leaves the filter alone.
pub proof fn law_publish_records_message(s: ShardsModel, t: ShardsModel, m: MessageModel, check_self_joins: bool)
    requires
        published(s, t, m, check_self_joins),
    ensures
        intersects(s.joined, m.shards) && s.stored < 4 ==> t.stored == s.stored + 1
            && s.received.subset_of(t.received) && t.received.contains(m),
        intersects(s.joined, m.shards) && t.stored != s.stored ==> t.received.contains(m),
        !intersects(s.joined, m.shards) ==> t.received == s.received && t.stored == s.stored,
        t.join_local_messages == s.join_local_messages,
{
}

/// Publishing to shards one of which we joined does the same whether or not
/// publishing is restricted to joined shards.
pub proof fn law_publish_joined_same_as_any(s: ShardsModel, t: ShardsModel, m: MessageModel)
    requires
        intersects(s.joined, m.shards),
    ensures
        published(s, t, m, true) == published(s, t, m, false),
{
    assert(publish_events(s, m, true) == publish_events(s, m, false));
}

/// A message the received-filter reports as seen is not dispatched again:
/// when each message of an RPC that the filter reported as seen counts as
/// not new (as [`law_filter_dedup`] shows while no record is dropped),
/// handling the RPC neither reports such a message to us nor relays it.
pub proof fn law_seen_messages_not_dispatched(
    s: ShardsModel,
    source: Seq<u8>,
    rpc: RpcModel,
    fresh: Seq<bool>,
    m: MessageModel,
)
    requires
        fresh.len() == rpc.messages.len(),
        forall|i: int| 0 <= i < rpc.messages.len() && s.received.contains(rpc.messages[i]) ==> !fresh[i],
        s.received.contains(m),
    ensures
        forall|i: int| s.events.len() <= i < rpc_effect(s, source, rpc, fresh).events.len()
            ==> !carries(#[trigger] rpc_effect(s, source, rpc, fresh).events[i], m),
{
    let ttl = rpc_ttl(rpc);
    if ttl >= 1 {
        let conn = connected_after_joins(s.connected, source, rpc.shards);
        let fm = fresh_messages(rpc.messages, fresh);
        let js = join_events(source, rpc.shards);
        let dl = deliveries(fm, s.joined);
        let t = dispatch_table(fm, conn, source);
        let dn = dispatch_notices(t, (ttl - 1) as u8);
        let all = rpc_effect(s, source, rpc, fresh).events;
        assert(all == s.events + js + dl + dn);
        assert(!fm.contains(m)) by {
            if fm.contains(m) {
                lemma_fresh_messages_flagged(rpc.messages, fresh, m);
            }
        }
        lemma_table_from_messages(fm, conn, source);
        assert forall|i: int| s.events.len() <= i < all.len() implies !carries(#[trigger] all[i], m) by {
            let k = i - s.events.len();
            if k < js.len() {
                assert(all[i] == js[k]);
            } else if k < js.len() + dl.len() {
                let d = k - js.len();
                assert(all[i] == dl[d]);
                let kept = fm.filter(in_shards(s.joined));
                assert(kept.contains(kept[d]));
                fm.lemma_filter_contains_rev(in_shards(s.joined), kept[d]);
            } else {
                let d = k - js.len() - dl.len();
                assert(all[i] == dn[d]);
                assert(dn[d] == ActionModel::Notify(t[d].0, messages_rpc(t[d].1, (ttl - 1) as u8)));
                if t[d].1.contains(m) {
                    let j = choose|j: int| 0 <= j < t[d].1.len() && t[d].1[j] == m;
                    assert(fm.contains(t[d].1[j]));
                }
            }
        }
    }
}

proof fn lemma_fresh_once(msgs: Seq<MessageModel>, fresh: Seq<bool>, joined: Seq<Seq<char>>, i: int)
    requires
        fresh.len() == msgs.len(),
        0 <= i < msgs.len(),
        fresh[i],
        forall|j: int| 0 <= j < msgs.len() && j != i && msgs[j] == msgs[i] ==> !fresh[j],
    ensures
        ({
            let kept = fresh_messages(msgs, fresh).filter(in_shards(joined));
            &&& fresh_messages(msgs, fresh).contains(msgs[i])
            &&& intersects(joined, msgs[i].shards) ==> exists|p: int| 0 <= p < kept.len() && kept[p] == msgs[i]
                && forall|q: int| 0 <= q < kept.len() && q != p ==> kept[q] != msgs[i]
            &&& !intersects(joined, msgs[i].shards) ==> !kept.contains(msgs[i])
        }),
    decreases msgs.len(),
{
    let m = msgs[i];
    let n = msgs.len() - 1;
    let before = fresh_messages(msgs.drop_last(), fresh.drop_last());
    let pred = in_shards(joined);
    let kb = before.filter(pred);
    let kept = fresh_messages(msgs, fresh).filter(pred);
    if i == n {
        assert(!before.contains(m)) by {
            if before.contains(m) {
                lemma_fresh_messages_flagged(msgs.drop_last(), fresh.drop_last(), m);
                let j = choose|j: int| 0 <= j < n && fresh.drop_last()[j] && msgs.drop_last()[j] == m;
                assert(fresh[j] && msgs[j] == m);
            }
        }
        assert(!kb.contains(m)) by {
            if kb.contains(m) {
                before.lemma_filter_contains_rev(pred, m);
            }
        }
        assert(fresh_messages(msgs, fresh) == before.push(m));
        assert(before.push(m)[before.len() as int] == m);
        before.lemma_filter_push(m, pred);
        if intersects(joined, m.shards) {
            assert(kept == kb.push(m));
            assert(kept[kb.len() as int] == m);
            assert forall|q: int| 0 <= q < kept.len() && q != kb.len() implies kept[q] != m by {
                assert(kept[q] == kb[q]);
            }
        } else {
            assert(kept == kb);
        }
    } else {
        lemma_fresh_once(msgs.drop_last(), fresh.drop_last(), joined, i);
        assert(msgs.drop_last()[i] == m);
        let last = msgs[n];
        assert(fresh_messages(msgs, fresh).contains(m)) by {
            let j = choose|j: int| 0 <= j < before.len() && before[j] == m;
            if fresh[n] {
                assert(fresh_messages(msgs, fresh) == before.push(last));
                assert(before.push(last)[j] == m);
            } else {
                assert(fresh_messages(msgs, fresh) == before);
            }
        }
        if fresh[n] {
            assert(last != m);
            assert(fresh_messages(msgs, fresh) == before.push(last));
            before.lemma_filter_push(last, pred);
            if pred(last) {
                assert(kept == kb.push(last));
                if intersects(joined, m.shards) {
                    let p = choose|p: int| 0 <= p < kb.len() && kb[p] == m
                        && forall|q: int| 0 <= q < kb.len() && q != p ==> kb[q] != m;
                    assert(kept[p] == m);
                    assert forall|q: int| 0 <= q < kept.len() && q != p implies kept[q] != m by {
                        if q < kb.len() {
                            assert(kept[q] == kb[q]);
                        }
                    }
                } else {
                    assert(!kept.contains(m)) by {
                        if kept.contains(m) {
                            let q = choose|q: int| 0 <= q < kept.len() && kept[q] == m;
                            if q < kb.len() {
                                assert(kb[q] == m);
                                assert(kb.contains(m));
                            }
                        }
                    }
                }
            } else {
                assert(kept == kb);
            }
        } else {
            assert(fresh_messages(msgs, fresh) == before);
        }
    }
}

/// A message that the received-filter did not report when it was offered
/// (while the filter drops no record) counts as new: it is then recorded, it
/// is reported to us exactly once when we joined one of its shards and not
/// at all otherwise, and it is queued for every other connected peer that
/// has joined one of its shards, whether or not we joined any.
pub proof fn law_unseen_message_dispatched(
    s: ShardsModel,
    t: ShardsModel,
    source: Seq<u8>,
    rpc: RpcModel,
    outs: Seq<FilterOutcome>,
    rs: Seq<Set<MessageModel>>,
    ls: Seq<nat>,
    i: int,
)
    requires
        filter_trace(s, t, rpc.messages, outs, rs, ls),
        !outs.contains(FilterOutcome::AddedDroppingAnother),
        rpc_ttl(rpc) >= 1,
        0 <= i < rpc.messages.len(),
        !rs[i].contains(rpc.messages[i]),
    ensures
        ({
            let m = rpc.messages[i];
            let e = rpc_effect(s, source, rpc, new_flags(outs)).events;
            let conn = connected_after_joins(s.connected, source, rpc.shards);
            let tbl = dispatch_table(fresh_messages(rpc.messages, new_flags(outs)), conn, source);
            let report = ActionModel::Generate(EventModel::Message(m));
            &&& t.received.contains(m)
            &&& (exists|k: int| s.events.len() <= k < e.len() && e[k] == report) == intersects(s.joined, m.shards)
            &&& forall|k1: int, k2: int| s.events.len() <= k1 < e.len() && s.events.len() <= k2 < e.len()
                && e[k1] == report && e[k2] == report ==> k1 == k2
            &&& forall|k: int| 0 <= k < conn.len() && conn[k].0 != source && intersects(conn[k].1, m.shards)
                ==> queues(tbl, conn[k].0, m)
        }),
{
    let msgs = rpc.messages;
    let m = msgs[i];
    let flags = new_flags(outs);
    law_filter_dedup(s, t, msgs, outs, rs, ls);
    assert(flags[i]);
    assert forall|j: int| 0 <= j < msgs.len() && j != i && msgs[j] == msgs[i] implies !flags[j] by {
        if j > i {
            lemma_trace_grows(s, t, msgs, outs, rs, ls, j);
            assert(rs[j].contains(msgs[i]));
        }
    }
    lemma_fresh_once(msgs, flags, s.joined, i);
    let ttl = rpc_ttl(rpc);
    let conn = connected_after_joins(s.connected, source, rpc.shards);
    let fm = fresh_messages(msgs, flags);
    let js = join_events(source, rpc.shards);
    let kept = fm.filter(in_shards(s.joined));
    let dl = deliveries(fm, s.joined);
    let tbl = dispatch_table(fm, conn, source);
    let dn = dispatch_notices(tbl, (ttl - 1) as u8);
    let e = rpc_effect(s, source, rpc, flags).events;
    let report = ActionModel::Generate(EventModel::Message(m));
    let b = s.events.len();
    assert(e == s.events + js + dl + dn);
    assert forall|k: int| b <= k < e.len() implies (#[trigger] e[k] == report) == (b + js.len() <= k < b + js.len() + dl.len()
        && kept[k - b - js.len()] == m) by {
        let d = k - b;
        if d < js.len() {
            assert(e[k] == js[d]);
        } else if d < js.len() + dl.len() {
            assert(e[k] == dl[d - js.len()]);
        } else {
            assert(e[k] == dn[d - js.len() - dl.len()]);
        }
    }
    if intersects(s.joined, m.shards) {
        let p = choose|p: int| 0 <= p < kept.len() && kept[p] == m
            && forall|q: int| 0 <= q < kept.len() && q != p ==> kept[q] != m;
        assert(e[b + js.len() + p] == report);
    } else {
        assert forall|k: int| b <= k < e.len() implies e[k] != report by {
            if b + js.len() <= k < b + js.len() + dl.len() {
                assert(kept.contains(kept[k - b - js.len()]));
            }
        }
    }
    law_forwarding(s, source, rpc, flags);
    let x = choose|x: int| 0 <= x < fm.len() && fm[x] == m;
    assert forall|k: int| 0 <= k < conn.len() && conn[k].0 != source && intersects(conn[k].1, m.shards)
        implies queues(tbl, conn[k].0, m) by {
        assert(intersects(conn[k].1, fm[x].shards));
    }
}

} // verus!