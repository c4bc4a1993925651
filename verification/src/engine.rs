//! The decisions of the group gossip engine: which network events concern
//! its protocol, and what each request of the upper layers asks of the
//! network. Polling the network and the message sinks is left to the caller.
use vstd::prelude::*;

use crate::assoc::has_key;
use crate::group::{
    at_clock, forwarded_models, group_entries, hashed_models, incoming_effect, lemma_incoming_keeps_protocol, network_models,
    propagate_to_peer, register_effect, send_intent, tick_effect, update_known, writes_to, ConsensusGroup,
    EntryModel, GroupModel, GroupNotification, HashedMessage, NetworkAction, NetworkActionModel, ObservedRole,
};
use crate::hex::{hex_encode, hex_lower};
use crate::shards::layer::insert_value;

verus! {

/// The smallest buffer a message sink is created with.
pub const MIN_SINK_CAPACITY: usize = 10;

/// What a [`GroupEngine`] holds, as plain values.
pub struct EngineModel {
    pub state: GroupModel,
    pub protocol: Seq<char>,
}

/// Wraps the gossip state machine for one notification protocol.
pub struct GroupEngine {
    state_machine: ConsensusGroup,
    protocol: String,
}

impl View for GroupEngine {
    type V = EngineModel;

    closed spec fn view(&self) -> EngineModel {
        EngineModel { state: self.state_machine@, protocol: self.protocol@ }
    }
}

/// The state and the notifications after a message is sent to each of the
/// peers in turn.
pub open spec fn send_to_each(s: GroupModel, whos: Seq<Seq<u8>>, data: Seq<u8>, hash: Seq<u8>) -> (GroupModel, Seq<NetworkActionModel>)
    decreases whos.len(),
{
    if whos.len() == 0 {
        (s, Seq::empty())
    } else {
        let (s1, acts) = send_to_each(s, whos.drop_last(), data, hash);
        let who = whos.last();
        if has_key(s1.peers, who) {
            (
                GroupModel { peers: update_known(s1.peers, who, |k: Seq<Seq<u8>>| insert_value(k, hash)), ..s1 },
                acts.push(NetworkActionModel::Write(who, s1.protocol, data)),
            )
        } else {
            (s1, acts)
        }
    }
}

/// The buffer size of a sink that must take `n` past messages at once.
pub fn channel_capacity(n: usize) -> (r: usize)
    ensures
        r == if n > MIN_SINK_CAPACITY { n } else { MIN_SINK_CAPACITY },
{
    if n > MIN_SINK_CAPACITY { n } else { MIN_SINK_CAPACITY }
}

impl GroupEngine {
    pub open spec fn wf(&self) -> bool {
        crate::group::group_wf(self@.state) && self@.state.protocol == self@.protocol
    }

    /// Creates an engine for the given notification protocol.
    pub fn new(protocol: String) -> (r: GroupEngine)
        ensures
            r.wf(),
            r@.protocol == protocol@,
            r@.state == (GroupModel {
                peers: Seq::empty(),
                messages: Seq::empty(),
                known: Seq::empty(),
                capacity: crate::group::KNOWN_MESSAGES_CACHE_SIZE as nat,
                protocol: protocol@,
                next_broadcast: crate::group::REBROADCAST_INTERVAL_NS,
                clock: 0,
            }),
    {
        let state_machine = ConsensusGroup::new(protocol.clone());
        GroupEngine { state_machine, protocol }
    }

    /// Registers a message without propagating it; the network is asked to
    /// join its group first.
    pub fn register_group_message(&mut self, group: Vec<u8>, message: Vec<u8>, message_hash: Vec<u8>) -> (r: Vec<NetworkAction>)
        requires
            old(self).wf(),
        ensures
            final(self).wf(),
            final(self)@.protocol == old(self)@.protocol,
            network_models(r@) == seq![NetworkActionModel::Join(hex_lower(group@))],
            exists|now: u64| now >= old(self)@.state.clock && final(self)@.state == register_effect(at_clock(old(self)@.state, now), EntryModel {
                hash: message_hash@,
                group: group@,
                message: message@,
                sender: None,
                create_time: now,
            }),
    {
        let mut r: Vec<NetworkAction> = Vec::new();
        r.push(NetworkAction::JoinGroup { group_id: hex_encode(group.as_slice()) });
        assert(network_models(r@) =~= seq![NetworkActionModel::Join(hex_lower(group@))]);
        self.state_machine.register_message(group, message, message_hash);
        r
    }

    /// Publishes every registered message of a group.
    pub fn broadcast_group(&self, group: &Vec<u8>, force: bool) -> (r: Vec<NetworkAction>)
        ensures
            network_models(r@) == group_entries(self@.state.messages, group@).map_values(
                |e: EntryModel| NetworkActionModel::Publish(hex_lower(e.group), e.message),
            ),
    {
        self.state_machine.broadcast_group(group, force)
    }

    /// The past messages of a group, and the buffer size of a sink that must
    /// take them all at once.
    pub fn messages_for(&self, group: &Vec<u8>) -> (r: (Vec<GroupNotification>, usize))
        ensures
            r.0@.map_values(|n: GroupNotification| n@) == group_entries(self@.state.messages, group@).map_values(
                |e: EntryModel| crate::group::notification_of(e),
            ),
            r.1 == if r.0@.len() > MIN_SINK_CAPACITY { r.0@.len() as usize } else { MIN_SINK_CAPACITY },
    {
        let past = self.state_machine.messages_for(group);
        let cap = channel_capacity(past.len());
        (past, cap)
    }

    /// Sends the registered messages of a group to one peer, oldest first:
    /// all of them when `force` is set, otherwise those the peer is not known
    /// to have; the peer then counts as knowing each of them.
    pub fn send_group(&mut self, who: &Vec<u8>, group: &Vec<u8>, force: bool) -> (r: Vec<NetworkAction>)
        requires
            old(self).wf(),
        ensures
            final(self).wf(),
            final(self)@.protocol == old(self)@.protocol,
            !has_key(old(self)@.state.peers, who@) ==> final(self)@ == old(self)@ && r@.len() == 0,
            has_key(old(self)@.state.peers, who@) ==> final(self)@.state == (GroupModel {
                peers: update_known(old(self)@.state.peers, who@, |k: Seq<Seq<u8>>|
                    propagate_to_peer(k, group_entries(old(self)@.state.messages, group@), send_intent(force)).0),
                ..old(self)@.state
            }),
            forall|x: int| 0 <= x < old(self)@.state.peers.len() && #[trigger] old(self)@.state.peers[x].0 == who@
                ==> network_models(r@) == writes_to(who@, old(self)@.protocol,
                    propagate_to_peer(old(self)@.state.peers[x].1, group_entries(old(self)@.state.messages, group@), send_intent(force)).1),
    {
        self.state_machine.send_group(who, group, force)
    }

    /// Registers a message and publishes it to its group.
    pub fn group_message(&mut self, group: Vec<u8>, message: Vec<u8>, message_hash: Vec<u8>, force: bool) -> (r: Vec<NetworkAction>)
        requires
            old(self).wf(),
        ensures
            final(self).wf(),
            final(self)@.protocol == old(self)@.protocol,
            exists|now: u64| now >= old(self)@.state.clock && final(self)@.state == register_effect(at_clock(old(self)@.state, now), EntryModel {
                hash: message_hash@,
                group: group@,
                message: message@,
                sender: None,
                create_time: now,
            }),
            network_models(r@) == seq![NetworkActionModel::Publish(hex_lower(group@), message@)],
    {
        self.state_machine.multicast(group, message, message_hash, force)
    }

    /// Sends a message to each of the peers in turn; peers not taking part
    /// are skipped.
    pub fn send_message(&mut self, whos: &Vec<Vec<u8>>, data: &Vec<u8>, message_hash: &Vec<u8>) -> (r: Vec<NetworkAction>)
        requires
            old(self).wf(),
        ensures
            final(self).wf(),
            final(self)@.protocol == old(self)@.protocol,
            final(self)@.state == send_to_each(old(self)@.state, whos@.map_values(|w: Vec<u8>| w@), data@, message_hash@).0,
            network_models(r@) == send_to_each(old(self)@.state, whos@.map_values(|w: Vec<u8>| w@), data@, message_hash@).1,
    {
        let ghost s0 = self@.state;
        let ghost ws = whos@.map_values(|w: Vec<u8>| w@);
        let mut r: Vec<NetworkAction> = Vec::new();
        let mut i: usize = 0;
        while i < whos.len()
            invariant
                i <= whos@.len(),
                ws == whos@.map_values(|w: Vec<u8>| w@),
                self.wf(),
                self@.protocol == old(self)@.protocol,
                self@.state == send_to_each(s0, ws.take(i as int), data@, message_hash@).0,
                network_models(r@) == send_to_each(s0, ws.take(i as int), data@, message_hash@).1,
            decreases whos@.len() - i,
        {
            assert(ws.take(i + 1).drop_last() =~= ws.take(i as int));
            assert(ws.take(i + 1).last() == whos@[i as int]@);
            let mut acts = self.state_machine.send_message(&whos[i], data.clone(), message_hash);
            let ghost prev = network_models(r@);
            let ghost added = network_models(acts@);
            r.append(&mut acts);
            assert(network_models(r@) =~= prev + added);
            i = i + 1;
        }
        assert(ws.take(whos@.len() as int) =~= ws);
        r
    }

    /// A notification substream was opened with a peer: peers on our
    /// protocol take part unless they are light nodes.
    pub fn on_stream_opened(&mut self, remote: &Vec<u8>, protocol: &String, role: ObservedRole)
        requires
            old(self).wf(),
        ensures
            final(self).wf(),
            (protocol@ != old(self)@.protocol || role == ObservedRole::Light) ==> final(self)@ == old(self)@,
            (protocol@ == old(self)@.protocol && role != ObservedRole::Light) ==> final(self)@ == (EngineModel {
                state: GroupModel { peers: crate::assoc::assoc_set(old(self)@.state.peers, remote@, Seq::empty()), ..old(self)@.state },
                ..old(self)@
            }),
    {
        if *protocol != self.protocol {
            return;
        }
        self.state_machine.new_peer(remote, role);
    }

    /// A notification substream with a peer was closed: a peer on our
    /// protocol stops taking part.
    pub fn on_stream_closed(&mut self, remote: &Vec<u8>, protocol: &String)
        requires
            old(self).wf(),
        ensures
            final(self).wf(),
            protocol@ != old(self)@.protocol ==> final(self)@ == old(self)@,
            protocol@ == old(self)@.protocol ==> final(self)@ == (EngineModel {
                state: GroupModel { peers: crate::assoc::assoc_remove(old(self)@.state.peers, remote@), ..old(self)@.state },
                ..old(self)@
            }),
    {
        if *protocol != self.protocol {
            return;
        }
        self.state_machine.peer_disconnected(remote);
    }

    /// The data of the received notifications that were sent on our protocol,
    /// in order.
    pub fn messages_of_protocol(&self, messages: &Vec<(String, Vec<u8>)>) -> (r: Vec<Vec<u8>>)
        ensures
            r@.map_values(|v: Vec<u8>| v@) == messages@.filter(|m: (String, Vec<u8>)| m.0@ == self@.protocol).map_values(
                |m: (String, Vec<u8>)| m.1@,
            ),
    {
        let ghost ms = messages@;
        let ghost pred = |m: (String, Vec<u8>)| m.0@ == self@.protocol;
        let ghost f = |m: (String, Vec<u8>)| m.1@;
        let ghost g = |v: Vec<u8>| v@;
        let mut r: Vec<Vec<u8>> = Vec::new();
        let mut i: usize = 0;
        while i < messages.len()
            invariant
                i <= messages@.len(),
                ms == messages@,
                pred == (|m: (String, Vec<u8>)| m.0@ == self@.protocol),
                f == (|m: (String, Vec<u8>)| m.1@),
                g == (|v: Vec<u8>| v@),
                r@.map_values(g) == ms.take(i as int).filter(pred).map_values(f),
            decreases messages@.len() - i,
        {
            proof {
                reveal(Seq::filter);
                assert(ms.take(i + 1).drop_last() =~= ms.take(i as int));
                assert(ms.take(i + 1).last() == ms[i as int]);
            }
            if messages[i].0 == self.protocol {
                let d = messages[i].1.clone();
                let ghost prev = r@;
                r.push(d);
                proof {
                    assert(r@.map_values(g) =~= prev.map_values(g).push(f(ms[i as int])));
                    assert(ms.take(i + 1).filter(pred) == ms.take(i as int).filter(pred).push(ms[i as int]));
                    assert(ms.take(i + 1).filter(pred).map_values(f) =~= ms.take(i as int).filter(pred).map_values(f).push(f(ms[i as int])));
                }
            } else {
                assert(ms.take(i + 1).filter(pred) == ms.take(i as int).filter(pred));
            }
            i = i + 1;
        }
        assert(ms.take(messages@.len() as int) =~= ms);
        r
    }

    /// Handles notifications of our protocol received from a peer, each
    /// given with its hash, and returns the new ones for the upper layers,
    /// keyed by their hash, with the peer as sender.
    pub fn on_notifications(&mut self, remote: &Vec<u8>, messages: &Vec<HashedMessage>) -> (r: Vec<(Vec<u8>, GroupNotification)>)
        requires
            old(self).wf(),
        ensures
            final(self).wf(),
            final(self)@.protocol == old(self)@.protocol,
            !has_key(old(self)@.state.peers, remote@) ==> final(self)@ == old(self)@ && r@.len() == 0,
            has_key(old(self)@.state.peers, remote@) ==> {
                &&& final(self)@.state == incoming_effect(old(self)@.state, remote@, hashed_models(messages@)).0
                &&& forwarded_models(r@) == incoming_effect(old(self)@.state, remote@, hashed_models(messages@)).1
            },
    {
        let r = self.state_machine.on_incoming(remote, messages);
        proof {
            lemma_incoming_keeps_protocol(old(self)@.state, remote@, hashed_models(messages@));
        }
        r
    }

    /// Periodic maintenance.
    pub fn tick(&mut self) -> (r: Vec<NetworkAction>)
        requires
            old(self).wf(),
        ensures
            final(self).wf(),
            final(self)@.protocol == old(self)@.protocol,
            exists|now: u64| now >= old(self)@.state.clock && final(self)@.state == tick_effect(at_clock(old(self)@.state, now), now).0
                && network_models(r@) == tick_effect(at_clock(old(self)@.state, now), now).1,
    {
        self.state_machine.tick()
    }
}

} // verus!
