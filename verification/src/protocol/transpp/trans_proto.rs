//! The group-membership transport behaviour: a queue of events.
use std::collections::VecDeque;

use vstd::prelude::*;

verus! {

/// What the transport's connection handler is told.
#[derive(Debug, Clone, Copy, PartialEq, Eq, Structural)]
pub enum TransEventIn {
    Member,
}

/// What the transport's connection handler reports.
#[derive(Debug, Clone, Copy, PartialEq, Eq, Structural)]
pub enum TransEventOut {
    Member(u32),
}

/// What the transport reports to the swarm.
#[derive(Debug, Clone, Copy, PartialEq, Eq, Structural)]
pub enum TransEvent {
    /// A lookup of group members was requested.
    GroupFindReq,
    /// A connection handler answered.
    GroupFindRes,
}

/// Group membership transport: a queue of events, reported oldest first.
pub struct TransProto {
    events: VecDeque<TransEvent>,
}

impl View for TransProto {
    type V = Seq<TransEvent>;

    /// The pending events, newest first.
    closed spec fn view(&self) -> Seq<TransEvent> {
        self.events@
    }
}

impl TransProto {
    /// A transport with no pending events.
    pub fn new() -> (r: TransProto)
        ensures
            r@ == Seq::<TransEvent>::empty(),
    {
        TransProto { events: VecDeque::new() }
    }

    /// Requests a lookup of the members of a group.
    pub fn group_memeber_find(&mut self, group_id: Vec<u8>)
        ensures
            final(self)@ == seq![TransEvent::GroupFindReq] + old(self)@,
    {
        self.events.push_front(TransEvent::GroupFindReq);
    }

    /// Addresses known for a peer: the transport knows none.
    pub fn addresses_of_peer(&self, peer_id: &Vec<u8>) -> (r: Vec<Vec<u8>>)
        ensures
            r@.len() == 0,
    {
        Vec::new()
    }

    /// A connection handler reported `event` for `peer_id`.
    pub fn inject_event(&mut self, peer_id: &Vec<u8>, event: TransEventOut)
        ensures
            final(self)@ == seq![TransEvent::GroupFindRes] + old(self)@,
    {
        self.events.push_front(TransEvent::GroupFindRes);
    }

    /// Hands the oldest pending event to the swarm, if any.
    pub fn poll(&mut self) -> (r: Option<TransEvent>)
        ensures
            match r {
                Some(e) => old(self)@.len() > 0 && e == old(self)@.last() && final(self)@ == old(self)@.drop_last(),
                None => old(self)@.len() == 0 && final(self)@ == old(self)@,
            },
    {
        let r = self.events.pop_back();
        proof {
            if r.is_some() {
                assert(self@ =~= old(self)@.drop_last());
            }
        }
        r
    }
}

/// The transport reports events in the order they were queued: queuing one
/// more event changes neither the event reported next nor what remains
/// after it, when others were pending.
pub proof fn law_trans_events_fifo(pending: Seq<TransEvent>, e: TransEvent)
    requires
        pending.len() > 0,
    ensures
        (seq![e] + pending).last() == pending.last(),
        (seq![e] + pending).drop_last() == seq![e] + pending.drop_last(),
{
    assert((seq![e] + pending).drop_last() =~= seq![e] + pending.drop_last());
}

} // verus!
