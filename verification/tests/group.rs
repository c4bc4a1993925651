use sc_network::engine::channel_capacity;
use sc_network::group::GroupEngine;
use sc_network::sinks::{ForwardStep, SinkState, SinkTable};
use sc_network::group::{ConsensusGroup, GroupNotification, HashedMessage, MessageIntent, NetworkAction, ObservedRole};
use sc_network::protocol::generic_proto::group::{GroupEventOut, GroupProto, InnerProtoEvent};

/// One millisecond, in the nanoseconds the gossip clock counts.
const MS: u64 = 1_000_000;

fn p(n: u8) -> Vec<u8> {
    vec![n; 3]
}

fn writes(acts: &[NetworkAction]) -> Vec<(Vec<u8>, String, Vec<u8>)> {
    acts.iter()
        .map(|a| match a {
            NetworkAction::WriteNotification { who, protocol, message } => (who.clone(), protocol.clone(), message.clone()),
            other => panic!("unexpected action {:?}", other),
        })
        .collect()
}

#[test]
fn light_peers_do_not_take_part() {
    let mut g = ConsensusGroup::new("/group".to_string());
    g.new_peer(&p(1), ObservedRole::Light);
    let acts = g.send_message(&p(1), b"m".to_vec(), &b"h".to_vec());
    assert!(acts.is_empty());
    g.new_peer(&p(1), ObservedRole::Full);
    let acts = g.send_message(&p(1), b"m".to_vec(), &b"h".to_vec());
    assert_eq!(writes(&acts), vec![(p(1), "/group".to_string(), b"m".to_vec())]);
    g.peer_disconnected(&p(1));
    assert!(g.send_message(&p(1), b"m".to_vec(), &b"h".to_vec()).is_empty());
}

#[test]
fn a_hash_is_registered_once() {
    let mut g = ConsensusGroup::new("/group".to_string());
    g.register_message(b"g1".to_vec(), b"first".to_vec(), b"h1".to_vec());
    g.register_message(b"g1".to_vec(), b"again".to_vec(), b"h1".to_vec());
    g.register_message(b"g2".to_vec(), b"other".to_vec(), b"h2".to_vec());
    g.register_message(b"g1".to_vec(), b"second".to_vec(), b"h3".to_vec());
    let past = g.messages_for(&b"g1".to_vec());
    assert_eq!(
        past,
        vec![
            GroupNotification { message: b"first".to_vec(), sender: None },
            GroupNotification { message: b"second".to_vec(), sender: None },
        ]
    );
    assert!(g.messages_for(&b"g9".to_vec()).is_empty());
}

#[test]
fn broadcast_publishes_to_the_hex_group_id() {
    let mut g = ConsensusGroup::new("/group".to_string());
    g.register_message(vec![0x0a, 0xff], b"x".to_vec(), b"h1".to_vec());
    g.register_message(vec![0x01], b"y".to_vec(), b"h2".to_vec());
    let acts = g.broadcast_group(&vec![0x0a, 0xff], false);
    assert_eq!(acts.len(), 1);
    assert!(matches!(&acts[0], NetworkAction::PublishMessage { group_id, data } if group_id == "0aff" && data == b"x"));
    let acts = g.multicast(vec![0xab, 0x00], b"z".to_vec(), b"h9".to_vec(), true);
    assert!(matches!(&acts[0], NetworkAction::PublishMessage { group_id, data } if group_id == "ab00" && data == b"z"));
    assert_eq!(g.messages_for(&vec![0xab, 0x00]).len(), 1);
}

#[test]
fn rebroadcast_waits_for_the_interval() {
    let mut g = ConsensusGroup::new("/group".to_string());
    g.new_peer(&p(1), ObservedRole::Full);
    g.new_peer(&p(2), ObservedRole::Authority);
    g.register_message(b"g".to_vec(), b"a".to_vec(), b"ha".to_vec());
    g.register_message(b"g".to_vec(), b"b".to_vec(), b"hb".to_vec());
    assert!(g.tick_at(29_999 * MS).is_empty());
    let acts = g.tick_at(30_000 * MS);
    assert_eq!(
        writes(&acts),
        vec![
            (p(1), "/group".to_string(), b"a".to_vec()),
            (p(1), "/group".to_string(), b"b".to_vec()),
            (p(2), "/group".to_string(), b"a".to_vec()),
            (p(2), "/group".to_string(), b"b".to_vec()),
        ]
    );
    assert!(g.tick_at(59_999 * MS).is_empty());
    assert_eq!(g.tick_at(60_000 * MS).len(), 4);
}

#[test]
fn broadcast_skips_what_a_peer_knows() {
    let mut g = ConsensusGroup::new("/group".to_string());
    g.new_peer(&p(1), ObservedRole::Full);
    g.new_peer(&p(2), ObservedRole::Full);
    g.register_message(b"g".to_vec(), b"a".to_vec(), b"ha".to_vec());
    g.register_message(b"k".to_vec(), b"b".to_vec(), b"hb".to_vec());
    let acts = g.send_group(&p(1), &b"g".to_vec(), false);
    assert_eq!(writes(&acts), vec![(p(1), "/group".to_string(), b"a".to_vec())]);
    assert!(g.send_group(&p(1), &b"g".to_vec(), false).is_empty());
    assert_eq!(writes(&g.send_group(&p(1), &b"g".to_vec(), true)), vec![(p(1), "/group".to_string(), b"a".to_vec())]);
    assert!(g.send_group(&p(9), &b"g".to_vec(), true).is_empty());
    let acts = g.propagate(MessageIntent::Broadcast);
    assert_eq!(
        writes(&acts),
        vec![
            (p(1), "/group".to_string(), b"b".to_vec()),
            (p(2), "/group".to_string(), b"a".to_vec()),
            (p(2), "/group".to_string(), b"b".to_vec()),
        ]
    );
    // now everyone knows everything
    assert!(g.propagate(MessageIntent::Broadcast).is_empty());
    // a forced broadcast sends anyway
    assert_eq!(g.propagate(MessageIntent::ForcedBroadcast).len(), 4);
}

#[test]
fn incoming_messages_mark_the_sender_as_knowing_them() {
    let mut g = ConsensusGroup::new("/group".to_string());
    g.new_peer(&p(1), ObservedRole::Full);
    g.register_message(b"g".to_vec(), b"a".to_vec(), b"ha".to_vec());
    let fwd = g.on_incoming(&p(1), &vec![HashedMessage { hash: b"hz".to_vec(), message: b"z".to_vec() }]);
    assert_eq!(fwd, vec![(b"hz".to_vec(), GroupNotification { message: b"z".to_vec(), sender: Some(p(1)) })]);
    // hz was not in the cache, so p1 knows it; but it is not registered
    assert!(g.messages_for(&b"g".to_vec()).len() == 1);
    let acts = g.propagate(MessageIntent::Broadcast);
    assert_eq!(writes(&acts), vec![(p(1), "/group".to_string(), b"a".to_vec())]);
}

#[test]
fn old_messages_are_collected() {
    let mut g = ConsensusGroup::new("/group".to_string());
    g.register_message(b"g".to_vec(), b"a".to_vec(), b"ha".to_vec());
    g.collect_garbage_at(60_000 * MS);
    assert_eq!(g.messages_for(&b"g".to_vec()).len(), 1);
    g.collect_garbage_at(10_000_000 * MS);
    assert!(g.messages_for(&b"g".to_vec()).is_empty());
    // the hash stays known: registering it again keeps nothing
    g.register_message(b"g".to_vec(), b"a".to_vec(), b"ha".to_vec());
    assert!(g.messages_for(&b"g".to_vec()).is_empty());
    g.collect_garbage();
    g.tick();
    assert_eq!(g.protocol(), "/group");
}

#[test]
fn engine_follows_its_protocol_only() {
    let mut e = GroupEngine::new("/group".to_string());
    e.on_stream_opened(&p(1), &"/other".to_string(), ObservedRole::Full);
    e.on_stream_opened(&p(2), &"/group".to_string(), ObservedRole::Full);
    e.on_stream_opened(&p(3), &"/group".to_string(), ObservedRole::Light);
    let acts = e.send_message(&vec![p(1), p(2), p(3)], &b"d".to_vec(), &b"hd".to_vec());
    assert_eq!(writes(&acts), vec![(p(2), "/group".to_string(), b"d".to_vec())]);
    e.on_stream_closed(&p(2), &"/other".to_string());
    assert_eq!(e.send_message(&vec![p(2)], &b"d".to_vec(), &b"hd".to_vec()).len(), 1);
    e.on_stream_closed(&p(2), &"/group".to_string());
    assert!(e.send_message(&vec![p(2)], &b"d".to_vec(), &b"hd".to_vec()).is_empty());
    let kept = e.messages_of_protocol(&vec![
        ("/group".to_string(), b"1".to_vec()),
        ("/x".to_string(), b"2".to_vec()),
        ("/group".to_string(), b"3".to_vec()),
    ]);
    assert_eq!(kept, vec![b"1".to_vec(), b"3".to_vec()]);
    assert!(e.on_notifications(&p(2), &vec![]).is_empty());
}

#[test]
fn engine_registers_after_joining_the_group() {
    let mut e = GroupEngine::new("/group".to_string());
    let acts = e.register_group_message(vec![0x12, 0x34], b"m".to_vec(), b"hm".to_vec());
    assert_eq!(acts.len(), 1);
    assert!(matches!(&acts[0], NetworkAction::JoinGroup { group_id } if group_id == "1234"));
    let (past, cap) = e.messages_for(&vec![0x12, 0x34]);
    assert_eq!(past.len(), 1);
    assert_eq!(cap, 10);
    let acts = e.broadcast_group(&vec![0x12, 0x34], true);
    assert!(matches!(&acts[0], NetworkAction::PublishMessage { group_id, data } if group_id == "1234" && data == b"m"));
    let acts = e.group_message(vec![0x12, 0x34], b"n".to_vec(), b"hn".to_vec(), false);
    assert!(matches!(&acts[0], NetworkAction::PublishMessage { data, .. } if data == b"n"));
    e.send_group(&p(1), &vec![0x12, 0x34], false);
    assert!(e.tick().is_empty());
}

#[test]
fn sink_capacity_is_at_least_ten() {
    assert_eq!(channel_capacity(0), 10);
    assert_eq!(channel_capacity(10), 10);
    assert_eq!(channel_capacity(11), 11);
    assert_eq!(channel_capacity(500), 500);
}

#[test]
fn group_timers() {
    let mut g = GroupProto::new(vec![0, 1, 2]);
    assert_eq!(g.local_peer_id(), &vec![0, 1, 2]);
    match g.on_timer() {
        GroupEventOut::Message { from_id, group_id, data } => {
            assert_eq!(from_id, vec![0, 1, 2]);
            assert_eq!(group_id, bs58::encode(&[0u8, 1, 2]).into_string().into_bytes());
            assert_eq!(group_id, b"15T".to_vec());
            assert_eq!(data, b"hello world".to_vec());
        }
        other => panic!("unexpected {:?}", other),
    }
    let ids: Vec<u64> = (0..4)
        .map(|_| match g.on_join_timer() {
            GroupEventOut::Join { group_id, peer_id } => {
                assert_eq!(peer_id, vec![0, 1, 2]);
                group_id
            }
            other => panic!("unexpected {:?}", other),
        })
        .collect();
    assert_eq!(ids, vec![1, 2, 0, 1]);
    assert!(g.next_queued().is_none());
}

#[test]
fn only_notifications_are_passed_on() {
    let g = GroupProto::new(vec![7]);
    let e = g.map_inner_event(InnerProtoEvent::Notification {
        peer_id: vec![9],
        protocol_name: "/group/1".to_string(),
        message: b"x".to_vec(),
    });
    assert!(matches!(e, Some(GroupEventOut::Sending { target, data }) if target == vec![9] && data == b"x".to_vec()));
    assert!(g.map_inner_event(InnerProtoEvent::CustomProtocolOpen { peer_id: vec![9] }).is_none());
    assert!(g.map_inner_event(InnerProtoEvent::CustomProtocolClosed { peer_id: vec![9] }).is_none());
    assert!(g.map_inner_event(InnerProtoEvent::LegacyMessage { peer_id: vec![9], message: vec![] }).is_none());
}

#[test]
fn lifetime_boundary_is_exclusive() {
    let mut g = ConsensusGroup::new("/group".to_string());
    g.register_message_hashed(b"h1".to_vec(), b"g".to_vec(), b"a".to_vec(), Some(p(4)), 1_000 * MS);
    g.register_message_hashed(b"h2".to_vec(), b"g".to_vec(), b"b".to_vec(), None, 2_000 * MS);
    assert_eq!(
        g.messages_for(&b"g".to_vec()),
        vec![
            GroupNotification { message: b"a".to_vec(), sender: Some(p(4)) },
            GroupNotification { message: b"b".to_vec(), sender: None },
        ]
    );
    g.collect_garbage_at(120_999 * MS);
    assert_eq!(g.messages_for(&b"g".to_vec()).len(), 2);
    g.collect_garbage_at(121_000 * MS);
    assert_eq!(g.messages_for(&b"g".to_vec()), vec![GroupNotification { message: b"b".to_vec(), sender: None }]);
    // a clock reading before the registration counts as no age at all
    g.collect_garbage_at(0);
    assert_eq!(g.messages_for(&b"g".to_vec()).len(), 1);
}

#[test]
fn greeting_carries_the_group_name() {
    let g = GroupProto::new(vec![5, 6]);
    match g.greeting_to("Qm\u{e9}".to_string()) {
        GroupEventOut::Message { from_id, group_id, data } => {
            assert_eq!(from_id, vec![5, 6]);
            assert_eq!(group_id, vec![0x51, 0x6d, 0xc3, 0xa9]);
            assert_eq!(data, b"hello world".to_vec());
        }
        other => panic!("unexpected {:?}", other),
    }
}

#[test]
fn sinks_receive_their_groups_notifications() {
    let mut t = SinkTable::new();
    assert_eq!(t.forward(&b"g".to_vec(), &vec![]), ForwardStep::Skip);
    t.add(&b"g".to_vec(), 1);
    t.add(&b"h".to_vec(), 2);
    t.add(&b"g".to_vec(), 3);
    assert_eq!(t.sinks_of(&b"g".to_vec()), vec![1, 3]);
    assert_eq!(t.sinks_of(&b"x".to_vec()), Vec::<u64>::new());
    // a sink without room holds everything back
    assert_eq!(t.forward(&b"g".to_vec(), &vec![SinkState::Ready, SinkState::Pending]), ForwardStep::Wait);
    assert_eq!(t.sinks_of(&b"g".to_vec()), vec![1, 3]);
    // closed sinks are dropped, the others served
    assert_eq!(t.forward(&b"g".to_vec(), &vec![SinkState::Closed, SinkState::Ready]), ForwardStep::Deliver(vec![3]));
    assert_eq!(t.sinks_of(&b"g".to_vec()), vec![3]);
    // a group left with no sink is forgotten
    assert_eq!(t.forward(&b"g".to_vec(), &vec![SinkState::Closed]), ForwardStep::Skip);
    assert!(t.sinks_of(&b"g".to_vec()).is_empty());
    t.add(&b"h".to_vec(), 4);
    t.prune(&vec![2]);
    assert_eq!(t.sinks_of(&b"h".to_vec()), vec![4]);
    t.prune(&vec![4]);
    assert!(t.sinks_of(&b"h".to_vec()).is_empty());
}

#[test]
fn new_incoming_messages_are_returned_once() {
    let mut g = ConsensusGroup::new("/group".to_string());
    g.new_peer(&p(1), ObservedRole::Full);
    let msg = |d: u8| HashedMessage { hash: vec![0xa0 + d], message: vec![d] };
    let fwd = g.on_incoming(&p(1), &vec![msg(1), msg(2), msg(1)]);
    assert_eq!(
        fwd,
        vec![
            (vec![0xa1], GroupNotification { message: vec![1], sender: Some(p(1)) }),
            (vec![0xa2], GroupNotification { message: vec![2], sender: Some(p(1)) }),
        ]
    );
    // known now: nothing new the second time
    assert!(g.on_incoming(&p(1), &vec![msg(2)]).is_empty());
    // a peer not taking part is ignored
    assert!(g.on_incoming(&p(7), &vec![msg(3)]).is_empty());
    assert_eq!(g.on_incoming(&p(1), &vec![msg(3)]).len(), 1);
}

#[test]
fn timer_group_is_named_in_base58() {
    let cases: Vec<(Vec<u8>, &[u8])> = vec![
        (vec![0, 0, 1], b"112"),
        (vec![0x04, 0x30, 0x5e, 0x2b, 0x24, 0x73, 0xf0, 0x58], b"he11owor1d"),
        (vec![], b""),
        (vec![0], b"1"),
        (vec![57], b"z"),
        (vec![58], b"21"),
    ];
    for (id, text) in cases {
        let g = GroupProto::new(id.clone());
        match g.on_timer() {
            GroupEventOut::Message { from_id, group_id, .. } => {
                assert_eq!(from_id, id);
                assert_eq!(group_id, text.to_vec());
            }
            other => panic!("unexpected {:?}", other),
        }
    }
}
