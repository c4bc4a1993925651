use sc_network::shards::layer::{BehaviourAction, ConnectedPoint, InnerMessage, Shards, ShardsConfig, ShardsEvent};
use sc_network::shards::protocol::{Rpc, ShardsAction, ShardsJoin, ShardsMessage};
use sc_network::shards::shard::Shard;

fn drain(s: &mut Shards) -> Vec<BehaviourAction> {
    let mut out = Vec::new();
    while let Some(a) = s.poll() {
        out.push(a);
    }
    out
}

fn peer(n: u8) -> Vec<u8> {
    vec![n; 4]
}

fn connect(s: &mut Shards, p: &Vec<u8>) {
    s.inject_connection_established(p, &ConnectedPoint::Dialer { address: vec![p[0], 0xaa] });
    s.inject_connected(p);
}

fn join_rpc(shard: &str, action: ShardsAction) -> Rpc {
    Rpc { messages: vec![], shards: vec![ShardsJoin { action, shard: Shard::new(shard) }], ttl: Some(6) }
}

fn message(source: u8, seq: u8, shard: &str) -> ShardsMessage {
    ShardsMessage { source: peer(source), data: b"hi".to_vec(), sequence_number: vec![seq; 20], shards: vec![Shard::new(shard)] }
}

fn notified(a: &BehaviourAction) -> Option<(&Vec<u8>, &Rpc)> {
    match a {
        BehaviourAction::NotifyHandler { peer_id, event } => Some((peer_id, event)),
        _ => None,
    }
}

#[test]
fn join_twice_and_leave_twice() {
    let mut s = Shards::new(peer(0));
    assert!(s.join(Shard::new("a")));
    assert!(!s.join(Shard::new("a")));
    assert!(s.leave(Shard::new("a")));
    assert!(!s.leave(Shard::new("a")));
    assert!(drain(&mut s).is_empty());
}

#[test]
fn join_notifies_connected_peers() {
    let mut s = Shards::new(peer(0));
    connect(&mut s, &peer(1));
    connect(&mut s, &peer(2));
    assert!(drain(&mut s).is_empty());
    assert!(s.join(Shard::new("a")));
    let acts = drain(&mut s);
    assert_eq!(acts.len(), 2);
    for (a, p) in acts.iter().zip([peer(1), peer(2)]) {
        let (to, rpc) = notified(a).unwrap();
        assert_eq!(to, &p);
        assert_eq!(rpc, &join_rpc("a", ShardsAction::Join));
    }
    assert!(s.leave(Shard::new("a")));
    let acts = drain(&mut s);
    assert_eq!(acts.len(), 2);
    assert_eq!(notified(&acts[0]).unwrap().1, &join_rpc("a", ShardsAction::Leave));
}

#[test]
fn new_target_is_dialed_once() {
    let mut s = Shards::new(peer(0));
    s.add_node_to_partial_view(peer(1));
    let acts = drain(&mut s);
    assert_eq!(acts.len(), 1);
    assert!(matches!(&acts[0], BehaviourAction::DialPeer { peer_id } if peer_id == &peer(1)));
    s.add_node_to_partial_view(peer(1));
    assert!(drain(&mut s).is_empty());
}

#[test]
fn connected_target_learns_our_shards() {
    let mut s = Shards::new(peer(0));
    s.join(Shard::new("a"));
    s.join(Shard::new("b"));
    s.add_node_to_partial_view(peer(1));
    drain(&mut s);
    s.inject_connected(&peer(1));
    let acts = drain(&mut s);
    assert_eq!(acts.len(), 2);
    assert_eq!(notified(&acts[0]).unwrap().1, &join_rpc("a", ShardsAction::Join));
    assert_eq!(notified(&acts[1]).unwrap().1, &join_rpc("b", ShardsAction::Join));
    // a peer that is not a target hears nothing on connection
    s.inject_connected(&peer(2));
    assert!(drain(&mut s).is_empty());
}

#[test]
fn disconnected_target_is_redialed() {
    let mut s = Shards::new(peer(0));
    connect(&mut s, &peer(1));
    s.inject_disconnected(&peer(1));
    let acts = drain(&mut s);
    assert_eq!(acts.len(), 1);
    assert!(matches!(&acts[0], BehaviourAction::DialPeer { peer_id } if peer_id == &peer(1)));
    s.remove_node_from_partial_view(&peer(1));
    s.inject_disconnected(&peer(1));
    assert!(drain(&mut s).is_empty());
}

#[test]
fn addresses_are_recorded_per_peer() {
    let mut s = Shards::new(peer(0));
    assert!(s.addresses_of_peer(&peer(1)).is_empty());
    s.inject_connection_established(&peer(1), &ConnectedPoint::Dialer { address: vec![1] });
    s.inject_connection_established(
        &peer(1),
        &ConnectedPoint::Listener { local_addr: vec![9], send_back_addr: vec![2] },
    );
    assert_eq!(s.addresses_of_peer(&peer(1)), vec![vec![1], vec![2]]);
    s.add_known_peer(peer(1), vec![vec![7]]);
    assert_eq!(s.addresses_of_peer(&peer(1)), vec![vec![7]]);
}

#[test]
fn publish_goes_to_peers_sharing_the_shard() {
    let mut s = Shards::new(peer(0));
    connect(&mut s, &peer(1));
    connect(&mut s, &peer(2));
    s.inject_event(peer(1), InnerMessage::from_rpc(join_rpc("a", ShardsAction::Join)));
    s.inject_event(peer(2), InnerMessage::from_rpc(join_rpc("b", ShardsAction::Join)));
    drain(&mut s);
    // not joined: nothing is published
    s.publish(Shard::new("a"), b"x".to_vec());
    assert!(drain(&mut s).is_empty());
    // publish_any goes out anyway
    s.publish_any(Shard::new("a"), b"x".to_vec());
    let acts = drain(&mut s);
    assert_eq!(acts.len(), 1);
    let (to, rpc) = notified(&acts[0]).unwrap();
    assert_eq!(to, &peer(1));
    assert_eq!(rpc.ttl, Some(6));
    assert_eq!(rpc.messages.len(), 1);
    assert_eq!(rpc.messages[0].source, peer(0));
    assert_eq!(rpc.messages[0].data, b"x".to_vec());
    assert_eq!(rpc.messages[0].sequence_number.len(), 20);
    // joined: published, not reported to us by default
    s.join(Shard::new("b"));
    drain(&mut s);
    s.publish(Shard::new("b"), b"y".to_vec());
    let acts = drain(&mut s);
    assert_eq!(acts.len(), 1);
    assert_eq!(notified(&acts[0]).unwrap().0, &peer(2));
}

#[test]
fn own_messages_are_reported_when_asked() {
    let mut s = Shards::from_config(ShardsConfig { local_peer_id: peer(0), join_local_messages: true });
    s.join(Shard::new("a"));
    s.publish_many(vec![Shard::new("a"), Shard::new("z")], b"m".to_vec());
    let acts = drain(&mut s);
    assert_eq!(acts.len(), 1);
    assert!(matches!(&acts[0], BehaviourAction::GenerateEvent(ShardsEvent::Message(m)) if m.data == b"m".to_vec()));
    s.publish_many_any(vec![Shard::new("q")], b"n".to_vec());
    assert!(drain(&mut s).is_empty());
}

#[test]
fn received_messages_are_relayed_with_one_hop_less() {
    let mut s = Shards::new(peer(0));
    s.join(Shard::new("a"));
    for p in 1..=3 {
        connect(&mut s, &peer(p));
    }
    // each new target peer is told the shard we joined
    assert_eq!(drain(&mut s).len(), 3);
    s.inject_event(peer(2), InnerMessage::from_rpc(join_rpc("a", ShardsAction::Join)));
    s.inject_event(peer(3), InnerMessage::from_rpc(join_rpc("a", ShardsAction::Join)));
    s.inject_event(peer(1), InnerMessage::from_rpc(join_rpc("a", ShardsAction::Join)));
    let acts = drain(&mut s);
    assert_eq!(acts.len(), 3);
    assert!(matches!(&acts[0], BehaviourAction::GenerateEvent(ShardsEvent::Joined { peer_id, shard })
        if peer_id == &peer(2) && shard.id() == "a"));

    let rpc = Rpc { messages: vec![message(1, 1, "a"), message(1, 2, "a")], shards: vec![], ttl: Some(3) };
    s.inject_event(peer(1), InnerMessage::from_rpc(rpc));
    let acts = drain(&mut s);
    // two deliveries to us, then one RPC to each of the other two peers
    assert_eq!(acts.len(), 4);
    assert!(matches!(&acts[0], BehaviourAction::GenerateEvent(ShardsEvent::Message(m)) if m == &message(1, 1, "a")));
    assert!(matches!(&acts[1], BehaviourAction::GenerateEvent(ShardsEvent::Message(m)) if m == &message(1, 2, "a")));
    let (to, relayed) = notified(&acts[2]).unwrap();
    assert_eq!(to, &peer(2));
    assert_eq!(relayed.ttl, Some(2));
    assert_eq!(relayed.messages, vec![message(1, 1, "a"), message(1, 2, "a")]);
    assert_eq!(notified(&acts[3]).unwrap().0, &peer(3));

    // the same message again is not dispatched a second time
    let again = Rpc { messages: vec![message(1, 1, "a")], shards: vec![], ttl: Some(3) };
    s.inject_event(peer(2), InnerMessage::from_rpc(again));
    assert!(drain(&mut s).is_empty());
}

#[test]
fn exhausted_and_sent_events_change_nothing() {
    let mut s = Shards::new(peer(0));
    s.join(Shard::new("a"));
    connect(&mut s, &peer(1));
    connect(&mut s, &peer(2));
    s.inject_event(peer(2), InnerMessage::from_rpc(join_rpc("a", ShardsAction::Join)));
    drain(&mut s);
    let dead = Rpc { messages: vec![message(1, 7, "a")], shards: vec![], ttl: Some(0) };
    s.inject_event(peer(1), InnerMessage::from_rpc(dead));
    assert!(drain(&mut s).is_empty());
    s.inject_event(peer(1), InnerMessage::sent());
    assert!(drain(&mut s).is_empty());
    // a missing hop count counts as the default
    let fresh = Rpc { messages: vec![message(1, 8, "a")], shards: vec![], ttl: None };
    s.inject_event(peer(1), InnerMessage::from_rpc(fresh));
    let acts = drain(&mut s);
    assert_eq!(acts.len(), 2);
    assert_eq!(notified(&acts[1]).unwrap().1.ttl, Some(5));
}

#[test]
fn leave_notice_removes_the_peer_from_relaying() {
    let mut s = Shards::new(peer(0));
    connect(&mut s, &peer(1));
    connect(&mut s, &peer(2));
    s.inject_event(peer(2), InnerMessage::from_rpc(join_rpc("a", ShardsAction::Join)));
    s.inject_event(peer(2), InnerMessage::from_rpc(join_rpc("a", ShardsAction::Leave)));
    let acts = drain(&mut s);
    assert!(matches!(&acts[1], BehaviourAction::GenerateEvent(ShardsEvent::Left { peer_id, .. }) if peer_id == &peer(2)));
    let rpc = Rpc { messages: vec![message(1, 3, "a")], shards: vec![], ttl: Some(6) };
    s.inject_event(peer(1), InnerMessage::from_rpc(rpc));
    assert!(drain(&mut s).is_empty());
}

#[test]
fn handle_rpc_relays_only_flagged_messages() {
    let mut s = Shards::new(peer(0));
    connect(&mut s, &peer(1));
    connect(&mut s, &peer(2));
    s.inject_event(peer(2), InnerMessage::from_rpc(join_rpc("a", ShardsAction::Join)));
    drain(&mut s);
    let rpc = Rpc { messages: vec![message(1, 4, "a"), message(1, 5, "a")], shards: vec![], ttl: Some(2) };
    s.handle_rpc(&peer(1), &rpc, &vec![false, true]);
    let acts = drain(&mut s);
    assert_eq!(acts.len(), 1);
    let (to, relayed) = notified(&acts[0]).unwrap();
    assert_eq!(to, &peer(2));
    assert_eq!(relayed.messages, vec![message(1, 5, "a")]);
    assert_eq!(relayed.ttl, Some(1));
    // nothing goes back to the source even when it shares the shard
    s.handle_rpc(&peer(2), &rpc, &vec![true, true]);
    assert!(drain(&mut s).is_empty());
}

#[test]
fn connection_state_is_tracked() {
    let mut s = Shards::new(peer(0));
    assert!(!s.is_connected(&peer(1)));
    s.inject_connected(&peer(1));
    assert!(s.is_connected(&peer(1)));
    s.inject_disconnected(&peer(1));
    assert!(!s.is_connected(&peer(1)));
}

#[test]
fn duplicates_within_an_rpc_are_dispatched_once() {
    let mut s = Shards::new(peer(0));
    s.join(Shard::new("a"));
    connect(&mut s, &peer(1));
    connect(&mut s, &peer(2));
    s.inject_event(peer(2), InnerMessage::from_rpc(join_rpc("a", ShardsAction::Join)));
    drain(&mut s);
    let rpc = Rpc { messages: vec![message(1, 9, "a"), message(1, 9, "a")], shards: vec![], ttl: Some(4) };
    s.inject_event(peer(1), InnerMessage::from_rpc(rpc));
    let acts = drain(&mut s);
    assert_eq!(acts.len(), 2);
    assert!(matches!(&acts[0], BehaviourAction::GenerateEvent(ShardsEvent::Message(m)) if m == &message(1, 9, "a")));
    assert_eq!(notified(&acts[1]).unwrap().1.messages, vec![message(1, 9, "a")]);
}

#[test]
fn our_own_message_coming_back_is_not_dispatched() {
    let mut s = Shards::from_config(ShardsConfig { local_peer_id: peer(0), join_local_messages: true });
    s.join(Shard::new("a"));
    connect(&mut s, &peer(1));
    connect(&mut s, &peer(2));
    s.inject_event(peer(1), InnerMessage::from_rpc(join_rpc("a", ShardsAction::Join)));
    s.inject_event(peer(2), InnerMessage::from_rpc(join_rpc("a", ShardsAction::Join)));
    drain(&mut s);
    s.publish(Shard::new("a"), b"mine".to_vec());
    let acts = drain(&mut s);
    assert_eq!(acts.len(), 3);
    let sent = notified(&acts[1]).unwrap().1.clone();
    s.inject_event(peer(1), InnerMessage::from_rpc(Rpc { messages: sent.messages, shards: vec![], ttl: Some(5) }));
    assert!(drain(&mut s).is_empty());
}

fn two_subscribers_of_g1(join_ourselves: bool) -> Shards {
    let mut s = Shards::new(peer(0));
    if join_ourselves {
        s.join(Shard::new("G1"));
    }
    for p in 1..=3 {
        s.inject_connected(&peer(p));
    }
    for p in 1..=2 {
        s.inject_event(peer(p), InnerMessage::from_rpc(join_rpc("G1", ShardsAction::Join)));
    }
    drain(&mut s);
    s
}

#[test]
fn unseen_message_is_delivered_and_relayed_once() {
    let mut s = two_subscribers_of_g1(true);
    let m = ShardsMessage { source: vec![9], data: vec![1], sequence_number: vec![7], shards: vec![Shard::new("G1")] };
    s.inject_event(peer(1), InnerMessage::from_rpc(Rpc { messages: vec![m.clone()], shards: vec![], ttl: Some(3) }));
    let acts = drain(&mut s);
    assert_eq!(acts.len(), 2);
    assert!(matches!(&acts[0], BehaviourAction::GenerateEvent(ShardsEvent::Message(x)) if x == &m));
    let (to, rpc) = notified(&acts[1]).unwrap();
    assert_eq!(to, &peer(2));
    assert_eq!(rpc, &Rpc { messages: vec![m], shards: vec![], ttl: Some(2) });
}

#[test]
fn unseen_message_is_relayed_by_a_node_outside_its_shard() {
    let mut s = two_subscribers_of_g1(false);
    let m = ShardsMessage { source: vec![9], data: vec![1], sequence_number: vec![7], shards: vec![Shard::new("G1")] };
    s.inject_event(peer(2), InnerMessage::from_rpc(Rpc { messages: vec![m.clone()], shards: vec![], ttl: None }));
    let acts = drain(&mut s);
    assert_eq!(acts.len(), 1);
    let (to, rpc) = notified(&acts[0]).unwrap();
    assert_eq!(to, &peer(1));
    assert_eq!(rpc, &Rpc { messages: vec![m], shards: vec![], ttl: Some(5) });
}
