use sc_network::protocol::transpp::protocol::Group;
use sc_network::protocol::transpp::trans_proto::{TransEvent, TransEventOut, TransProto};
use sc_network::protocol::transpp::GroupFailure;

#[test]
fn it_hello() {}

#[test]
fn route_path_item_test() {}

#[test]
fn trans_events_come_out_in_order() {
    let mut t = TransProto::new();
    assert_eq!(t.poll(), None);
    t.group_memeber_find(b"g1".to_vec());
    t.inject_event(&vec![1, 2, 3], TransEventOut::Member(7));
    t.group_memeber_find(b"g2".to_vec());
    assert_eq!(t.poll(), Some(TransEvent::GroupFindReq));
    assert_eq!(t.poll(), Some(TransEvent::GroupFindRes));
    assert_eq!(t.poll(), Some(TransEvent::GroupFindReq));
    assert_eq!(t.poll(), None);
    assert!(t.addresses_of_peer(&vec![1]).is_empty());
}

#[test]
fn group_failure_descriptions() {
    assert_eq!(GroupFailure::Timeout.message(), "Ping timeout");
    assert!(GroupFailure::Timeout.source().is_none());
    let f = GroupFailure::Other { error: "refused".to_string() };
    assert_eq!(f.message(), "Ping error: refused");
    assert_eq!(f.source(), Some(&"refused".to_string()));
}

#[test]
fn group_protocol_name() {
    assert_eq!(Group.protocol_info(), b"/xjrw/group/1.0.1".to_vec());
}
