use parity_scale_codec::{Compact, Encode};
use sc_network::shards::protocol::{Rpc, ShardsAction, ShardsDecodeError, ShardsJoin, ShardsMessage, ShardsProtocol};
use sc_network::shards::shard::Shard;
use sc_network::shards::wire::{message_can_encode, read_compact, read_shard_names, rpc_can_encode, write_compact};
use parity_scale_codec::Decode;

fn message(source: &[u8], data: &[u8], seq: &[u8], shards: &[&str]) -> ShardsMessage {
    ShardsMessage {
        source: source.to_vec(),
        data: data.to_vec(),
        sequence_number: seq.to_vec(),
        shards: shards.iter().map(|s| Shard::new(s)).collect(),
    }
}

fn sample_rpc() -> Rpc {
    Rpc {
        messages: vec![message(b"peer-a", b"payload", &[9; 20], &["G1", "G2"]), message(b"", b"", b"", &[])],
        shards: vec![
            ShardsJoin { action: ShardsAction::Join, shard: Shard::new("G1") },
            ShardsJoin { action: ShardsAction::Leave, shard: Shard::new("h\u{e9}llo") },
        ],
        ttl: Some(5),
    }
}

#[test]
fn compact_lengths_match_scale() {
    for n in [0u32, 1, 63, 64, 100, 16383, 16384, 65535, 1_073_741_823, 1_073_741_824, u32::MAX] {
        let mut out = Vec::new();
        write_compact(n, &mut out);
        assert_eq!(out, Compact(n).encode(), "length {}", n);
    }
}

#[test]
fn rpc_bytes_match_scale() {
    let rpc = sample_rpc();
    let mut expected = Vec::new();
    expected.extend(Compact(2u32).encode());
    for m in &rpc.messages {
        expected.extend(m.source.encode());
        expected.extend(m.data.encode());
        expected.extend(m.sequence_number.encode());
        let names: Vec<String> = m.shards.iter().map(|s| s.id().to_string()).collect();
        expected.extend(names.encode());
    }
    expected.extend(Compact(2u32).encode());
    expected.push(0);
    expected.extend("G1".to_string().encode());
    expected.push(1);
    expected.extend("h\u{e9}llo".to_string().encode());
    expected.extend(Some(5u8).encode());
    assert_eq!(rpc.clone().into_bytes(), expected);
}

#[test]
fn rpc_roundtrip() {
    let rpc = sample_rpc();
    let mut bytes = rpc.clone().into_bytes();
    let back = ShardsProtocol::new().decode_packet(&bytes).unwrap();
    assert_eq!(back, rpc);
    bytes.extend([1, 2, 3]);
    let back = ShardsProtocol::new().decode_packet(&bytes).unwrap();
    assert_eq!(back, rpc);
}

#[test]
fn empty_rpc_bytes() {
    let rpc = Rpc { messages: vec![], shards: vec![], ttl: None };
    assert_eq!(rpc.into_bytes(), vec![0, 0, 0]);
}

#[test]
fn truncated_packets_are_refused() {
    let bytes = sample_rpc().into_bytes();
    for cut in 0..bytes.len() {
        assert!(matches!(
            ShardsProtocol::new().decode_packet(&bytes[..cut]),
            Err(ShardsDecodeError::ProtobufError)
        ));
    }
}

#[test]
fn bad_tags_are_refused() {
    let p = ShardsProtocol::new();
    assert!(matches!(p.decode_packet(&[0, 0, 2]), Err(ShardsDecodeError::ProtobufError)));
    assert!(matches!(p.decode_packet(&[0, 4, 2, 8, 71, 49, 0]), Err(ShardsDecodeError::ProtobufError)));
    let ok = p.decode_packet(&[0, 4, 1, 8, 71, 49, 1, 3]).unwrap();
    assert_eq!(ok.shards[0].action, ShardsAction::Leave);
    assert_eq!(ok.shards[0].shard.id(), "G1");
    assert_eq!(ok.ttl, Some(3));
}

#[test]
fn invalid_utf8_shard_name_is_refused() {
    let p = ShardsProtocol::new();
    assert!(matches!(p.decode_packet(&[0, 4, 0, 8, 0xff, 0xfe, 0]), Err(ShardsDecodeError::ProtobufError)));
}

#[test]
fn non_canonical_length_is_refused() {
    let p = ShardsProtocol::new();
    // zero written in the two-byte form
    assert!(matches!(p.decode_packet(&[1, 0, 0, 0]), Err(ShardsDecodeError::ProtobufError)));
}

#[test]
fn protocol_name() {
    assert_eq!(ShardsProtocol::new().protocol_info(), b"/mechain/shards/1.0".to_vec());
}

#[test]
fn sample_rpc_can_be_encoded() {
    let rpc = sample_rpc();
    assert!(rpc_can_encode(&rpc));
    assert!(message_can_encode(&rpc.messages[0]));
}

#[test]
fn compact_reading_agrees_with_scale() {
    let samples: Vec<Vec<u8>> = vec![
        vec![],
        vec![0],
        vec![0xfc],
        vec![1],
        vec![1, 0],
        vec![0x01, 0x01],
        vec![0xfd, 0xff],
        vec![2, 0, 0],
        vec![2, 0, 1, 0],
        vec![0xfe, 0xff, 0xff, 0xff],
        vec![3, 0, 0, 0, 0x40],
        vec![3, 0xff, 0xff, 0xff, 0x3f],
        vec![3, 0xff, 0xff, 0xff, 0xff],
        vec![7, 0, 0, 0, 0, 0],
        vec![3, 1, 2],
    ];
    for b in samples {
        let ours = read_compact(&b, 0).map(|(n, p)| (n, p));
        let theirs = {
            let mut input = &b[..];
            Compact::<u32>::decode(&mut input).ok().map(|c| (c.0, b.len() - input.len()))
        };
        assert_eq!(ours, theirs, "bytes {:?}", b);
    }
}

#[test]
fn name_lists_read_as_scale_reads_them() {
    let names = vec!["a".to_string(), "".to_string(), "\u{1F600}x".to_string()];
    let bytes = names.encode();
    let (read, end) = read_shard_names(&bytes, 0).unwrap();
    assert_eq!(end, bytes.len());
    let read: Vec<String> = read.iter().map(|s| s.id().to_string()).collect();
    assert_eq!(read, Vec::<String>::decode(&mut &bytes[..]).unwrap());
    assert_eq!(read, names);
    let mut bad = bytes.clone();
    bad.truncate(bytes.len() - 1);
    assert!(read_shard_names(&bad, 0).is_none());
    assert!(Vec::<String>::decode(&mut &bad[..]).is_err());
}

#[test]
fn packet_of_largest_size_roundtrips() {
    // one message whose bytes bring the packet to exactly the packet limit
    let base = Rpc { messages: vec![message(b"p", b"", &[3; 20], &["G1"])], shards: vec![], ttl: Some(6) };
    let overhead = base.clone().into_bytes().len();
    let data = vec![7u8; 2048 - overhead - 1];
    let rpc = Rpc { messages: vec![message(b"p", &data, &[3; 20], &["G1"])], shards: vec![], ttl: Some(6) };
    let bytes = rpc.clone().into_bytes();
    assert_eq!(bytes.len(), 2048);
    assert_eq!(ShardsProtocol::new().decode_packet(&bytes).unwrap(), rpc);
}
