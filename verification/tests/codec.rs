use p2p_gossip::codec::{
    addr_tail_len, check_magic, confirmation_frame, encode_addr, gossip_frame, hello_bytes,
    magic_bytes, parse_addr, parse_peer_list_body, peer_list_frame, peer_request_frame,
};
use p2p_gossip::types::{GossipId, Ip, PeerAddress};

const MAGIC: &str = "Hello there I am a peer from the fantastic p2p_gossip program version v0.1";

fn v4(a: u8, b: u8, c: u8, d: u8, port: u16) -> PeerAddress {
    PeerAddress { ip: Ip::V4(a, b, c, d), port }
}

fn v6_loopback(port: u16) -> PeerAddress {
    PeerAddress { ip: Ip::V6(0, 0, 0, 0, 0, 0, 0, 1), port }
}

#[test]
fn magic_bytes_match_the_protocol_string() {
    assert_eq!(magic_bytes(), MAGIC.as_bytes().to_vec());
}

#[test]
fn check_magic_accepts_the_magic() {
    assert!(check_magic(&magic_bytes()));
}

#[test]
fn check_magic_rejects_one_altered_byte() {
    let mut m = magic_bytes();
    m[3] ^= 0x01;
    assert!(!check_magic(&m));
}

#[test]
fn check_magic_rejects_wrong_length() {
    let mut m = magic_bytes();
    m.pop();
    assert!(!check_magic(&m));
}

#[test]
fn encode_addr_v4_exact_bytes() {
    let a = v4(127, 0, 0, 1, 0x1234);
    assert_eq!(encode_addr(&a), vec![0, 127, 0, 0, 1, 0x12, 0x34]);
}

#[test]
fn encode_addr_v6_exact_bytes() {
    let a = v6_loopback(11500);
    let mut expect = vec![1u8];
    for seg in [0u16, 0, 0, 0, 0, 0, 0, 1] {
        expect.extend_from_slice(&seg.to_be_bytes());
    }
    expect.extend_from_slice(&11500u16.to_be_bytes());
    assert_eq!(encode_addr(&a), expect);
}

#[test]
fn addr_round_trip_v4() {
    let a = v4(10, 1, 2, 3, 65535);
    let bytes = encode_addr(&a);
    let (parsed, next) = parse_addr(&bytes, 0).expect("a valid record must parse");
    assert_eq!(parsed, a);
    assert_eq!(next, bytes.len());
}

#[test]
fn addr_round_trip_v6() {
    let a = PeerAddress { ip: Ip::V6(0x20, 0x1db8, 9, 8, 7, 6, 5, 0xffff), port: 1 };
    let bytes = encode_addr(&a);
    let (parsed, next) = parse_addr(&bytes, 0).expect("a valid record must parse");
    assert_eq!(parsed, a);
    assert_eq!(next, bytes.len());
}

#[test]
fn parse_addr_rejects_bad_tag() {
    assert!(parse_addr(&vec![2, 0, 0, 0, 0, 0, 0], 0).is_none());
}

#[test]
fn parse_addr_rejects_truncated_record() {
    assert!(parse_addr(&vec![0, 127, 0], 0).is_none());
}

#[test]
fn gossip_frame_is_opcode_then_id() {
    let id = GossipId::from_bytes(vec![9, 8, 7, 6, 5, 4, 3, 2, 1, 0]);
    assert_eq!(gossip_frame(&id), vec![1, 9, 8, 7, 6, 5, 4, 3, 2, 1, 0]);
}

#[test]
fn peer_request_frame_is_bare_opcode() {
    assert_eq!(peer_request_frame(), vec![2]);
}

#[test]
fn confirmation_frame_is_opcode_then_magic() {
    let mut expect = vec![4u8];
    expect.extend_from_slice(MAGIC.as_bytes());
    assert_eq!(confirmation_frame(), expect);
}

#[test]
fn hello_bytes_are_magic_then_own_record() {
    let a = v4(127, 0, 0, 1, 11500);
    let mut expect = MAGIC.as_bytes().to_vec();
    expect.extend_from_slice(&encode_addr(&a));
    assert_eq!(hello_bytes(&a), expect);
}

#[test]
fn peer_list_frame_empty_is_count_zero() {
    assert_eq!(peer_list_frame(&Vec::new()), vec![3, 0, 0]);
}

#[test]
fn peer_list_frame_caps_count_at_five() {
    let addrs: Vec<PeerAddress> = (0..7).map(|i| v4(10, 0, 0, i as u8, 1000 + i)).collect();
    let frame = peer_list_frame(&addrs);
    assert_eq!(frame[0], 3);
    assert_eq!(u16::from_be_bytes([frame[1], frame[2]]), 5);
    // 5 IPv4 records of 7 bytes each follow the 3-byte header.
    assert_eq!(frame.len(), 3 + 5 * 7);
    let parsed = parse_peer_list_body(&frame[1..].to_vec()).expect("own frame must parse");
    assert_eq!(parsed, addrs[..5].to_vec());
}

#[test]
fn peer_list_body_count_zero_is_legal() {
    let parsed = parse_peer_list_body(&vec![0, 0]).expect("count zero is legal");
    assert!(parsed.is_empty());
}

#[test]
fn peer_list_body_rejects_count_above_five() {
    // count 6 with no records at all: the count alone violates the bound.
    assert!(parse_peer_list_body(&vec![0, 6]).is_none());
}

#[test]
fn peer_list_body_rejects_truncated_records() {
    // count 1 but only half an IPv4 record.
    assert!(parse_peer_list_body(&vec![0, 1, 0, 127, 0]).is_none());
}

#[test]
fn peer_list_body_rejects_trailing_bytes() {
    let mut body = vec![0u8, 1];
    body.extend_from_slice(&encode_addr(&v4(127, 0, 0, 1, 80)));
    body.push(0);
    assert!(parse_peer_list_body(&body).is_none());
}

#[test]
fn peer_list_body_rejects_bad_tag() {
    // count 1, then a record with tag 9.
    assert!(parse_peer_list_body(&vec![0, 1, 9, 0, 0, 0, 0, 0, 0]).is_none());
}

#[test]
fn peer_list_body_round_trip_mixed() {
    let addrs = vec![v4(127, 0, 0, 1, 11499), v6_loopback(11500)];
    let frame = peer_list_frame(&addrs);
    let parsed = parse_peer_list_body(&frame[1..].to_vec()).expect("own frame must parse");
    assert_eq!(parsed, addrs);
}

#[test]
fn addr_tail_len_follows_the_tag() {
    assert_eq!(addr_tail_len(0), Some(6));
    assert_eq!(addr_tail_len(1), Some(18));
    assert_eq!(addr_tail_len(7), None);
}
