use p2p_gossip::codec::{encode_addr, magic_bytes, parse_peer_list_body};
use p2p_gossip::node::{FrameOutcome, Node};
use p2p_gossip::types::{GossipId, Ip, PeerAddress};

fn v4(a: u8, b: u8, c: u8, d: u8, port: u16) -> PeerAddress {
    PeerAddress { ip: Ip::V4(a, b, c, d), port }
}

fn id_of(first: u8) -> GossipId {
    GossipId::from_bytes(vec![first, 1, 2, 3, 4, 5, 6, 7, 8, 9])
}

fn id_body(first: u8) -> Vec<u8> {
    vec![first, 1, 2, 3, 4, 5, 6, 7, 8, 9]
}

fn self_addr() -> PeerAddress {
    v4(127, 0, 0, 1, 11500)
}

/// A node with one confirmed session, as after an accepted handshake.
fn node_with_peer(now: u64) -> Node {
    let mut node = Node::new(self_addr(), 1000, true, now);
    node.register_accepted(v4(127, 0, 0, 1, 11499), now);
    node
}

fn drained_ids(node: &mut Node) -> Vec<Vec<u8>> {
    node.drain_broadcast().iter().map(|g| g.bytes().clone()).collect()
}

#[test]
fn accepted_sessions_start_confirmed() {
    let node = node_with_peer(0);
    assert_eq!(node.session_count(), 1);
    assert!(node.is_confirmed(0));
    assert_eq!(node.advertised_of(0), v4(127, 0, 0, 1, 11499));
}

#[test]
fn dialed_sessions_start_unconfirmed() {
    let mut node = Node::new(self_addr(), 1000, false, 0);
    node.register_dialed(v4(127, 0, 0, 1, 11499), 0);
    assert_eq!(node.session_count(), 1);
    assert!(!node.is_confirmed(0));
}

#[test]
fn gossip_before_confirmation_drops_the_session() {
    let mut node = Node::new(self_addr(), 1000, false, 0);
    node.register_dialed(v4(127, 0, 0, 1, 11499), 0);
    let r = node.handle_frame(0, 1, &id_body(0), 10);
    assert!(matches!(r, FrameOutcome::Dropped));
    assert_eq!(node.session_count(), 0);
    // nothing was queued for broadcast
    assert!(drained_ids(&mut node).is_empty());
}

#[test]
fn peer_request_before_confirmation_drops_the_session() {
    let mut node = Node::new(self_addr(), 1000, false, 0);
    node.register_dialed(v4(127, 0, 0, 1, 11499), 0);
    let r = node.handle_frame(0, 2, &Vec::new(), 10);
    assert!(matches!(r, FrameOutcome::Dropped));
    assert_eq!(node.session_count(), 0);
}

#[test]
fn peer_list_before_confirmation_drops_the_session() {
    let mut node = Node::new(self_addr(), 1000, false, 0);
    node.register_dialed(v4(127, 0, 0, 1, 11499), 0);
    let r = node.handle_frame(0, 3, &vec![0, 0], 10);
    assert!(matches!(r, FrameOutcome::Dropped));
    assert_eq!(node.session_count(), 0);
    assert!(node.take_dial_targets().is_empty());
}

#[test]
fn confirmation_with_valid_magic_confirms() {
    let mut node = Node::new(self_addr(), 1000, false, 0);
    node.register_dialed(v4(127, 0, 0, 1, 11499), 0);
    let r = node.handle_frame(0, 4, &magic_bytes(), 10);
    assert!(matches!(r, FrameOutcome::Keep));
    assert!(node.is_confirmed(0));
}

#[test]
fn confirmation_with_bad_magic_drops() {
    let mut node = Node::new(self_addr(), 1000, false, 0);
    node.register_dialed(v4(127, 0, 0, 1, 11499), 0);
    let mut bad = magic_bytes();
    bad[0] ^= 0xff;
    let r = node.handle_frame(0, 4, &bad, 10);
    assert!(matches!(r, FrameOutcome::Dropped));
    assert_eq!(node.session_count(), 0);
}

#[test]
fn fresh_gossip_is_stored_queued_and_logged() {
    let mut node = node_with_peer(0);
    let r = node.handle_frame(0, 1, &id_body(7), 10);
    assert!(matches!(r, FrameOutcome::Keep));
    assert!(node.knows(&id_of(7)));
    assert_eq!(drained_ids(&mut node), vec![id_body(7)]);
    let log = node.awareness_log();
    assert_eq!(log.len(), 1);
    assert_eq!(log[0].bytes(), &id_body(7));
}

#[test]
fn seen_gossip_is_never_requeued() {
    let mut node = node_with_peer(0);
    node.handle_frame(0, 1, &id_body(7), 10);
    assert_eq!(drained_ids(&mut node), vec![id_body(7)]);
    // the same identifier again: kept, but nothing queued or logged
    let r = node.handle_frame(0, 1, &id_body(7), 20);
    assert!(matches!(r, FrameOutcome::Keep));
    assert!(drained_ids(&mut node).is_empty());
    assert_eq!(node.awareness_log().len(), 1);
}

#[test]
fn duplicate_within_one_iteration_queues_once() {
    let mut node = node_with_peer(0);
    node.register_accepted(v4(127, 0, 0, 1, 11498), 0);
    node.handle_frame(0, 1, &id_body(7), 10);
    node.handle_frame(1, 1, &id_body(7), 11);
    assert_eq!(drained_ids(&mut node), vec![id_body(7)]);
}

#[test]
fn unknown_opcode_on_confirmed_session_drops_it() {
    let mut node = node_with_peer(0);
    node.register_accepted(v4(127, 0, 0, 1, 11498), 0);
    let r = node.handle_frame(0, 7, &Vec::new(), 10);
    assert!(matches!(r, FrameOutcome::Dropped));
    // the other session is unaffected
    assert_eq!(node.session_count(), 1);
    assert_eq!(node.advertised_of(0), v4(127, 0, 0, 1, 11498));
}

#[test]
fn peer_request_is_answered_from_the_snapshot() {
    let mut node = node_with_peer(0);
    node.register_accepted(v4(10, 0, 0, 2, 4000), 0);
    node.begin_iteration();
    let r = node.handle_frame(0, 2, &Vec::new(), 10);
    let bytes = match r {
        FrameOutcome::Reply { bytes } => bytes,
        _ => panic!("a peer request must be answered"),
    };
    assert_eq!(bytes[0], 3);
    let addrs = parse_peer_list_body(&bytes[1..].to_vec()).expect("own reply must parse");
    assert_eq!(addrs, vec![v4(127, 0, 0, 1, 11499), v4(10, 0, 0, 2, 4000)]);
}

#[test]
fn empty_peer_list_is_a_no_op() {
    let mut node = node_with_peer(0);
    let r = node.handle_frame(0, 3, &vec![0, 0], 10);
    assert!(matches!(r, FrameOutcome::Keep));
    assert!(node.take_dial_targets().is_empty());
    assert_eq!(node.session_count(), 1);
}

#[test]
fn full_peer_list_of_novel_addresses_fills_the_dial_queue() {
    let mut node = node_with_peer(0);
    node.begin_iteration();
    let novel: Vec<PeerAddress> = (0..5).map(|i| v4(10, 0, 0, i as u8, 2000 + i)).collect();
    let mut body = vec![0u8, 5];
    for a in &novel {
        body.extend_from_slice(&encode_addr(a));
    }
    let r = node.handle_frame(0, 3, &body, 10);
    assert!(matches!(r, FrameOutcome::Keep));
    assert_eq!(node.take_dial_targets(), novel);
}

#[test]
fn oversized_peer_list_count_drops_the_session() {
    let mut node = node_with_peer(0);
    let r = node.handle_frame(0, 3, &vec![0, 6], 10);
    assert!(matches!(r, FrameOutcome::Dropped));
    assert_eq!(node.session_count(), 0);
}

#[test]
fn own_address_is_never_a_dial_target() {
    let mut node = node_with_peer(0);
    node.begin_iteration();
    let other = v4(10, 0, 0, 9, 2009);
    let mut body = vec![0u8, 2];
    body.extend_from_slice(&encode_addr(&self_addr()));
    body.extend_from_slice(&encode_addr(&other));
    node.handle_frame(0, 3, &body, 10);
    assert_eq!(node.take_dial_targets(), vec![other]);
}

#[test]
fn known_addresses_are_not_dialed_again() {
    let mut node = node_with_peer(0);
    node.begin_iteration();
    let already = v4(127, 0, 0, 1, 11499);
    let mut body = vec![0u8, 1];
    body.extend_from_slice(&encode_addr(&already));
    node.handle_frame(0, 3, &body, 10);
    assert!(node.take_dial_targets().is_empty());
}

#[test]
fn gossip_decays_after_the_window_and_is_fresh_again() {
    let mut node = node_with_peer(0);
    node.handle_frame(0, 1, &id_body(7), 1000);
    drained_ids(&mut node);
    assert!(node.knows(&id_of(7)));
    // within the window the identifier is retained
    node.decay_seen(1000 + 50_000);
    assert!(node.knows(&id_of(7)));
    // one millisecond past the window it decays
    node.decay_seen(1000 + 50_000 + 1);
    assert!(!node.knows(&id_of(7)));
    // a redelivery is treated as fresh
    node.handle_frame(0, 1, &id_body(7), 1000 + 50_000 + 2);
    assert_eq!(drained_ids(&mut node), vec![id_body(7)]);
}

#[test]
fn unconfirmed_sessions_expire_after_the_window() {
    let mut node = Node::new(self_addr(), 1000, false, 0);
    node.register_dialed(v4(127, 0, 0, 1, 11499), 0);
    node.register_accepted(v4(127, 0, 0, 1, 11498), 0);
    node.register_dialed(v4(127, 0, 0, 1, 11497), 1500);
    // at 2000 the confirmation window has not yet elapsed for anyone
    let removed = node.sweep_expired(2000);
    assert!(removed.is_empty());
    assert_eq!(node.session_count(), 3);
    // at 2001 the first dialed session is past the window
    let removed = node.sweep_expired(2001);
    assert_eq!(removed, vec![0]);
    assert_eq!(node.session_count(), 2);
    assert!(node.is_confirmed(0));
    assert_eq!(node.advertised_of(1), v4(127, 0, 0, 1, 11497));
}

#[test]
fn origination_records_and_queues_one_identifier() {
    let mut node = node_with_peer(0);
    assert!(!node.due_for_origination(1000));
    assert!(node.due_for_origination(1001));
    let id = node.originate(1001);
    assert_eq!(id.bytes().len(), 10);
    assert!(node.knows(&id));
    assert_eq!(drained_ids(&mut node), vec![id.bytes().clone()]);
    assert_eq!(node.awareness_log().len(), 1);
    assert!(!node.due_for_origination(2001));
}

#[test]
fn peer_request_timer_fires_and_resets() {
    let mut node = node_with_peer(0);
    assert!(!node.peer_request_due(0, 1000));
    assert!(node.peer_request_due(0, 1001));
    node.mark_peer_request(0, 1001);
    assert!(!node.peer_request_due(0, 2001));
    assert!(node.peer_request_due(0, 2002));
}

#[test]
fn remove_session_keeps_the_rest_in_order() {
    let mut node = node_with_peer(0);
    node.register_accepted(v4(10, 0, 0, 2, 4000), 0);
    node.register_accepted(v4(10, 0, 0, 3, 4001), 0);
    node.remove_session(1);
    assert_eq!(node.session_count(), 2);
    assert_eq!(node.advertised_of(0), v4(127, 0, 0, 1, 11499));
    assert_eq!(node.advertised_of(1), v4(10, 0, 0, 3, 4001));
}

#[test]
fn gossip_id_equality_is_bytewise() {
    assert!(id_of(7).eq_id(&id_of(7)));
    assert!(!id_of(7).eq_id(&id_of(8)));
    let copy = id_of(7).clone();
    assert!(copy.eq_id(&id_of(7)));
}
