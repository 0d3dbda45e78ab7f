//! End-to-end scenarios: several routers exchanging encoded wire traffic.

use pubsub::codec::encode;
use pubsub::router::{Action, Config, InboxRead, Router};

fn cfg() -> Config {
    Config { d_low: 2, d: 2, d_high: 3, cache_window: 120, peer_ttl: 600 }
}

/// Encode every action into (destination, wire bytes).
fn wire(actions: &[Action]) -> Vec<(u64, Vec<u8>)> {
    actions
        .iter()
        .map(|Action::Send { to, envelope }| (*to, encode(envelope)))
        .collect()
}

/// Hand each action addressed to `node` to it, returning its replies.
fn deliver_to(node: &mut Router, node_id: u64, sender: u64, actions: &[Action], now: u64) -> Vec<Action> {
    let mut replies = Vec::new();
    for (to, bytes) in wire(actions) {
        if to == node_id {
            replies.extend(node.handle_wire(sender, &bytes, now));
        }
    }
    replies
}

#[test]
fn two_nodes_exchange_one_message() {
    let topic = b"sensors".to_vec();
    let mut a = Router::new(1, cfg());
    let mut b = Router::new(2, cfg());
    assert_eq!(a.peer_id(), 1);
    a.peer_connected(2, b"/ip4/127.0.0.1/tcp/9001".to_vec(), 0);
    b.peer_connected(1, b"/ip4/127.0.0.1/tcp/9000".to_vec(), 0);

    let (_ia, ann_a) = a.subscribe(&topic, 0);
    assert_eq!(ann_a.len(), 1);
    deliver_to(&mut b, 2, 1, &ann_a, 0);
    let (ib, ann_b) = b.subscribe(&topic, 0);
    deliver_to(&mut a, 1, 2, &ann_b, 0);

    a.heartbeat(1);
    b.heartbeat(1);
    // the mesh has formed and stays within its bounds
    assert_eq!(a.topics[0].mesh, vec![2]);
    assert!(b.topics[0].mesh.len() <= 3);

    let (ok, pubs) = a.publish(&topic, &b"hello".to_vec(), 2);
    assert!(ok);
    assert_eq!(pubs.len(), 1);
    let Action::Send { to, .. } = &pubs[0];
    assert_eq!(*to, 2);
    deliver_to(&mut b, 2, 1, &pubs, 2);

    match b.read_inbox(ib) {
        InboxRead::Msg(m) => {
            assert_eq!(m.from, 1u64.to_le_bytes().to_vec());
            assert_eq!(m.data, b"hello".to_vec());
        }
        other => panic!("expected a message, got {:?}", other),
    }
    assert!(matches!(b.read_inbox(ib), InboxRead::Empty));
}

#[test]
fn publisher_gets_no_self_delivery() {
    let topic = b"sensors".to_vec();
    let mut a = Router::new(1, cfg());
    let (ia, _) = a.subscribe(&topic, 0);
    let (ok, pubs) = a.publish(&topic, &b"ping".to_vec(), 1);
    assert!(ok && pubs.is_empty());
    assert!(matches!(a.read_inbox(ia), InboxRead::Empty));
}

#[test]
fn relay_forwards_once_and_duplicates_are_dropped() {
    // A - B - C: A and C are only connected to B.
    let topic = b"sensors".to_vec();
    let mut a = Router::new(1, cfg());
    let mut b = Router::new(2, cfg());
    let mut c = Router::new(3, cfg());
    a.peer_connected(2, b"/b".to_vec(), 0);
    b.peer_connected(1, b"/a".to_vec(), 0);
    b.peer_connected(3, b"/c".to_vec(), 0);
    c.peer_connected(2, b"/b".to_vec(), 0);

    let (_ia, ann_a) = a.subscribe(&topic, 0);
    deliver_to(&mut b, 2, 1, &ann_a, 0);
    let (ib, ann_b) = b.subscribe(&topic, 0);
    deliver_to(&mut a, 1, 2, &ann_b, 0);
    deliver_to(&mut c, 3, 2, &ann_b, 0);
    let (ic, ann_c) = c.subscribe(&topic, 0);
    deliver_to(&mut b, 2, 3, &ann_c, 0);

    a.heartbeat(1);
    b.heartbeat(1);
    c.heartbeat(1);
    // B gossips with both neighbors
    assert_eq!(b.topics[0].mesh.len(), 2);

    let (_, pubs) = a.publish(&topic, &b"reading".to_vec(), 2);
    let from_b = deliver_to(&mut b, 2, 1, &pubs, 2);
    // B forwards to its mesh except the sender: exactly C
    assert_eq!(from_b.len(), 1);
    let Action::Send { to, .. } = &from_b[0];
    assert_eq!(*to, 3);
    let from_c = deliver_to(&mut c, 3, 2, &from_b, 2);
    assert!(from_c.is_empty()); // C's only mesh member is B, the sender

    // a redundant copy of the same publish reaches B and C again
    let echoes = deliver_to(&mut b, 2, 3, &pubs, 3);
    assert!(echoes.is_empty());
    deliver_to(&mut c, 3, 2, &from_b, 3);

    // each subscriber saw exactly one copy
    for (node, inbox) in [(&mut b, ib), (&mut c, ic)] {
        match node.read_inbox(inbox) {
            InboxRead::Msg(m) => assert_eq!(m.data, b"reading".to_vec()),
            other => panic!("expected a message, got {:?}", other),
        }
        assert!(matches!(node.read_inbox(inbox), InboxRead::Empty));
    }
}

#[test]
fn unsubscribe_closes_inbox_and_stops_delivery() {
    let topic = b"sensors".to_vec();
    let mut a = Router::new(1, cfg());
    let mut b = Router::new(2, cfg());
    a.peer_connected(2, b"/b".to_vec(), 0);
    b.peer_connected(1, b"/a".to_vec(), 0);
    let (_ia, ann_a) = a.subscribe(&topic, 0);
    deliver_to(&mut b, 2, 1, &ann_a, 0);
    let (ib, ann_b) = b.subscribe(&topic, 0);
    deliver_to(&mut a, 1, 2, &ann_b, 0);
    a.heartbeat(1);
    b.heartbeat(1);

    // B drops its subscription and tells A
    let (existed, withdraw) = b.unsubscribe(&topic);
    assert!(existed);
    deliver_to(&mut a, 1, 2, &withdraw, 1);
    a.heartbeat(2);

    // A has nobody left to flood to
    let (ok, pubs) = a.publish(&topic, &b"late".to_vec(), 3);
    assert!(ok && pubs.is_empty());

    // the inbox reads as end-of-stream, never a message
    assert!(matches!(b.read_inbox(ib), InboxRead::Closed));
    // a second unsubscribe finds nothing
    let (again, acts) = b.unsubscribe(&topic);
    assert!(!again && acts.is_empty());
}

#[test]
fn stale_publish_after_unsubscribe_delivers_nothing() {
    let topic = b"sensors".to_vec();
    let mut a = Router::new(1, cfg());
    let mut b = Router::new(2, cfg());
    a.peer_connected(2, b"/b".to_vec(), 0);
    b.peer_connected(1, b"/a".to_vec(), 0);
    let (_ia, _) = a.subscribe(&topic, 0);
    let (ib, ann_b) = b.subscribe(&topic, 0);
    deliver_to(&mut a, 1, 2, &ann_b, 0);
    a.heartbeat(1);
    b.heartbeat(1);

    // A publishes while B's withdrawal is still in flight
    let (_, pubs) = a.publish(&topic, &b"crossing".to_vec(), 2);
    let (existed, _) = b.unsubscribe(&topic);
    assert!(existed);
    deliver_to(&mut b, 2, 1, &pubs, 2);
    assert!(matches!(b.read_inbox(ib), InboxRead::Closed));
}

#[test]
fn heartbeat_keeps_mesh_within_bounds_and_connected() {
    let topic = b"metrics".to_vec();
    let mut n = Router::new(100, cfg());
    let (_, _) = n.subscribe(&topic, 0);
    for p in 1..=6u64 {
        n.peer_connected(p, b"/x".to_vec(), 0);
        let ann = encode(&pubsub::codec::Envelope::Interest { topic: topic.clone(), subscribe: true });
        n.handle_wire(p, &ann, 0);
    }
    n.heartbeat(1);
    let mesh = &n.topics[0].mesh;
    assert!(2 <= mesh.len() && mesh.len() <= 3);
    for p in mesh {
        assert!(n.registry.is_connected(*p));
    }
    // a mesh member drops: replacements are promoted at once
    let gone = n.topics[0].mesh[0];
    n.peer_disconnected(gone, 2);
    let mesh = &n.topics[0].mesh;
    assert!(2 <= mesh.len() && mesh.len() <= 3);
    assert!(!mesh.contains(&gone));
    for p in mesh {
        assert!(n.registry.is_connected(*p));
    }
}

#[test]
fn binary_payloads_survive_the_wire_unchanged() {
    let topic = vec![0u8, 159, 146, 150]; // not valid UTF-8
    let payload: Vec<u8> = (0..=255u8).collect();
    let mut a = Router::new(1, cfg());
    let mut b = Router::new(2, cfg());
    a.peer_connected(2, b"/b".to_vec(), 0);
    b.peer_connected(1, b"/a".to_vec(), 0);
    let (ib, ann_b) = b.subscribe(&topic, 0);
    deliver_to(&mut a, 1, 2, &ann_b, 0);
    a.subscribe(&topic, 0);
    a.heartbeat(1);
    let (_, pubs) = a.publish(&topic, &payload, 2);
    deliver_to(&mut b, 2, 1, &pubs, 2);
    match b.read_inbox(ib) {
        InboxRead::Msg(m) => assert_eq!(m.data, payload),
        other => panic!("expected a message, got {:?}", other),
    }
}

#[test]
fn discovered_peers_stay_unconnected_and_expire() {
    let mut n = Router::new(1, cfg());
    n.discovered(5, vec![b"/ip4/10.0.0.5/tcp/9000".to_vec()], 0);
    assert!(!n.registry.is_connected(5));
    // a stale, never-connected candidate is pruned at a heartbeat far
    // beyond the time-to-live
    n.heartbeat(100_000);
    assert!(n.registry.records.is_empty());
}

#[test]
fn publish_reaches_subscribers_without_local_subscription() {
    // publish is decoupled from subscribe: A never subscribes to the topic
    let topic = b"alerts".to_vec();
    let mut a = Router::new(1, cfg());
    let mut b = Router::new(2, cfg());
    a.peer_connected(2, b"/b".to_vec(), 0);
    b.peer_connected(1, b"/a".to_vec(), 0);
    let (ib, ann_b) = b.subscribe(&topic, 0);
    deliver_to(&mut a, 1, 2, &ann_b, 0);
    a.heartbeat(1);
    let (ok, pubs) = a.publish(&topic, &b"siren".to_vec(), 2);
    assert!(ok);
    assert_eq!(pubs.len(), 1);
    deliver_to(&mut b, 2, 1, &pubs, 2);
    match b.read_inbox(ib) {
        InboxRead::Msg(m) => assert_eq!(m.data, b"siren".to_vec()),
        other => panic!("expected a message, got {:?}", other),
    }
}
