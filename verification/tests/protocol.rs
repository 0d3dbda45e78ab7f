//! Unit tests for the codec, the duplicate cache and the peer registry.

use pubsub::Message;
use pubsub::cache::MessageCache;
use pubsub::codec::{decode, encode, Envelope};
use pubsub::registry::PeerRegistry;

#[test]
fn codec_round_trips_publish() {
    let env = Envelope::Publish {
        topic: b"sensors".to_vec(),
        from: 7,
        seq: 42,
        data: vec![0u8, 255, 1, 128, 0],
    };
    let bytes = encode(&env);
    match decode(&bytes) {
        Some(Envelope::Publish { topic, from, seq, data }) => {
            assert_eq!(topic, b"sensors".to_vec());
            assert_eq!(from, 7);
            assert_eq!(seq, 42);
            assert_eq!(data, vec![0u8, 255, 1, 128, 0]);
        }
        other => panic!("wrong decode: {:?}", other),
    }
}

#[test]
fn codec_round_trips_interest_both_ways() {
    for subscribe in [true, false] {
        let env = Envelope::Interest { topic: b"x".to_vec(), subscribe };
        let bytes = encode(&env);
        match decode(&bytes) {
            Some(Envelope::Interest { topic, subscribe: s }) => {
                assert_eq!(topic, b"x".to_vec());
                assert_eq!(s, subscribe);
            }
            other => panic!("wrong decode: {:?}", other),
        }
    }
}

#[test]
fn codec_round_trips_empty_topic_and_data() {
    let env = Envelope::Publish { topic: Vec::new(), from: 0, seq: 0, data: Vec::new() };
    let bytes = encode(&env);
    assert_eq!(bytes.len(), 33);
    match decode(&bytes) {
        Some(Envelope::Publish { topic, from, seq, data }) => {
            assert!(topic.is_empty() && data.is_empty());
            assert_eq!((from, seq), (0, 0));
        }
        other => panic!("wrong decode: {:?}", other),
    }
}

#[test]
fn codec_rejects_malformed() {
    assert!(decode(&Vec::new()).is_none());
    assert!(decode(&vec![9u8; 40]).is_none()); // unknown tag
    let good = encode(&Envelope::Interest { topic: b"t".to_vec(), subscribe: true });
    let mut truncated = good.clone();
    truncated.pop();
    assert!(decode(&truncated).is_none());
    let mut trailing = good.clone();
    trailing.push(0);
    assert!(decode(&trailing).is_none());
    let mut publish_short = encode(&Envelope::Publish {
        topic: b"t".to_vec(),
        from: 1,
        seq: 1,
        data: b"d".to_vec(),
    });
    publish_short.truncate(20);
    assert!(decode(&publish_short).is_none());
}

#[test]
fn cache_suppresses_within_window_and_forgets_after() {
    let mut c = MessageCache::new(120);
    assert!(!c.seen(1, 5, 0));
    c.insert(1, 5, 0);
    assert!(c.seen(1, 5, 0));
    assert!(c.seen(1, 5, 120));
    assert!(!c.seen(1, 5, 121));
    assert!(!c.seen(1, 6, 60));
    assert!(!c.seen(2, 5, 60));
}

#[test]
fn cache_insert_refreshes_entry() {
    let mut c = MessageCache::new(100);
    c.insert(3, 9, 0);
    c.insert(3, 9, 50);
    assert!(c.seen(3, 9, 150));
    assert!(!c.seen(3, 9, 151));
}

#[test]
fn registry_tracks_liveness_and_prunes() {
    let mut reg = PeerRegistry::new(60);
    reg.upsert(10, vec![b"/ip4/127.0.0.1/tcp/9000".to_vec()], 0);
    assert!(!reg.is_connected(10));
    reg.mark_connected(10, 1);
    assert!(reg.is_connected(10));
    reg.upsert(11, vec![b"/ip4/127.0.0.1/tcp/9001".to_vec()], 1);
    // far in the future: 11 is stale and unconnected, 10 stays connected
    reg.prune(1000);
    assert!(reg.is_connected(10));
    assert!(!reg.is_connected(11));
    assert_eq!(reg.connected_ids(), vec![10]);
    reg.mark_disconnected(10);
    assert!(!reg.is_connected(10));
    assert!(reg.connected_ids().is_empty());
}

#[test]
fn message_text_matches_debug_form() {
    let m = Message { from: vec![1, 2], data: vec![104, 105] };
    assert_eq!(m.describe(), "PeerId: [1, 2], Data: [104, 105]");
    assert_eq!(m.describe(), format!("PeerId: {:?}, Data: {:?}", m.from, m.data));
    let e = Message { from: Vec::new(), data: vec![255, 0, 200] };
    assert_eq!(e.describe(), "PeerId: [], Data: [255, 0, 200]");
    assert_eq!(e.describe(), format!("PeerId: {:?}, Data: {:?}", e.from, e.data));
}
