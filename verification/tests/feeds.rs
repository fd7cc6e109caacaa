//! Write feeds: frames, rings, subscribers and the applied frontier.

use std::collections::VecDeque;

use tierstore::feed::{
    Attempts, FeedEvent, Frame, Frontier, PeerWrite, PeerWrites, Reaction, Ring, WriteFeed,
    ENTRY_KEY, PUBLISH_RETRIES,
};
use tierstore::remote::RemoteStore;
use tierstore::router::Router;
use tierstore::tier::{TierRead, TierWrite};

fn encode(key: &String) -> Vec<u8> {
    key.clone().into_bytes()
}

fn decode(bytes: &[u8]) -> Option<String> {
    String::from_utf8(bytes.to_vec()).ok()
}

type Subscriber = PeerWrites<String, fn(&[u8]) -> Option<String>>;

fn subscriber(me: &str, members: &[(String, Option<Vec<u8>>)]) -> Subscriber {
    PeerWrites::new(me.to_owned(), members, decode)
}

fn invalidate(peer: &str, seq: u64, key: &str) -> PeerWrite<String> {
    PeerWrite::Invalidate { peer: peer.to_owned(), seq, key: key.to_owned() }
}

fn changed(node: &str) -> FeedEvent {
    FeedEvent::NodeStateChanged { node: node.to_owned(), key: ENTRY_KEY.to_owned() }
}

#[test]
fn frame_round_trips() {
    let frame = Frame { first_seq: 41, keys: vec![b"alpha".to_vec(), Vec::new(), b"c".to_vec()] };
    let decoded = Frame::decode(&frame.encode()).expect("decode");
    assert_eq!(decoded.first_seq, 41);
    assert_eq!(decoded.keys, frame.keys);
    assert_eq!(decoded.end(), 44);
}

#[test]
fn truncated_frames_are_rejected() {
    let bytes = Frame { first_seq: 1, keys: vec![b"key".to_vec()] }.encode();
    for cut in 0..bytes.len() {
        assert!(Frame::decode(&bytes[..cut]).is_none(), "cut at {cut}");
    }
}

#[test]
fn ring_overflow_advances_first_seq() {
    let mut ring = Ring { first_seq: 1, keys: VecDeque::new(), capacity: 2 };
    for key in [b"a".to_vec(), b"b".to_vec(), b"c".to_vec()] {
        ring.push(key);
    }
    let frame = ring.frame();
    assert_eq!(frame.first_seq, 2);
    assert_eq!(frame.keys, vec![b"b".to_vec(), b"c".to_vec()]);
}

#[test]
fn frames_have_this_very_layout() {
    let frame = Frame { first_seq: 258, keys: vec![b"ab".to_vec(), b"".to_vec()] };
    assert_eq!(
        frame.encode(),
        vec![2, 1, 0, 0, 0, 0, 0, 0, 2, 0, 0, 0, 2, 0, 0, 0, b'a', b'b', 0, 0, 0, 0]
    );
    assert!(frame.countable());
    assert!(!Frame { first_seq: u64::MAX, keys: vec![Vec::new()] }.countable());
}

#[test]
fn bytes_after_a_frame_are_ignored() {
    let mut bytes = Frame { first_seq: 3, keys: vec![b"k".to_vec()] }.encode();
    bytes.extend_from_slice(b"more");
    let decoded = Frame::decode(&bytes).expect("decode");
    assert_eq!(decoded.first_seq, 3);
    assert_eq!(decoded.keys, vec![b"k".to_vec()]);
}

#[test]
fn a_frame_that_was_read_encodes_to_the_bytes_it_was_read_from() {
    let mut bytes: Vec<u8> = vec![0xff, 0xfe, 3, 4, 5, 6, 7, 0x80, 2, 0, 0, 0];
    bytes.extend([3, 0, 0, 0, 9, 8, 7, 0, 0, 0, 0, 1, 2]);
    let frame = Frame::decode(&bytes).expect("a frame and two bytes");
    assert_eq!(frame.first_seq, 0x8007_0605_0403_feff);
    assert_eq!(frame.keys, vec![vec![9, 8, 7], vec![]]);
    assert_eq!(frame.encode(), bytes[..23]);
}

#[test]
fn peer_writes_arrive_as_invalidations_and_apply_to_a_cache() {
    // Node B: a local cache holding a soon-stale copy, and a subscription.
    let latency = std::time::Duration::ZERO;
    let mut cache = Router::builder().tier(RemoteStore::new(latency)).build();
    cache.put("user:1".to_owned(), b"stale".to_vec()).expect("put");
    let mut peers = subscriber("node-b", &[]);

    // Node A publishes two writes.
    let mut feed = WriteFeed::new(128, encode);
    assert_eq!(feed.publish(&"user:1".to_owned()).0, 1);
    let (seq, entry) = feed.publish(&"user:2".to_owned());
    assert_eq!(seq, 2);

    // B observes them in order and applies the invalidation. Its cursor
    // starts with the first frame that it sees.
    peers.scan(&"node-a".to_owned(), &Some(entry));
    for (seq, expected) in [(1, "user:1"), (2, "user:2")] {
        match peers.next() {
            Some(PeerWrite::Invalidate { peer, seq: s, key }) => {
                assert_eq!(peer, "node-a");
                assert_eq!(s, seq);
                assert_eq!(key, expected);
                let _ = cache.delete(&key).expect("invalidate");
            }
            other => panic!("no resync expected, got {other:?}"),
        }
    }
    assert_eq!(peers.next(), None);
    assert_eq!(
        cache.get(&"user:1".to_owned()).expect("hot peek"),
        None,
        "the peer's write must drop the stale local copy"
    );
}

#[test]
fn ring_overflow_degrades_to_an_explicit_resync() {
    let mut peers = subscriber("ov-b", &[]);
    // A tiny ring: two slots.
    let mut feed = WriteFeed::new(2, encode);

    // B tracks the feed normally first (cursor lands at w1's end)…
    let (_, entry) = feed.publish(&"w1".to_owned());
    peers.scan(&"ov-a".to_owned(), &Some(entry));
    assert_eq!(peers.next(), Some(invalidate("ov-a", 1, "w1")));

    // …then A writes three more without B draining: w2 falls off the ring.
    for key in ["w2", "w3", "w4"] {
        feed.publish(&key.to_owned());
    }

    // B must learn it missed something, loudly, then catch the survivors.
    peers.scan_all(&[
        ("ov-a".to_owned(), Some(feed.republish())),
        ("ov-b".to_owned(), Some(feed.republish())),
    ]);
    assert_eq!(
        peers.next(),
        Some(PeerWrite::Resync { peer: "ov-a".to_owned(), applied_through: 2 }),
        "an overflowed ring must surface as a resync, never a silent skip"
    );
    assert_eq!(peers.next(), Some(invalidate("ov-a", 3, "w3")));
    assert_eq!(peers.next(), Some(invalidate("ov-a", 4, "w4")));
    assert_eq!(peers.next(), None);

    // Looking again changes nothing.
    peers.scan(&"ov-a".to_owned(), &Some(feed.republish()));
    assert_eq!(peers.next(), None);
}

#[test]
fn own_writes_are_ignored() {
    // Feed and subscription on the SAME node.
    let mut feed = WriteFeed::new(8, encode);
    let (_, entry) = feed.publish(&"local".to_owned());
    let mut own = subscriber("self-a", &[]);

    // Nothing may arrive: a node does not invalidate itself.
    assert!(matches!(own.react(changed("self-a")), Reaction::Wait));
    own.scan_all(&[("self-a".to_owned(), Some(entry)), ("self-b".to_owned(), None)]);
    assert_eq!(own.next(), None, "own writes must not produce events");
}

#[test]
fn events_lead_to_scans() {
    let peers = subscriber("me", &[]);
    match peers.react(changed("peer")) {
        Reaction::Scan(node) => assert_eq!(node, "peer"),
        other => panic!("expected a scan, got {other:?}"),
    }
    let other_entry =
        FeedEvent::NodeStateChanged { node: "peer".to_owned(), key: "load".to_owned() };
    assert!(matches!(peers.react(other_entry), Reaction::Wait));
    assert!(matches!(peers.react(FeedEvent::MembershipChanged), Reaction::ScanAll));
    assert!(matches!(peers.react(FeedEvent::Lagged), Reaction::ScanAll));
    assert!(matches!(peers.react(FeedEvent::Other), Reaction::Wait));
    assert!(matches!(peers.react(FeedEvent::Closed), Reaction::End));
}

#[test]
fn history_is_not_replayed() {
    let mut feed = WriteFeed::new(8, encode);
    feed.publish(&"old".to_owned());
    let members = [("a".to_owned(), Some(feed.republish())), ("me".to_owned(), None)];
    let mut peers = subscriber("me", &members);
    peers.scan_all(&members);
    assert_eq!(peers.next(), None);

    let (_, entry) = feed.publish(&"new".to_owned());
    peers.scan(&"a".to_owned(), &Some(entry));
    assert_eq!(peers.next(), Some(invalidate("a", 2, "new")));
}

#[test]
fn undecodable_keys_and_entries_are_skipped() {
    let mut peers = subscriber("me", &[]);
    let frame = Frame { first_seq: 5, keys: vec![vec![0xff], b"good".to_vec()] };
    peers.scan(&"a".to_owned(), &Some(b"garbage".to_vec()));
    peers.scan(&"a".to_owned(), &None);
    assert_eq!(peers.next(), None);
    peers.scan(&"a".to_owned(), &Some(frame.encode()));
    assert_eq!(peers.next(), Some(invalidate("a", 6, "good")));
    assert_eq!(peers.next(), None);
}

#[test]
fn an_older_frame_changes_nothing() {
    let mut peers = subscriber("me", &[]);
    let old = Frame { first_seq: 1, keys: vec![b"a".to_vec()] };
    let new = Frame { first_seq: 1, keys: vec![b"a".to_vec(), b"b".to_vec()] };
    peers.scan(&"p".to_owned(), &Some(new.encode()));
    assert_eq!(peers.next(), Some(invalidate("p", 1, "a")));
    assert_eq!(peers.next(), Some(invalidate("p", 2, "b")));
    peers.scan(&"p".to_owned(), &Some(old.encode()));
    assert_eq!(peers.next(), None);
}

#[test]
fn advertising_gives_up_after_its_retries() {
    let mut attempts = Attempts::new();
    let mut granted = 0;
    while attempts.take() {
        granted += 1;
    }
    assert_eq!(granted, PUBLISH_RETRIES);
    assert_eq!(PUBLISH_RETRIES, 8);
    assert!(!attempts.take());
}

#[test]
fn the_frontier_only_advances() {
    let peer = "node-a".to_owned();
    let mut frontier = Frontier::new();
    assert!(!frontier.reader().reached(&peer, 0));
    frontier.advance(&peer, 5);
    assert!(frontier.reader().reached(&peer, 5));
    assert!(!frontier.reader().reached(&peer, 6));
    frontier.advance(&peer, 3);
    assert!(frontier.reader().reached(&peer, 5));
    assert!(!frontier.reader().reached(&"node-b".to_owned(), 1));
}

#[test]
fn the_entry_key_is_fixed() {
    assert_eq!(ENTRY_KEY, "tierstore:writes");
}
