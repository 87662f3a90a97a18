//! Frames carried for absent peers.
use meshcore::crypto::PeerId;
use meshcore::relaycache::{RelayCache, CAPACITY, TTL_MS};

const ALICE: PeerId = [1u8; 32];
const BOB: PeerId = [2u8; 32];

fn id(n: u8) -> [u8; 16] {
    [n; 16]
}

#[test]
fn a_carried_frame_comes_back_when_its_recipient_appears() {
    let mut c = RelayCache::default();
    assert!(c.store(ALICE, id(1), vec![0xAA], 0));
    assert!(c.store(BOB, id(2), vec![0xBB], 0));
    assert_eq!(c.len(), 2);

    assert_eq!(c.take_for_peer(&ALICE), vec![vec![0xAA]]);
    assert_eq!(c.len(), 1, "only Alice's mail leaves");
    assert_eq!(c.take_for_peer(&BOB), vec![vec![0xBB]]);
    assert!(c.is_empty());
}

/// In a crowded room every relay holds a copy. Handing the same frame over
/// on every future discovery would spend air the recipient's dedup then
/// throws away.
#[test]
fn taking_is_destructive() {
    let mut c = RelayCache::default();
    c.store(ALICE, id(1), vec![1], 0);
    assert_eq!(c.take_for_peer(&ALICE).len(), 1);
    assert!(
        c.take_for_peer(&ALICE).is_empty(),
        "a carried frame is forwarded once"
    );
}

/// The same frame arrives from several neighbours during a flood. Storing
/// each copy would let one message evict everything else we are carrying.
#[test]
fn the_same_frame_is_only_held_once() {
    let mut c = RelayCache::default();
    assert!(c.store(ALICE, id(1), vec![1], 0));
    assert!(!c.store(ALICE, id(1), vec![1], 5));
    assert!(
        !c.store(BOB, id(1), vec![9], 9),
        "keyed on msg_id, not peer"
    );
    assert_eq!(c.len(), 1);
}

#[test]
fn the_cache_is_bounded_and_evicts_oldest_first() {
    let mut c = RelayCache::default();
    for n in 0..CAPACITY {
        let mut m = [0u8; 16];
        m[..8].copy_from_slice(&(n as u64).to_le_bytes());
        c.store(ALICE, m, vec![n as u8], n as u64);
    }
    assert_eq!(c.len(), CAPACITY);

    let mut newest = [0xFFu8; 16];
    newest[0] = 0xAB;
    c.store(ALICE, newest, vec![0], 9_999);
    assert_eq!(c.len(), CAPACITY, "a flooder cannot grow us without limit");

    let mut oldest = [0u8; 16];
    oldest[..8].copy_from_slice(&0u64.to_le_bytes());
    assert!(!c.contains(&oldest), "oldest goes first");
    assert!(c.contains(&newest));
}

#[test]
fn stale_frames_are_dropped() {
    let mut c = RelayCache::default();
    c.store(ALICE, id(1), vec![1], 0);
    c.store(ALICE, id(2), vec![2], TTL_MS);

    assert_eq!(c.expire(TTL_MS - 1), 0, "nothing is stale yet");
    assert_eq!(c.expire(TTL_MS), 1, "the first one is now too old");
    assert_eq!(c.len(), 1);
    assert!(c.contains(&id(2)));
}

/// A relay gives a frame up no later than its sender does, and hands a frame to
/// nobody but its recipient.
#[test]
fn a_relay_never_outlives_the_sender() {
    assert!(TTL_MS <= meshcore::outbox::DEADLINE_MS);
    let mut cache = RelayCache::default();
    assert!(cache.is_empty());
    cache.store([1u8; 32], id(1), vec![1], 1_000);
    cache.store([2u8; 32], id(2), vec![2], 1_000);
    assert_eq!(cache.describe(), "RelayCache(2 carried)");
    assert_eq!(cache.take_for_peer(&[1u8; 32]), vec![vec![1u8]]);
    assert!(!cache.contains(&id(1)));
    assert!(cache.contains(&id(2)));
}
