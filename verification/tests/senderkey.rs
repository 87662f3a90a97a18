//! Sender chains, both ends.
use meshcore::crypto::PeerId;
use meshcore::senderkey::{
    parse_distribution, ChainStore, InboundChain, SenderChain, CHAINS_PER_PEER, DISTRIBUTION_LEN,
    MAX_SKIP, SKIPPED_CAP,
};

const PEER: PeerId = [9u8; 32];

/// Drive a chain through `n` broadcasts and hand back what the receiver
/// would see: (index, message key) pairs.
fn broadcast_n(chain: &mut SenderChain, n: usize) -> Vec<(u32, [u8; 32])> {
    (0..n)
        .map(|_| {
            let (mk, i) = chain.next_message_key().unwrap();
            (i, mk)
        })
        .collect()
}

fn receiver(chain: &SenderChain) -> InboundChain {
    InboundChain::from_distribution(&parse_distribution(&chain.distribution()).unwrap())
}

#[test]
fn a_distribution_round_trips() {
    let chain = SenderChain::new().unwrap();
    let d = parse_distribution(&chain.distribution()).unwrap();
    assert_eq!(d.chain_id, chain.chain_id());
    assert_eq!(d.index, 0);

    assert!(parse_distribution(&[]).is_none());
    assert!(parse_distribution(&[0u8; DISTRIBUTION_LEN - 1]).is_none());
    assert!(parse_distribution(&[0u8; DISTRIBUTION_LEN + 1]).is_none());
}

#[test]
fn sender_and_receiver_agree_in_order() {
    let mut sender = SenderChain::new().unwrap();
    let mut rx = receiver(&sender);
    for (index, expected) in broadcast_n(&mut sender, 8) {
        let d = rx.derive(index).expect("in-order index must derive");
        assert_eq!(d.key, expected);
        rx.commit(d);
    }
    assert_eq!(rx.index(), 8);
    assert_eq!(rx.skipped_len(), 0, "in-order traffic caches nothing");
}

/// The reordering case BLE actually produces: a later frame arrives first,
/// then the gap fills in.
#[test]
fn a_skipped_frame_can_still_be_opened_when_it_arrives() {
    let mut sender = SenderChain::new().unwrap();
    // Snapshot the chain before it advances — a peer that joins later would
    // legitimately start further along, which is a different test.
    let mut rx = receiver(&sender);
    let sent = broadcast_n(&mut sender, 5);

    // Index 4 lands first.
    let (i4, mk4) = sent[4];
    let d = rx.derive(i4).unwrap();
    assert_eq!(d.key, mk4);
    rx.commit(d);
    assert_eq!(rx.skipped_len(), 4, "0..=3 held for the stragglers");

    // Then the stragglers, out of order among themselves.
    for &(i, mk) in [&sent[1], &sent[3], &sent[0], &sent[2]] {
        let d = rx.derive(i).unwrap();
        assert_eq!(d.key, mk);
        rx.commit(d);
    }
    assert_eq!(rx.skipped_len(), 0, "each key is erased once it is used");
}

/// Spending a key must destroy it — otherwise the cache is a permanent
/// archive of openable messages.
#[test]
fn a_used_skipped_key_cannot_be_used_twice() {
    let mut sender = SenderChain::new().unwrap();
    let mut rx = receiver(&sender);
    let sent = broadcast_n(&mut sender, 3);

    let d = rx.derive(sent[2].0).unwrap();
    rx.commit(d);
    let d = rx.derive(sent[0].0).unwrap();
    rx.commit(d);
    assert!(
        rx.derive(sent[0].0).is_none(),
        "a spent message key must be gone"
    );
}

#[test]
fn an_index_beyond_max_skip_is_refused() {
    let sender = SenderChain::new().unwrap();
    let rx = receiver(&sender);
    assert!(rx.derive(MAX_SKIP).is_some(), "the boundary itself is fine");
    assert!(rx.derive(MAX_SKIP + 1).is_none());
    assert!(rx.derive(u32::MAX).is_none());
}

/// The reason `derive` and `commit` are separate. A forged frame — anyone
/// can put one on the air — must not be able to ratchet us past the real
/// sender's messages and destroy their keys.
#[test]
fn deriving_without_committing_leaves_the_chain_untouched() {
    let mut sender = SenderChain::new().unwrap();
    let mut rx = receiver(&sender);
    let sent = broadcast_n(&mut sender, 3);

    // An attacker claims index 60. We compute a key; the AEAD then fails,
    // so we never commit.
    let forged = rx.derive(60).unwrap();
    drop(forged);
    assert_eq!(rx.index(), 0, "an unverified frame must not move the chain");
    assert_eq!(rx.skipped_len(), 0);

    // The genuine messages still open.
    for (index, expected) in sent {
        let d = rx.derive(index).unwrap();
        assert_eq!(d.key, expected);
        rx.commit(d);
    }
}

#[test]
fn the_skip_cache_is_bounded() {
    let mut sender = SenderChain::new().unwrap();
    let mut rx = receiver(&sender);
    // Jump MAX_SKIP at a time until well past the cap.
    let mut index = 0u32;
    while rx.skipped_len() < SKIPPED_CAP {
        index += MAX_SKIP;
        let d = rx.derive(index).unwrap();
        rx.commit(d);
    }
    index += MAX_SKIP;
    let d = rx.derive(index).unwrap();
    rx.commit(d);
    assert!(
        rx.skipped_len() <= SKIPPED_CAP,
        "skip cache grew to {}",
        rx.skipped_len()
    );
    let _ = &mut sender;
}

/// Rewinding would restore chain keys we had erased. A replayed old
/// distribution must not be able to do that.
#[test]
fn a_distribution_cannot_rewind_a_chain() {
    let mut sender = SenderChain::new().unwrap();
    let early = parse_distribution(&sender.distribution()).unwrap();
    broadcast_n(&mut sender, 5);
    let later = parse_distribution(&sender.distribution()).unwrap();

    let mut store = ChainStore::default();
    assert!(store.install(PEER, &later));
    assert_eq!(store.get_mut(&PEER, later.chain_id).unwrap().index(), 5);

    assert!(!store.install(PEER, &early), "a replayed older SKDM");
    assert_eq!(
        store.get_mut(&PEER, later.chain_id).unwrap().index(),
        5,
        "chain must not have been rewound"
    );
}

#[test]
fn a_restarting_peer_does_not_accumulate_chains() {
    let mut store = ChainStore::default();
    let mut ids = Vec::new();
    for _ in 0..CHAINS_PER_PEER + 3 {
        let chain = SenderChain::new().unwrap();
        let d = parse_distribution(&chain.distribution()).unwrap();
        ids.push(d.chain_id);
        store.install(PEER, &d);
    }
    let held = store.chain_ids(&PEER);
    assert_eq!(held.len(), CHAINS_PER_PEER);
    // Newest first, oldest evicted.
    assert_eq!(held[0], *ids.last().unwrap());
    assert!(store.get_mut(&PEER, ids[0]).is_none());
}

#[test]
fn an_unknown_chain_is_not_openable() {
    let mut store = ChainStore::default();
    assert!(store.get_mut(&PEER, 1234).is_none());
    let chain = SenderChain::new().unwrap();
    let d = parse_distribution(&chain.distribution()).unwrap();
    store.install(PEER, &d);
    assert!(store.get_mut(&PEER, d.chain_id.wrapping_add(1)).is_none());
    assert!(store.get_mut(&[8u8; 32], d.chain_id).is_none());
}

/// Log lines name a chain and its position, and show no key.
#[test]
fn chains_describe_themselves_without_their_keys() {
    let mut chain = SenderChain::starting_with(0xBEEF, [0x11; 32]);
    assert_eq!(chain.describe(), "SenderChain(id 0000beef, index 0)");
    chain.next_message_key().unwrap();
    let body = chain.distribution();
    let parsed = parse_distribution(&body).unwrap();
    assert_eq!(parsed.describe(), "Distribution(id 0000beef, index 1)");
    let mut inbound = InboundChain::from_distribution(&parsed);
    let d = inbound.derive(3).unwrap();
    inbound.commit(d);
    assert_eq!(inbound.describe(), "InboundChain(index 4, 2 skipped)");
    assert_eq!(inbound.skipped_len(), 2);
}

/// An exhausted chain gives no more keys: going round would use them twice.
#[test]
fn the_last_position_is_never_opened() {
    let d = meshcore::senderkey::Distribution {
        chain_id: 1,
        index: u32::MAX,
        key: meshcore::senderkey::parse_distribution(&[0u8; DISTRIBUTION_LEN])
            .unwrap()
            .key,
    };
    let inbound = InboundChain::from_distribution(&d);
    assert!(inbound.derive(u32::MAX).is_none());
}
