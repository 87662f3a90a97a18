//! Rotating prekeys and their bundles.
use meshcore::crypto::{Identity, StaticSecret};
use meshcore::prekey::{parse_bundle, PrekeyRing, BUNDLE_LEN, RETAINED, ROTATE_INTERVAL_MS};

#[test]
fn the_current_prekey_is_always_retrievable() {
    let ring = PrekeyRing::new(0).unwrap();
    let gen = ring.current().generation;
    assert!(ring.get(gen).is_some());
    assert!(ring.get(gen + 1).is_none());
}

#[test]
fn rotation_keeps_recent_generations_decryptable() {
    let mut ring = PrekeyRing::new(0).unwrap();
    let gen0 = ring.current().generation;
    ring.rotate(1).unwrap();
    assert_ne!(ring.current().generation, gen0);
    assert!(
        ring.get(gen0).is_some(),
        "a just-rotated prekey must still open in-flight mail"
    );
}

#[test]
fn rotating_past_the_retention_depth_destroys_the_old_secret() {
    let mut ring = PrekeyRing::new(0).unwrap();
    let gen0 = ring.current().generation;
    for i in 1..=(RETAINED as u64 + 1) {
        ring.rotate(i).unwrap();
    }
    assert!(
        ring.get(gen0).is_none(),
        "generation {gen0} must be unrecoverable after {} rotations",
        RETAINED + 1
    );
    assert_eq!(ring.retired_generations().len(), RETAINED);
}

#[test]
fn rotation_respects_the_interval() {
    let mut ring = PrekeyRing::new(1_000).unwrap();
    assert!(!ring.rotate_if_due(1_000 + ROTATE_INTERVAL_MS - 1).unwrap());
    assert!(ring.rotate_if_due(1_000 + ROTATE_INTERVAL_MS).unwrap());
    // The clock restarts from the rotation, not from construction.
    assert!(!ring.rotate_if_due(1_000 + ROTATE_INTERVAL_MS + 1).unwrap());
}

/// A retried message can be up to the outbox deadline old when it lands. If
/// retention were shorter, the recipient would have dropped the prekey and
/// the retry could never succeed.
#[test]
fn retention_outlives_the_outbox_deadline() {
    let retention_ms = ROTATE_INTERVAL_MS * RETAINED as u64;
    assert!(
        retention_ms > meshcore::outbox::DEADLINE_MS,
        "prekey retention {retention_ms}ms must exceed the outbox deadline {}ms",
        meshcore::outbox::DEADLINE_MS
    );
}

#[test]
fn a_bundle_round_trips_through_verification() {
    let id = Identity::from_seed([1u8; 32]);
    let ring = PrekeyRing::new(0).unwrap();
    let body = ring.bundle(&id);
    assert_eq!(body.len(), BUNDLE_LEN);

    let parsed = parse_bundle(&id.public_id(), &body).expect("own bundle must verify");
    assert_eq!(parsed.generation, ring.current().generation);
    assert_eq!(parsed.public, ring.current().public);
}

#[test]
fn a_bundle_attributed_to_the_wrong_peer_is_refused() {
    let alice = Identity::from_seed([1u8; 32]);
    let bob = Identity::from_seed([2u8; 32]);
    let ring = PrekeyRing::new(0).unwrap();
    let body = ring.bundle(&alice);
    // The exact impersonation the signature exists to stop.
    assert!(parse_bundle(&bob.public_id(), &body).is_none());
}

#[test]
fn a_tampered_bundle_is_refused() {
    let id = Identity::from_seed([1u8; 32]);
    let ring = PrekeyRing::new(0).unwrap();
    let good = ring.bundle(&id);

    for offset in [0usize, 10, 40, BUNDLE_LEN - 1] {
        let mut bad = good.clone();
        bad[offset] ^= 0xff;
        assert!(
            parse_bundle(&id.public_id(), &bad).is_none(),
            "flipping byte {offset} of a bundle went undetected"
        );
    }
    // Wrong length, including empty and truncated.
    assert!(parse_bundle(&id.public_id(), &[]).is_none());
    assert!(parse_bundle(&id.public_id(), &good[..BUNDLE_LEN - 1]).is_none());
}

/// A ring's own bundle advertises its current prekey, and a pair names itself
/// without its secret.
#[test]
fn a_bundle_is_generation_key_and_signature() {
    let identity = Identity::from_seed([1u8; 32]);
    let secret = meshcore::crypto::StaticSecret::from_bytes([5u8; 32]);
    let public = secret.public_key();
    let ring = PrekeyRing::starting_with(secret, 0);
    let body = ring.bundle(&identity);
    assert_eq!(body.len(), BUNDLE_LEN);
    assert_eq!(&body[..4], &[0, 0, 0, 0]);
    assert_eq!(&body[4..36], &public);
    assert_eq!(
        &body[36..],
        &meshcore::crypto::sign_prekey(&identity, 0, &public)
    );
    let parsed = parse_bundle(&identity.public_id(), &body).unwrap();
    assert_eq!((parsed.generation, parsed.public), (0, public));
    assert_eq!(
        ring.current().describe(),
        format!("PrekeyPair(gen 0, {})", meshcore::crypto::hex16(&public))
    );
}

/// Chains and prekeys are replaced at the same pace, and a clock that went
/// backwards makes nothing due.
#[test]
fn chain_rotation_matches_prekey_rotation() {
    assert_eq!(ROTATE_INTERVAL_MS, meshcore::senderkey::ROTATE_INTERVAL_MS);
    let mut ring = PrekeyRing::new(1_000_000).unwrap();
    assert!(!ring.is_due(0));
    assert!(!ring.is_due(1_000_000 + ROTATE_INTERVAL_MS - 1));
    assert!(ring.is_due(1_000_000 + ROTATE_INTERVAL_MS));
    assert_eq!(ring.rotate_if_due(500), Ok(false));
    for _ in 0..5 {
        ring.rotate(0).unwrap();
    }
    assert_eq!(ring.current().generation, 5);
    assert_eq!(ring.retired_generations(), vec![4, 3, 2]);
}

/// What the ring hands out is the prekey that was asked for, with the public key of
/// its secret.
#[test]
fn a_prekey_shows_its_generation_and_public_key() {
    let publics: Vec<[u8; 32]> = [[7u8; 32], [8u8; 32]]
        .iter()
        .map(|bytes| StaticSecret::from_bytes(*bytes).public_key())
        .collect();
    assert_ne!(publics[0], publics[1]);

    let mut ring = PrekeyRing::starting_with(StaticSecret::from_bytes([7u8; 32]), 0);
    ring.rotate_to(StaticSecret::from_bytes([8u8; 32]), 1);
    let current = ring.current();
    assert_eq!((current.generation, current.public), (1, publics[1]));
    let retired = ring.get(0).unwrap();
    assert_eq!((retired.generation, retired.public), (0, publics[0]));
    assert_eq!(retired.secret().public_key(), publics[0]);
}
