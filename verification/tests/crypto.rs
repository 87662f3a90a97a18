//! Key agreement, signatures and AEAD.
use meshcore::crypto::{
    diffie_hellman, hex16, network_key, open_aead, open_key_fs, peer_x25519, random_16, random_32,
    random_nonce, random_secret, random_u32, seal_aead, seal_key_fs, sender_chain_step,
    sign_prekey, verify_prekey, Identity, StaticSecret, BROADCAST_ID, NONCE_LEN, OPEN_CHANNEL,
};
use meshcore::CoreError;

#[test]
fn static_key_is_symmetric() {
    let a = Identity::from_seed([3u8; 32]);
    let b = Identity::from_seed([4u8; 32]);
    assert_eq!(
        a.derive_static_key(&b.public_id()).unwrap(),
        b.derive_static_key(&a.public_id()).unwrap()
    );
}

/// The birational map has to agree in both directions or every DH silently
/// produces two different keys and nothing decrypts.
#[test]
fn ed25519_and_x25519_forms_agree() {
    let id = Identity::from_seed([5u8; 32]);
    let from_secret = id.x25519_secret().public_key();
    let from_public = peer_x25519(&id.public_id()).unwrap();
    assert_eq!(from_secret, from_public);
}

#[test]
fn a_malformed_peer_id_is_rejected_at_decode() {
    // y = 2 and y = 7 have no corresponding x on the curve.
    for y in [2u8, 7] {
        let mut id = [0u8; 32];
        id[0] = y;
        assert!(peer_x25519(&id).is_err(), "y={y} should not decompress");
    }
}

/// Regression: decoding is not enough. These ids decompress perfectly well
/// and then force the shared secret to all zeros, which would let anyone
/// who picks such an id read — and forge — traffic addressed to them.
#[test]
fn small_order_peer_ids_are_rejected_at_dh_not_merely_at_decode() {
    let id = Identity::from_seed([1u8; 32]);

    let identity_point = {
        let mut b = [0u8; 32];
        b[0] = 1;
        b
    };
    for hostile in [BROADCAST_ID, identity_point] {
        assert!(
            peer_x25519(&hostile).is_ok(),
            "precondition: this id decodes, which is why the DH check matters"
        );
        assert!(
            id.derive_static_key(&hostile).is_err(),
            "small-order id {} must be refused",
            hex16(&hostile)
        );
    }

    // The same guard applies on the forward-secret path.
    let ephemeral = random_secret().unwrap();
    assert!(seal_key_fs(&id, &ephemeral, &id.public_id(), &[0u8; 32], 0).is_err());
    assert!(open_key_fs(&ephemeral, &[0u8; 32], &id.public_id(), &id.public_id(), 0).is_err());
}

#[test]
fn forward_secret_key_agreement_matches_on_both_sides() {
    let sender = Identity::from_seed([1u8; 32]);
    let recipient = Identity::from_seed([2u8; 32]);
    let prekey_secret = random_secret().unwrap();
    let prekey_pub = prekey_secret.public_key();
    let ephemeral = random_secret().unwrap();
    let ephemeral_pub = ephemeral.public_key();

    let k_send =
        seal_key_fs(&sender, &ephemeral, &recipient.public_id(), &prekey_pub, 7).unwrap();
    let k_recv = open_key_fs(
        &prekey_secret,
        &ephemeral_pub,
        &sender.public_id(),
        &recipient.public_id(),
        7,
    )
    .unwrap();
    assert_eq!(k_send, k_recv);
}

/// The generation is in the KDF transcript, so a frame cannot be silently
/// re-pointed at a different prekey.
#[test]
fn a_different_generation_yields_a_different_key() {
    let sender = Identity::from_seed([1u8; 32]);
    let recipient = Identity::from_seed([2u8; 32]);
    let prekey_secret = random_secret().unwrap();
    let prekey_pub = prekey_secret.public_key();
    let ephemeral = random_secret().unwrap();

    let k7 = seal_key_fs(&sender, &ephemeral, &recipient.public_id(), &prekey_pub, 7).unwrap();
    let k8 = seal_key_fs(&sender, &ephemeral, &recipient.public_id(), &prekey_pub, 8).unwrap();
    assert_ne!(k7, k8);
}

/// The property that makes it forward secret: the long-term keys alone are
/// not enough. Only the (ephemeral, prekey) pair opens the message, and both
/// are erased on rotation.
#[test]
fn long_term_keys_alone_cannot_derive_the_message_key() {
    let sender = Identity::from_seed([1u8; 32]);
    let recipient = Identity::from_seed([2u8; 32]);
    let prekey_secret = random_secret().unwrap();
    let prekey_pub = prekey_secret.public_key();
    let ephemeral = random_secret().unwrap();

    let real =
        seal_key_fs(&sender, &ephemeral, &recipient.public_id(), &prekey_pub, 1).unwrap();

    // An attacker holding BOTH static secrets, but neither the ephemeral
    // nor the prekey secret, can only compute the static-static key.
    let compromised = sender.derive_static_key(&recipient.public_id()).unwrap();
    assert_ne!(real, compromised);

    // Even knowing the ephemeral *public* key does not help.
    let eph_pub = ephemeral.public_key();
    let guess = diffie_hellman(&sender.x25519_secret(), &eph_pub).unwrap();
    assert_ne!(real, guess);
}

#[test]
fn a_prekey_signature_binds_it_to_one_identity() {
    let alice = Identity::from_seed([1u8; 32]);
    let mallory = Identity::from_seed([2u8; 32]);
    let prekey = [9u8; 32];

    let sig = sign_prekey(&alice, 3, &prekey);
    assert!(verify_prekey(&alice.public_id(), 3, &prekey, &sig));

    // Mallory cannot publish a prekey as Alice.
    let forged = sign_prekey(&mallory, 3, &prekey);
    assert!(!verify_prekey(&alice.public_id(), 3, &prekey, &forged));

    // Nor can Alice's signature be lifted onto a different prekey...
    assert!(!verify_prekey(&alice.public_id(), 3, &[8u8; 32], &sig));
    // ...or a different generation.
    assert!(!verify_prekey(&alice.public_id(), 4, &prekey, &sig));
}

/// The two outputs must be independent of each other and of the input, or
/// handing the message key to the AEAD would leak the chain.
#[test]
fn a_chain_step_produces_two_unrelated_keys() {
    let ck = [7u8; 32];
    let (mk, next) = sender_chain_step(&ck);
    assert_ne!(mk, next);
    assert_ne!(mk, ck);
    assert_ne!(next, ck);
    // Deterministic: both sides of a broadcast must land on the same key.
    assert_eq!(sender_chain_step(&ck), (mk, next));
}

/// Walking the chain must never revisit a message key — every broadcast
/// gets its own, and a repeat would be nonce-reuse-shaped.
#[test]
fn a_chain_never_repeats_a_message_key() {
    let mut ck = [3u8; 32];
    let mut seen = std::collections::HashSet::new();
    for _ in 0..256 {
        let (mk, next) = sender_chain_step(&ck);
        assert!(seen.insert(mk), "message key repeated within one chain");
        ck = next;
    }
}

#[test]
fn aead_rejects_tampering() {
    let k = network_key(OPEN_CHANNEL);
    let n = [7u8; NONCE_LEN];
    let mut ct = seal_aead(&k, &n, b"aad", b"secret").unwrap();
    assert_eq!(open_aead(&k, &n, b"aad", &ct).unwrap(), b"secret");
    ct[0] ^= 0xff;
    assert!(open_aead(&k, &n, b"aad", &ct).is_err());
    // Wrong AAD must also fail — this is what protects the frame header.
    let ct2 = seal_aead(&k, &n, b"aad", b"secret").unwrap();
    assert!(open_aead(&k, &n, b"other", &ct2).is_err());
}

// --- Against the primitives themselves -----------------------------------------

/// SHA-256 of the domain separator and some parts.
fn derived(parts: &[&[u8]]) -> [u8; 32] {
    let mut material = b"meshcore/v4/ed25519-x25519-chacha20poly1305".to_vec();
    for part in parts {
        material.extend_from_slice(part);
    }
    <sha2::Sha256 as sha2::Digest>::digest(&material).into()
}

#[test]
fn the_channel_key_is_a_hash_of_the_secret_behind_its_length() {
    assert_eq!(
        network_key(b"room"),
        derived(&[b"\x02broadcast", &4u64.to_le_bytes(), b"room"])
    );
    assert_ne!(network_key(b"room"), network_key(b"room2"));
    assert_ne!(network_key(b""), network_key(b"\0"));
}

#[test]
fn a_chain_step_hashes_the_chain_under_two_tags() {
    let chain = [3u8; 32];
    let (message, next) = sender_chain_step(&chain);
    assert_eq!(message, derived(&[b"\x04sk-message", &chain]));
    assert_eq!(next, derived(&[b"\x05sk-chain", &chain]));
}

#[test]
fn an_identity_is_the_ed25519_key_of_its_seed() {
    let seed = [5u8; 32];
    let identity = Identity::from_seed(seed);
    let reference = ed25519_dalek::SigningKey::from_bytes(&seed);
    assert_eq!(identity.public_id(), reference.verifying_key().to_bytes());
    assert_eq!(
        identity.sign(b"words").to_vec(),
        ed25519_dalek::Signer::sign(&reference, b"words").to_bytes()
    );
    assert_eq!(
        peer_x25519(&identity.public_id()).unwrap(),
        reference.verifying_key().to_montgomery().to_bytes()
    );
    assert_eq!(
        identity.x25519_secret().public_key(),
        reference.verifying_key().to_montgomery().to_bytes()
    );
}

#[test]
fn diffie_hellman_is_x25519() {
    let secret = StaticSecret::from_bytes([8u8; 32]);
    let theirs = x25519_dalek::StaticSecret::from([9u8; 32]);
    let public = x25519_dalek::PublicKey::from(&theirs);
    assert_eq!(
        secret.public_key(),
        x25519_dalek::PublicKey::from(&x25519_dalek::StaticSecret::from([8u8; 32])).to_bytes()
    );
    let shared = diffie_hellman(&secret, public.as_bytes()).unwrap();
    let reference = theirs.diffie_hellman(&x25519_dalek::PublicKey::from(secret.public_key()));
    assert_eq!(&shared, reference.as_bytes());
}

#[test]
fn the_static_key_hashes_both_ids_in_order() {
    let a = Identity::from_seed([1u8; 32]);
    let b = Identity::from_seed([2u8; 32]);
    let shared =
        diffie_hellman(&a.x25519_secret(), &peer_x25519(&b.public_id()).unwrap()).unwrap();
    let (low, high) = if a.public_id() <= b.public_id() {
        (a.public_id(), b.public_id())
    } else {
        (b.public_id(), a.public_id())
    };
    assert_eq!(
        a.derive_static_key(&b.public_id()).unwrap(),
        derived(&[b"\x01static", &shared, &low, &high])
    );
}

#[test]
fn the_forward_secret_key_hashes_both_exchanges() {
    let sender = Identity::from_seed([1u8; 32]);
    let recipient = Identity::from_seed([2u8; 32]).public_id();
    let ephemeral = StaticSecret::from_bytes([3u8; 32]);
    let prekey = StaticSecret::from_bytes([4u8; 32]).public_key();
    let dh1 = diffie_hellman(&ephemeral, &prekey).unwrap();
    let dh2 = diffie_hellman(&sender.x25519_secret(), &prekey).unwrap();
    assert_eq!(
        seal_key_fs(&sender, &ephemeral, &recipient, &prekey, 7).unwrap(),
        derived(&[
            b"\x03forward-secret",
            &dh1,
            &dh2,
            &sender.public_id(),
            &recipient,
            &7u32.to_le_bytes()
        ])
    );
}

#[test]
fn the_aead_is_chacha20_poly1305() {
    let (key, nonce) = ([6u8; 32], [7u8; 12]);
    let sealed = seal_aead(&key, &nonce, b"aad", b"plain").unwrap();
    let cipher = <chacha20poly1305::ChaCha20Poly1305 as chacha20poly1305::KeyInit>::new(
        chacha20poly1305::Key::from_slice(&key),
    );
    let reference = chacha20poly1305::aead::Aead::encrypt(
        &cipher,
        chacha20poly1305::Nonce::from_slice(&nonce),
        chacha20poly1305::aead::Payload {
            msg: b"plain",
            aad: b"aad",
        },
    )
    .unwrap();
    assert_eq!(sealed, reference);
    assert_eq!(sealed.len(), 5 + 16);
    assert_eq!(open_aead(&key, &nonce, b"aad", &sealed).unwrap(), b"plain");
    assert_eq!(
        open_aead(&key, &nonce, b"aad", &sealed[..15]).err(),
        Some(CoreError::Crypto("ciphertext shorter than tag"))
    );
    assert_eq!(
        open_aead(&key, &nonce, b"other", &sealed).err(),
        Some(CoreError::Crypto("open: auth failed"))
    );
}

#[test]
fn random_values_are_not_handed_out_twice() {
    assert_ne!(random_16().unwrap(), random_16().unwrap());
    assert_ne!(random_32().unwrap(), random_32().unwrap());
    assert_ne!(random_nonce().unwrap(), random_nonce().unwrap());
    assert_ne!(
        random_secret().unwrap().public_key(),
        random_secret().unwrap().public_key()
    );
    let draws: Vec<u32> = (0..8).map(|_| random_u32().unwrap()).collect();
    assert!(draws.iter().any(|d| *d != draws[0]));
}

#[test]
fn log_lines_show_no_secrets() {
    let identity = Identity::from_seed([1u8; 32]);
    let id = identity.public_id();
    assert_eq!(hex16(&[0x01, 0xAB, 0x00]), "01ab00");
    assert_eq!(hex16(&id).len(), 16);
    assert!(identity.describe().contains(&hex16(&id)));
}
