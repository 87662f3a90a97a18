//! The wire format, end to end.
use meshcore::crypto::{self, Identity, PeerId};
use meshcore::frame::{
    build, open, parse, relay, FrameError, FrameKind, Opening, Outgoing, Sealing, SkPreamble,
    FLAG_FS, FLAG_SK, FS_PREAMBLE_LEN, HEADER_LEN, MAGIC, MAX_BODY, MAX_FRAME, MAX_NICKNAME,
    SK_PREAMBLE_LEN,
};
use meshcore::prekey::{parse_bundle, PeerPrekey, PrekeyRing, RETAINED};
use meshcore::senderkey::DISTRIBUTION_LEN;

/// The default channel, so that these tests exercise the same path a caller who
/// supplies no secret gets.
fn open_key() -> [u8; 32] {
    crypto::network_key(crypto::OPEN_CHANNEL)
}

fn broadcast<'a>(body: &'a [u8], key: &'a [u8; 32]) -> Outgoing<'a> {
    Outgoing {
        recipient: crypto::BROADCAST_ID,
        msg_id: [5u8; 16],
        epoch: 42,
        counter: 7,
        ttl: 4,
        body,
        nickname: "",
        kind: FrameKind::Message,
        sealing: Sealing::Network { key },
    }
}

fn directed<'a>(to: PeerId, body: &'a [u8], sealing: Sealing<'a>) -> Outgoing<'a> {
    Outgoing {
        recipient: to,
        msg_id: [6u8; 16],
        epoch: 42,
        counter: 8,
        ttl: 4,
        body,
        nickname: "",
        kind: FrameKind::Message,
        sealing,
    }
}

#[test]
fn broadcast_roundtrip() {
    let a = Identity::from_seed([1u8; 32]);
    let b = Identity::from_seed([2u8; 32]);
    let wire = build(&a, &broadcast(b"hi", &open_key())).unwrap();
    let parsed = parse(&wire).unwrap();
    assert_eq!(parsed.sender, a.public_id());
    assert_eq!(parsed.epoch, 42);
    assert_eq!(parsed.counter, 7);
    assert!(!parsed.is_forward_secret());
    assert_eq!(
        open(&b, &parsed, Opening::Network { key: &open_key() }).unwrap(),
        b"hi"
    );
}

#[test]
fn static_directed_frame_only_opens_for_recipient() {
    let a = Identity::from_seed([1u8; 32]);
    let b = Identity::from_seed([2u8; 32]);
    let eve = Identity::from_seed([3u8; 32]);
    let wire = build(&a, &directed(b.public_id(), b"psst", Sealing::Static)).unwrap();
    let parsed = parse(&wire).unwrap();
    assert!(!parsed.is_forward_secret(), "static path must not claim FS");
    assert_eq!(open(&b, &parsed, Opening::Static).unwrap(), b"psst");
    assert!(open(&eve, &parsed, Opening::Static).is_err());
}

#[test]
fn forward_secret_frame_roundtrips() {
    let a = Identity::from_seed([1u8; 32]);
    let b = Identity::from_seed([2u8; 32]);
    let ring = PrekeyRing::new(0).unwrap();
    let bundle = PeerPrekey {
        generation: ring.current().generation,
        public: ring.current().public,
    };
    let ephemeral = crypto::random_secret().unwrap();

    let wire = build(
        &a,
        &directed(
            b.public_id(),
            b"forward secret",
            Sealing::ForwardSecret {
                ephemeral: &ephemeral,
                prekey: &bundle,
            },
        ),
    )
    .unwrap();

    let parsed = parse(&wire).unwrap();
    assert!(parsed.is_forward_secret());
    assert_eq!(parsed.fs.unwrap().generation, bundle.generation);
    assert_eq!(
        open(
            &b,
            &parsed,
            Opening::ForwardSecret {
                prekey_secret: ring.current().secret()
            }
        )
        .unwrap(),
        b"forward secret"
    );
}

/// Once the prekey is gone the message is unrecoverable — including by the
/// intended recipient, using its own long-term key. That is the guarantee.
#[test]
fn a_rotated_out_prekey_cannot_open_the_frame() {
    let a = Identity::from_seed([1u8; 32]);
    let b = Identity::from_seed([2u8; 32]);
    let mut ring = PrekeyRing::new(0).unwrap();
    let bundle = PeerPrekey {
        generation: ring.current().generation,
        public: ring.current().public,
    };
    let ephemeral = crypto::random_secret().unwrap();
    let wire = build(
        &a,
        &directed(
            b.public_id(),
            b"burn after reading",
            Sealing::ForwardSecret {
                ephemeral: &ephemeral,
                prekey: &bundle,
            },
        ),
    )
    .unwrap();
    let parsed = parse(&wire).unwrap();

    // Rotate past the retention depth; the secret is zeroized on eviction.
    for i in 1..=(RETAINED as u64 + 1) {
        ring.rotate(i).unwrap();
    }
    assert!(ring.get(bundle.generation).is_none());

    // The current prekey cannot substitute for the retired one.
    assert!(open(
        &b,
        &parsed,
        Opening::ForwardSecret {
            prekey_secret: ring.current().secret()
        }
    )
    .is_err());
    // Neither can the static fallback.
    assert!(open(&b, &parsed, Opening::Static).is_err());
}

#[test]
fn the_fs_preamble_is_authenticated() {
    let a = Identity::from_seed([1u8; 32]);
    let b = Identity::from_seed([2u8; 32]);
    let ring = PrekeyRing::new(0).unwrap();
    let bundle = PeerPrekey {
        generation: ring.current().generation,
        public: ring.current().public,
    };
    let ephemeral = crypto::random_secret().unwrap();
    let wire = build(
        &a,
        &directed(
            b.public_id(),
            b"x",
            Sealing::ForwardSecret {
                ephemeral: &ephemeral,
                prekey: &bundle,
            },
        ),
    )
    .unwrap();

    // Swapping the ephemeral key or re-pointing the generation must break
    // the AEAD, not silently derive a different key.
    for offset in [HEADER_LEN, HEADER_LEN + 31, HEADER_LEN + 32] {
        let mut tampered = wire.clone();
        tampered[offset] ^= 0xff;
        let p = parse(&tampered).unwrap();
        assert!(
            open(
                &b,
                &p,
                Opening::ForwardSecret {
                    prekey_secret: ring.current().secret()
                }
            )
            .is_err(),
            "tampering with preamble byte {offset} went undetected"
        );
    }
}

fn sender_key_broadcast<'a>(
    chain_id: u32,
    index: u32,
    key: &'a [u8; 32],
    body: &'a [u8],
) -> Outgoing<'a> {
    Outgoing {
        recipient: crypto::BROADCAST_ID,
        msg_id: [4u8; 16],
        epoch: 42,
        counter: 9,
        ttl: 4,
        body,
        nickname: "",
        kind: FrameKind::Message,
        sealing: Sealing::SenderKey {
            chain_id,
            index,
            key,
        },
    }
}

#[test]
fn a_sender_key_broadcast_roundtrips() {
    let a = Identity::from_seed([1u8; 32]);
    let b = Identity::from_seed([2u8; 32]);
    let key = [0x5Au8; 32];

    let wire = build(
        &a,
        &sender_key_broadcast(0xDEADBEEF, 12, &key, b"to the group"),
    )
    .unwrap();
    let p = parse(&wire).unwrap();

    assert!(p.is_broadcast());
    assert!(
        p.is_forward_secret(),
        "a ratcheted broadcast is forward secret"
    );
    assert_eq!(
        p.sk.unwrap(),
        SkPreamble {
            chain_id: 0xDEADBEEF,
            index: 12
        }
    );
    assert!(p.fs.is_none(), "the FS preamble must not also be claimed");
    assert_eq!(
        open(&b, &p, Opening::SenderKey { key: &key }).unwrap(),
        b"to the group"
    );

    // The group key must not open it — that is the whole point.
    assert!(open(&b, &p, Opening::Network { key: &open_key() }).is_err());
    // Nor may a different message key from the same chain.
    assert!(open(&b, &p, Opening::SenderKey { key: &[0x5Bu8; 32] }).is_err());
}

/// Re-pointing a frame at a different chain or index must break the AEAD
/// rather than silently ask the receiver to ratchet somewhere else.
#[test]
fn the_sender_key_preamble_is_authenticated() {
    let a = Identity::from_seed([1u8; 32]);
    let b = Identity::from_seed([2u8; 32]);
    let key = [0x5Au8; 32];
    let wire = build(&a, &sender_key_broadcast(7, 3, &key, b"x")).unwrap();

    for offset in HEADER_LEN..HEADER_LEN + SK_PREAMBLE_LEN {
        let mut tampered = wire.clone();
        tampered[offset] ^= 0xff;
        let p = parse(&tampered).unwrap();
        assert!(
            open(&b, &p, Opening::SenderKey { key: &key }).is_err(),
            "tampering with preamble byte {offset} went undetected"
        );
    }
}

/// Both preamble bits set is not a frame with a precedence rule; it is a
/// frame with two answers to "how long is the header", so it is refused.
#[test]
fn a_frame_claiming_both_preambles_is_refused() {
    let a = Identity::from_seed([1u8; 32]);
    let key = [1u8; 32];
    let mut wire = build(&a, &sender_key_broadcast(1, 0, &key, b"x")).unwrap();
    wire[2] |= FLAG_FS;
    assert_eq!(
        parse(&wire).unwrap_err(),
        FrameError::ConflictingPreambles,
        "an ambiguous length prefix must not be resolved by precedence"
    );
}

#[test]
fn a_truncated_sender_key_preamble_is_rejected() {
    let a = Identity::from_seed([1u8; 32]);
    let wire = build(&a, &broadcast(b"x", &open_key())).unwrap();
    let mut lying = wire[..HEADER_LEN + 4].to_vec();
    lying[2] |= FLAG_SK;
    assert_eq!(parse(&lying).unwrap_err(), FrameError::TooShort);
}

#[test]
fn a_sender_key_distribution_is_a_distinct_kind() {
    let a = Identity::from_seed([1u8; 32]);
    let b = Identity::from_seed([2u8; 32]);
    let body = [3u8; DISTRIBUTION_LEN];
    let wire = build(
        &a,
        &Outgoing {
            recipient: b.public_id(),
            msg_id: [1u8; 16],
            epoch: 1,
            counter: 1,
            ttl: 4,
            body: &body,
            nickname: "",
            kind: FrameKind::SenderKey,
            sealing: Sealing::Static,
        },
    )
    .unwrap();
    let p = parse(&wire).unwrap();
    assert_eq!(p.kind, FrameKind::SenderKey);
    assert!(!p.is_broadcast(), "a chain key is never broadcast");
    assert_eq!(open(&b, &p, Opening::Static).unwrap(), body);
}

#[test]
fn relaying_preserves_authenticity() {
    let a = Identity::from_seed([1u8; 32]);
    let b = Identity::from_seed([2u8; 32]);
    let wire = build(&a, &broadcast(b"relayed", &open_key())).unwrap();
    let hop2 = relay(&relay(&wire).unwrap()).unwrap();
    let p = parse(&hop2).unwrap();
    assert_eq!(p.ttl, 2);
    assert_eq!(p.hops, 2);
    // TTL/hops changed but the AEAD still verifies: they are outside the AAD.
    assert_eq!(
        open(&b, &p, Opening::Network { key: &open_key() }).unwrap(),
        b"relayed"
    );
}

#[test]
fn epoch_and_counter_are_authenticated() {
    let a = Identity::from_seed([1u8; 32]);
    let b = Identity::from_seed([2u8; 32]);
    let wire = build(&a, &broadcast(b"x", &open_key())).unwrap();
    for offset in [8usize, 16] {
        let mut tampered = wire.clone();
        tampered[offset] ^= 0xff;
        let p = parse(&tampered).unwrap();
        assert!(
            open(&b, &p, Opening::Network { key: &open_key() }).is_err(),
            "flipping byte {offset} (epoch/counter) must fail AEAD"
        );
    }
}

#[test]
fn header_tampering_is_caught() {
    let a = Identity::from_seed([1u8; 32]);
    let b = Identity::from_seed([2u8; 32]);
    let wire = build(&a, &broadcast(b"x", &open_key())).unwrap();
    // Every authenticated header byte, one at a time. Only ttl/hops may
    // survive tampering; everything else must break the AEAD.
    for offset in 0..HEADER_LEN {
        if offset == 3 || offset == 4 {
            continue;
        }
        let mut tampered = wire.clone();
        tampered[offset] ^= 0xff;
        let broke = match parse(&tampered) {
            Err(_) => true, // structural rejection also counts
            Ok(p) => open(&b, &p, Opening::Network { key: &open_key() }).is_err(),
        };
        assert!(broke, "tampering with header byte {offset} went undetected");
    }
}

#[test]
fn beacon_carries_nickname_and_prekey_bundle() {
    let a = Identity::from_seed([1u8; 32]);
    let b = Identity::from_seed([2u8; 32]);
    let ring = PrekeyRing::new(0).unwrap();
    let bundle = ring.bundle(&a);
    let wire = build(
        &a,
        &Outgoing {
            recipient: crypto::BROADCAST_ID,
            msg_id: [1u8; 16],
            epoch: 1,
            counter: 0,
            ttl: 1,
            body: &bundle,
            nickname: "alice-with-a-very-long-name",
            kind: FrameKind::Beacon,
            sealing: Sealing::Network { key: &open_key() },
        },
    )
    .unwrap();
    let p = parse(&wire).unwrap();
    assert!(p.is_beacon());
    assert!(p.nickname.len() <= MAX_NICKNAME);
    assert!(p.nickname.starts_with("alice"));

    let body = open(&b, &p, Opening::Network { key: &open_key() }).unwrap();
    let peer_prekey = parse_bundle(&a.public_id(), &body).unwrap();
    assert_eq!(peer_prekey.public, ring.current().public);
}

#[test]
fn multibyte_nickname_truncates_on_a_char_boundary() {
    let a = Identity::from_seed([1u8; 32]);
    let long = "é".repeat(21); // 42 bytes; a 20-byte cut lands mid-codepoint
    let wire = build(
        &a,
        &Outgoing {
            recipient: crypto::BROADCAST_ID,
            msg_id: [1u8; 16],
            epoch: 1,
            counter: 0,
            ttl: 1,
            body: b"",
            nickname: &long,
            kind: FrameKind::Beacon,
            sealing: Sealing::Network { key: &open_key() },
        },
    )
    .unwrap();
    let p = parse(&wire).unwrap();
    assert_eq!(p.nickname, "é".repeat(10), "must not split a codepoint");
}

#[test]
fn truncated_and_garbage_input_is_rejected_not_panicking() {
    assert_eq!(parse(&[]).unwrap_err(), FrameError::TooShort);
    assert_eq!(parse(&[0u8; 50]).unwrap_err(), FrameError::TooShort);
    assert_eq!(parse(&[0u8; 200]).unwrap_err(), FrameError::BadMagic);
    let mut bad = vec![0u8; 200];
    bad[0] = MAGIC;
    bad[1] = 99;
    assert_eq!(parse(&bad).unwrap_err(), FrameError::UnsupportedVersion(99));
}

/// A frame claiming FLAG_FS but too short to hold the preamble must be
/// rejected structurally, before any offset arithmetic runs on it.
#[test]
fn a_truncated_fs_preamble_is_rejected() {
    let a = Identity::from_seed([1u8; 32]);
    let b = Identity::from_seed([2u8; 32]);
    // Directed, because an FS preamble on a broadcast is now refused for a
    // different reason and would not exercise the length check.
    let wire = build(&a, &directed(b.public_id(), b"x", Sealing::Static)).unwrap();
    let mut lying = wire[..HEADER_LEN + 4].to_vec();
    lying[2] |= FLAG_FS;
    assert_eq!(parse(&lying).unwrap_err(), FrameError::TooShort);
}

/// The v5 fix. Until then the nickname sat outside the AAD, so anyone in
/// radio range could rewrite the display name of a peer whose identity was
/// cryptographically verified, and the AEAD would still pass.
#[test]
fn the_nickname_is_authenticated() {
    let a = Identity::from_seed([1u8; 32]);
    let b = Identity::from_seed([2u8; 32]);
    let wire = build(
        &a,
        &Outgoing {
            recipient: crypto::BROADCAST_ID,
            msg_id: [1u8; 16],
            epoch: 1,
            counter: 0,
            ttl: 1,
            body: b"x",
            nickname: "alice",
            kind: FrameKind::Beacon,
            sealing: Sealing::Network { key: &open_key() },
        },
    )
    .unwrap();
    assert_eq!(parse(&wire).unwrap().nickname, "alice");

    // Same length, so nick_len in the authenticated header is untouched.
    for offset in 0..5 {
        let mut tampered = wire.clone();
        tampered[HEADER_LEN + offset] ^= 0x20;
        let p = parse(&tampered).unwrap();
        assert!(
            open(&b, &p, Opening::Network { key: &open_key() }).is_err(),
            "rewriting nickname byte {offset} went undetected"
        );
    }
}

/// A broadcast has no per-recipient exchange, so an FS preamble on one names
/// a key agreement that cannot exist. Accepting it let the frame report
/// `forwardSecret: true` while being opened with the channel key.
#[test]
fn a_forward_secret_preamble_on_a_broadcast_is_refused() {
    let a = Identity::from_seed([1u8; 32]);
    let wire = build(&a, &broadcast(b"x", &open_key())).unwrap();
    let mut lying = wire[..HEADER_LEN].to_vec();
    lying[2] |= FLAG_FS;
    lying.extend_from_slice(&[0u8; FS_PREAMBLE_LEN]);
    lying.extend_from_slice(&wire[HEADER_LEN..]);
    assert_eq!(
        parse(&lying).unwrap_err(),
        FrameError::PreambleKindMismatch,
        "a group-key broadcast must not be able to claim forward secrecy"
    );
}

/// The mirror: a sender chain is a broadcast construct, so an SK preamble on
/// a directed frame would be opened static-static while claiming FS.
#[test]
fn a_sender_key_preamble_on_a_directed_frame_is_refused() {
    let a = Identity::from_seed([1u8; 32]);
    let b = Identity::from_seed([2u8; 32]);
    let wire = build(&a, &directed(b.public_id(), b"x", Sealing::Static)).unwrap();
    let mut lying = wire[..HEADER_LEN].to_vec();
    lying[2] |= FLAG_SK;
    lying.extend_from_slice(&[0u8; SK_PREAMBLE_LEN]);
    lying.extend_from_slice(&wire[HEADER_LEN..]);
    assert_eq!(parse(&lying).unwrap_err(), FrameError::PreambleKindMismatch);
}

#[test]
fn older_wire_versions_are_rejected() {
    for old in [1u8, 2, 3, 4] {
        let mut v = vec![0u8; 200];
        v[0] = MAGIC;
        v[1] = old;
        assert_eq!(parse(&v).unwrap_err(), FrameError::UnsupportedVersion(old));
    }
}

/// The worst-case frame — forward secret, full nickname, max body — must
/// still fit the ceiling. If MAX_BODY drifts, this catches it here rather
/// than as a runtime build failure on a device.
#[test]
fn a_maximal_frame_fits_the_ceiling() {
    let a = Identity::from_seed([1u8; 32]);
    let b = Identity::from_seed([2u8; 32]);
    let ring = PrekeyRing::new(0).unwrap();
    let bundle = PeerPrekey {
        generation: ring.current().generation,
        public: ring.current().public,
    };
    let ephemeral = crypto::random_secret().unwrap();
    let body = vec![0xAAu8; MAX_BODY];
    let wire = build(
        &a,
        &Outgoing {
            recipient: b.public_id(),
            msg_id: [1u8; 16],
            epoch: 1,
            counter: 1,
            ttl: 4,
            body: &body,
            nickname: "12345678901234567890",
            kind: FrameKind::Message,
            sealing: Sealing::ForwardSecret {
                ephemeral: &ephemeral,
                prekey: &bundle,
            },
        },
    )
    .unwrap();
    assert!(
        wire.len() <= MAX_FRAME,
        "maximal frame is {} bytes",
        wire.len()
    );
    assert_eq!(wire.len(), MAX_FRAME);
}

/// A nickname that is not UTF-8 is refused, and so is a length that does not add up.
#[test]
fn a_frame_with_a_broken_nickname_or_length_is_refused() {
    let a = Identity::from_seed([1u8; 32]);
    let mut beacon = broadcast(b"x", &[0u8; 32]);
    beacon.nickname = "ada";
    let key = open_key();
    beacon.sealing = Sealing::Network { key: &key };
    let wire = build(&a, &beacon).unwrap();
    assert_eq!(parse(&wire).unwrap().nickname, "ada");

    let mut broken = wire.clone();
    broken[HEADER_LEN] = 0xFF;
    assert_eq!(parse(&broken).unwrap_err(), FrameError::BadNickname);

    let mut longer = wire.clone();
    longer.push(0);
    assert_eq!(parse(&longer).unwrap_err(), FrameError::LengthMismatch);
    assert_eq!(relay(&wire[..HEADER_LEN - 1]).unwrap_err(), FrameError::TooShort);
}

/// A relayed frame counts its hops, and stops at the ends of the range.
#[test]
fn relaying_counts_down_and_up() {
    let a = Identity::from_seed([1u8; 32]);
    let mut wire = build(&a, &broadcast(b"x", &open_key())).unwrap();
    assert_eq!((wire[3], wire[4]), (4, 0));
    let copy = relay(&wire).unwrap();
    assert_eq!((copy[3], copy[4]), (3, 1));
    wire[3] = 0;
    wire[4] = 255;
    let copy = relay(&wire).unwrap();
    assert_eq!((copy[3], copy[4]), (0, 255));
}

/// A frame says which key agreement it used, and is opened by no other.
#[test]
fn a_frame_opens_only_the_way_it_was_sealed() {
    let a = Identity::from_seed([1u8; 32]);
    let b = Identity::from_seed([2u8; 32]);
    let wire = build(&a, &directed(b.public_id(), b"hi", Sealing::Static)).unwrap();
    let parsed = parse(&wire).unwrap();
    assert!(parsed.fs.is_none() && parsed.sk.is_none());
    assert_eq!(open(&b, &parsed, Opening::Static).unwrap(), b"hi");
    assert!(open(&b, &parsed, Opening::Network { key: &open_key() }).is_err());
    let secret = crypto::random_secret().unwrap();
    assert_eq!(
        open(
            &b,
            &parsed,
            Opening::ForwardSecret {
                prekey_secret: &secret
            }
        )
        .unwrap_err(),
        meshcore::CoreError::Crypto("no FS preamble")
    );
}

/// `ttl` and `hops` belong to the relays: any values there open to the same body, and
/// a change of any other byte is caught.
#[test]
fn only_ttl_and_hops_may_change_on_the_way() {
    let a = Identity::from_seed([1u8; 32]);
    let b = Identity::from_seed([2u8; 32]);
    let wire = build(&a, &directed(b.public_id(), b"hi", Sealing::Static)).unwrap();
    for (ttl, hops) in [(0u8, 0u8), (1, 200), (255, 255)] {
        let mut copy = wire.clone();
        copy[3] = ttl;
        copy[4] = hops;
        let parsed = parse(&copy).unwrap();
        assert_eq!((parsed.ttl, parsed.hops), (ttl, hops));
        assert_eq!(open(&b, &parsed, Opening::Static).unwrap(), b"hi");
    }
    for at in (0..wire.len()).filter(|at| *at != 3 && *at != 4) {
        let mut copy = wire.clone();
        copy[at] ^= 1;
        let opened = parse(&copy)
            .ok()
            .and_then(|parsed| open(&b, &parsed, Opening::Static).ok());
        assert!(opened.is_none(), "byte {at} changed unnoticed");
    }
}
