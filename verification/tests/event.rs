//! Event layout.
use meshcore::event::{Event, EventKind, ReceivedMessage, KIND_MESSAGE_RECEIVED};

#[test]
fn message_received_layout_is_stable() {
    let ev = Event::message_received(42, [9u8; 32], [1u8; 16], 5, 2, -60, b"body".to_vec());
    let w = ev.to_wire();

    assert_eq!(w[0], meshcore::ABI_VERSION as u8);
    assert_eq!(w[1], KIND_MESSAGE_RECEIVED);
    assert_eq!(u32::from_le_bytes(w[4..8].try_into().unwrap()), 42);
    assert_eq!(&w[16..48], &[9u8; 32]);
    assert_eq!(&w[48..64], &[1u8; 16]);
    assert_eq!(w[64], 5); // ttl
    assert_eq!(w[65], 2); // hops
    assert_eq!(w[66] as i8, -60); // rssi
    assert_eq!(u32::from_le_bytes(w[68..72].try_into().unwrap()), 4);
    assert_eq!(&w[72..76], b"body");
    assert_eq!(w.len(), 76);
}

#[test]
fn to_wire_does_not_reallocate() {
    // If this ever fires, the capacity hints above drifted from the writer
    // and every event costs an extra memcpy on the hot path.
    for ev in [
        Event::peer_discovered(1, [0u8; 32], "bob", -40, 1),
        Event::peer_lost(2, [0u8; 32]),
        Event::message_received(3, [0u8; 32], [0u8; 16], 4, 0, -50, vec![0; 200]),
        Event::message_delivered(4, [0u8; 16], true),
        Event::transport_state(5, true),
        Event::error(6, "boom"),
    ] {
        let w = ev.to_wire();
        assert!(
            w.capacity() >= w.len(),
            "capacity hint too small for {:?}",
            ev.kind_tag()
        );
    }
}

/// The bytes behind the header.
fn body(event: &Event) -> Vec<u8> {
    event.to_wire()[16..].to_vec()
}

#[test]
fn every_kind_has_its_layout() {
    let at = |kind| Event::at(0x0102_0304, 0x1122_3344_5566_7788, kind);
    let header = at(EventKind::TransportState { running: true }).to_wire();
    assert_eq!(
        header,
        vec![
            3, 5, 0, 0, 4, 3, 2, 1, 0x88, 0x77, 0x66, 0x55, 0x44, 0x33, 0x22, 0x11, 1,
            0, 0, 0
        ]
    );

    let discovered = body(&Event::peer_discovered(1, [7u8; 32], "ö", -1, 9));
    assert_eq!(&discovered[..32], &[7u8; 32]);
    assert_eq!(&discovered[32..], &[255, 9, 2, 0, 0, 0, 0xC3, 0xB6]);

    assert_eq!(body(&Event::peer_lost(1, [8u8; 32])), vec![8u8; 32]);

    let delivered = body(&Event::message_delivered(1, [9u8; 16], false));
    assert_eq!(&delivered[..16], &[9u8; 16]);
    assert_eq!(&delivered[16..], &[0, 0, 0, 0]);

    let expired = body(&Event::message_expired(1, [9u8; 16], "no ack"));
    assert_eq!(&expired[..16], &[9u8; 16]);
    assert_eq!(&expired[16..], b"\x06\0\0\0no ack");

    assert_eq!(body(&Event::error(1, "boom")), b"\x04\0\0\0boom");
}

#[test]
fn kinds_are_numbered() {
    let tags: Vec<u8> = [
        Event::peer_discovered(1, [0u8; 32], "", 0, 0),
        Event::peer_lost(1, [0u8; 32]),
        Event::message_received(1, [0u8; 32], [0u8; 16], 1, 0, 0, Vec::new()),
        Event::message_delivered(1, [0u8; 16], true),
        Event::transport_state(1, false),
        Event::error(1, ""),
        Event::message_expired(1, [0u8; 16], ""),
    ]
    .iter()
    .map(|e| e.kind_tag())
    .collect();
    assert_eq!(tags, vec![1, 2, 3, 4, 5, 6, 7]);
}

/// Two events that differ only in the forward-secrecy flag differ on the wire, in
/// that one byte.
#[test]
fn the_forward_secrecy_flag_is_on_the_wire() {
    let message = |forward_secret| {
        Event::received(
            1,
            ReceivedMessage {
                sender: [1u8; 32],
                msg_id: [2u8; 16],
                ttl: 3,
                hops: 4,
                rssi: -5,
                forward_secret,
                body: b"x".to_vec(),
            },
        )
    };
    let (plain, secret) = (message(false), message(true));
    assert_eq!(plain.clone().to_wire(), plain.to_wire());
    assert_eq!(plain.to_wire()[67], 0);
    assert_eq!(secret.to_wire()[67], 1);
}
