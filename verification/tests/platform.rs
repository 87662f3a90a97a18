//! Settings, status codes, the peer table's wire format, the clock, and texts.
use meshcore::clock::clock_ms;
use meshcore::config::{id_of, DEFAULT_TTL};
use meshcore::crypto::OPEN_CHANNEL;
use meshcore::frame::FrameError;
use meshcore::peer::encode_peers;
use meshcore::senderkey;
use meshcore::status::{radio_answer, radio_status};
use meshcore::table::Table;
use meshcore::text::{decimal, hex, hex_prefix, signed_decimal};
use meshcore::{now_ms, Config, CoreError, MeshStatus, Peer};

#[test]
fn the_default_settings() {
    let config = Config::default();
    assert_eq!(config.nickname, "anon");
    assert_eq!(config.identity_seed, None);
    assert_eq!(config.channel_secret, b"meshcore/v4/open-channel");
    assert_eq!(config.ttl, 6);
    assert_eq!(config.epoch, None);
    assert_eq!(config.chain_rotate_ms, 60_000);
    let copy = config.clone();
    assert_eq!(copy.nickname, "anon");
    assert_eq!(copy.channel_secret, OPEN_CHANNEL);
}

#[test]
fn a_native_caller_may_leave_things_out() {
    let config = Config::from_native(None, None, None, 0);
    assert_eq!(config.nickname, "anon");
    assert_eq!(config.identity_seed, None);
    assert_eq!(config.channel_secret, OPEN_CHANNEL);
    assert_eq!(config.ttl, DEFAULT_TTL);
    assert_eq!(config.chain_rotate_ms, senderkey::ROTATE_INTERVAL_MS);

    let config = Config::from_native(Some(b"ada"), Some([7u8; 32]), Some(b"room"), 4);
    assert_eq!(config.nickname, "ada");
    assert_eq!(config.identity_seed, Some([7u8; 32]));
    assert_eq!(config.channel_secret, b"room");
    assert_eq!(config.ttl, 4);

    // An empty nickname is a nickname.
    assert_eq!(Config::from_native(Some(b""), None, None, 1).nickname, "");
}

#[test]
fn a_nickname_that_is_not_text_is_repaired() {
    let config = Config::from_native(Some(b"a\xffb"), None, None, 1);
    assert_eq!(config.nickname, "a\u{fffd}b");
    let config = Config::from_native(Some("löve".as_bytes()), None, None, 1);
    assert_eq!(config.nickname, "löve");
}

#[test]
fn a_java_caller_may_pass_odd_values() {
    let config = Config::from_java(None, None, 0);
    assert_eq!(config.nickname, "anon");
    assert_eq!(config.ttl, DEFAULT_TTL);
    let config = Config::from_java(Some("bob".to_string()), Some(&[9u8; 32]), 255);
    assert_eq!(config.nickname, "bob");
    assert_eq!(config.identity_seed, Some([9u8; 32]));
    assert_eq!(config.ttl, 255);
    assert_eq!(Config::from_java(None, Some(&[9u8; 31]), 256).ttl, 6);
    assert_eq!(
        Config::from_java(None, Some(&[9u8; 31]), -1).identity_seed,
        None
    );
}

#[test]
fn an_id_is_exactly_32_bytes() {
    assert_eq!(id_of(&[4u8; 32]), Some([4u8; 32]));
    assert_eq!(id_of(&[4u8; 31]), None);
    assert_eq!(id_of(&[4u8; 33]), None);
    assert_eq!(id_of(&[]), None);
}

#[test]
fn status_codes_are_those_of_the_abi() {
    let codes = [
        (MeshStatus::Success, 0),
        (MeshStatus::NullHandle, 1),
        (MeshStatus::InvalidArgument, 2),
        (MeshStatus::Crypto, 3),
        (MeshStatus::NotRunning, 4),
        (MeshStatus::UnknownPeer, 5),
        (MeshStatus::Radio, 6),
        (MeshStatus::Frame, 7),
        (MeshStatus::Panic, 255),
    ];
    for (status, code) in codes {
        assert_eq!(status.code(), code);
    }
}

#[test]
fn every_error_has_a_status_and_a_message() {
    let errors = [
        (
            CoreError::NotRunning,
            MeshStatus::NotRunning,
            "core is not broadcasting",
        ),
        (
            CoreError::InvalidArgument("empty body"),
            MeshStatus::InvalidArgument,
            "invalid argument: empty body",
        ),
        (
            CoreError::Crypto("seal"),
            MeshStatus::Crypto,
            "crypto failure: seal",
        ),
        (
            CoreError::UnknownPeer,
            MeshStatus::UnknownPeer,
            "unknown peer",
        ),
        (
            CoreError::Radio("off".to_string()),
            MeshStatus::Radio,
            "radio failure: off",
        ),
        (
            CoreError::from(FrameError::TooShort),
            MeshStatus::Frame,
            "frame error: TooShort",
        ),
    ];
    for (error, status, message) in errors {
        assert_eq!(error.message(), message);
        assert_eq!(MeshStatus::from(error), status);
    }
    assert_eq!(
        CoreError::Frame(FrameError::UnsupportedVersion(2)).message(),
        "frame error: UnsupportedVersion(2)"
    );
}

#[test]
fn a_radio_answers_with_a_code_or_a_yes() {
    assert_eq!(radio_status(0, "start_scanning"), Ok(()));
    assert_eq!(
        radio_status(-7, "start_scanning"),
        Err(CoreError::Radio("start_scanning returned -7".to_string()))
    );
    assert_eq!(
        radio_status(i32::MIN, "x"),
        Err(CoreError::Radio("x returned -2147483648".to_string()))
    );
    assert_eq!(radio_answer(true, "stopScanning"), Ok(()));
    assert_eq!(
        radio_answer(false, "stopScanning"),
        Err(CoreError::Radio("stopScanning returned false".to_string()))
    );
}

#[test]
fn the_peer_table_on_the_wire() {
    assert_eq!(encode_peers(&[]), vec![0, 0, 0, 0]);
    let peers = [
        Peer {
            id: [0xAA; 32],
            nickname: "ö".to_string(),
            rssi: -55,
            last_seen_ms: 0x0102_0304_0506_0708,
            hops: 2,
        },
        Peer {
            id: [0xBB; 32],
            nickname: String::new(),
            rssi: 1,
            last_seen_ms: 9,
            hops: 0,
        },
    ];
    let mut expected = vec![2, 0, 0, 0];
    expected.extend_from_slice(&[0xAA; 32]);
    expected.extend_from_slice(&[201, 2, 0, 0, 8, 7, 6, 5, 4, 3, 2, 1, 2, 0, 0, 0, 0xC3, 0xB6]);
    expected.extend_from_slice(&[0xBB; 32]);
    expected.extend_from_slice(&[1, 0, 0, 0, 9, 0, 0, 0, 0, 0, 0, 0, 0, 0, 0, 0]);
    assert_eq!(encode_peers(&peers), expected);
    assert_eq!(encode_peers(&[peers[0].clone(), peers[1].clone()]), expected);
}

#[test]
fn the_clock_counts_milliseconds() {
    assert_eq!(clock_ms(None), 0);
    assert_eq!(clock_ms(Some(1_700_000_000_123)), 1_700_000_000_123);
    assert_eq!(clock_ms(Some(1u128 << 64)), 0);
    assert_eq!(clock_ms(Some((1u128 << 64) + 5)), 5);

    let before = std::time::SystemTime::now()
        .duration_since(std::time::UNIX_EPOCH)
        .unwrap()
        .as_millis() as u64;
    let now = now_ms();
    assert!(now >= before && now < before + 60_000);
}

#[test]
fn numbers_as_text() {
    assert_eq!(decimal(0), "0");
    assert_eq!(decimal(7), "7");
    assert_eq!(decimal(u64::MAX), "18446744073709551615");
    assert_eq!(signed_decimal(-1), "-1");
    assert_eq!(signed_decimal(250), "250");
    assert_eq!(hex(0xBEEF, 4), "beef");
    assert_eq!(hex(0xBEEF, 6), "00beef");
    assert_eq!(hex(0xBEEF, 2), "ef");
    assert_eq!(hex_prefix(&[0x00, 0x9A, 0xFF], 2), "009a");
}

#[test]
fn a_table_holds_one_value_per_peer() {
    let mut table: Table<u32> = Table::new();
    assert!(table.get(&[1; 32]).is_none());
    table.insert([1; 32], 10);
    table.insert([2; 32], 20);
    table.insert([1; 32], 11);
    assert_eq!(table.get(&[1; 32]), Some(&11));
    assert_eq!(table.get(&[2; 32]), Some(&20));
    assert!(table.contains(&[2; 32]));
    assert!(!table.contains(&[3; 32]));
}
