//! Whole nodes, talking over an air that the test controls.
use meshcore::crypto::{self, Identity, PeerId};
use meshcore::event::{
    KIND_ERROR, KIND_MESSAGE_DELIVERED, KIND_MESSAGE_EXPIRED, KIND_MESSAGE_RECEIVED,
    KIND_PEER_DISCOVERED, KIND_PEER_LOST, KIND_TRANSPORT_STATE,
};
use meshcore::frame::{self, FrameKind, Outgoing, Sealing};
use meshcore::outbox;
use meshcore::prekey::{self, PrekeyRing};
use meshcore::protocol::{
    BEACON_INTERVAL_MS, DEDUP_CAPACITY, INBOX_CAPACITY, PEER_TTL_MS, TICK_MS,
};
use meshcore::senderkey;
use meshcore::worker::{after_direct, Action, Command, Drawn, Worker};
use meshcore::{Config, CoreError, Event, EventKind};

/// A node with a radio that records, and a sink that collects.
struct Node {
    core: Worker,
    now: u64,
    /// Everything put on the air since the last drain.
    air: Vec<Vec<u8>>,
    /// Whether connections to peers work.
    direct_ok: bool,
    /// What the radio answers.
    radio: Result<(), CoreError>,
    events: Vec<Event>,
}

fn config(nickname: &str, seed: u8) -> Config {
    Config {
        nickname: nickname.to_string(),
        identity_seed: Some([seed; 32]),
        channel_secret: crypto::OPEN_CHANNEL.to_vec(),
        ttl: 4,
        epoch: Some(1),
        chain_rotate_ms: senderkey::ROTATE_INTERVAL_MS,
    }
}

fn node_of(config: Config) -> Node {
    let now = 1_000_000;
    Node {
        core: Worker::new(config, now).unwrap(),
        now,
        air: Vec::new(),
        direct_ok: false,
        radio: Ok(()),
        events: Vec::new(),
    }
}

fn node(nickname: &str, seed: u8) -> Node {
    node_of(config(nickname, seed))
}

impl Node {
    /// Perform actions in order, each with what follows from its outcome.
    fn perform(&mut self, actions: Vec<Action>) {
        for action in actions {
            let next = match action {
                Action::StartScanning => self.core.scanning_started(self.radio.clone(), self.now),
                Action::StopAdvertising => {
                    self.core.advertising_stopped(self.radio.clone(), self.now)
                }
                Action::StopScanning => self.core.scanning_stopped(self.radio.clone(), self.now),
                Action::Beacon { wire, starting } => {
                    if self.radio.is_ok() {
                        self.air.push(wire);
                    }
                    self.core.beacon_sent(self.radio.clone(), starting, self.now)
                }
                Action::Flood { wire } => {
                    self.air.push(wire);
                    Vec::new()
                }
                Action::Direct { peer: _, wire } => {
                    if self.direct_ok {
                        self.air.push(wire.clone());
                    }
                    after_direct(self.direct_ok, wire).into_iter().collect()
                }
                Action::Emit(event) => {
                    self.events.push(event);
                    Vec::new()
                }
            };
            self.perform(next);
        }
    }

    fn tick(&mut self) {
        assert!(self.core.ready_for(self.now));
        let actions = self.core.tick(self.now);
        self.perform(actions);
    }

    fn command(&mut self, command: Command) {
        assert!(self.core.ready_for(self.now));
        let actions = self.core.handle(command, self.now);
        self.perform(actions);
        self.tick();
    }

    fn start(&mut self) {
        self.command(Command::Start);
    }

    fn stop(&mut self) {
        self.command(Command::Stop);
    }

    fn send(&mut self, to: Option<PeerId>, body: &[u8]) -> [u8; 16] {
        let (command, msg_id) = Command::composing(to, body).unwrap();
        self.command(command);
        msg_id
    }

    fn ingest(&mut self, rssi: i8, wire: &[u8]) {
        self.command(Command::ingesting(rssi, wire).unwrap());
    }

    /// Let time pass, with a tick at the usual cadence.
    fn wait(&mut self, ms: u64) {
        let until = self.now + ms;
        while self.now + TICK_MS <= until {
            self.now += TICK_MS;
            self.tick();
        }
        self.now = until;
    }

    fn drain(&mut self) -> Vec<Vec<u8>> {
        std::mem::take(&mut self.air)
    }

    /// The frames of one kind put on the air since the last drain.
    fn drain_kind(&mut self, kind: FrameKind) -> Vec<Vec<u8>> {
        self.drain()
            .into_iter()
            .filter(|w| frame::parse(w).map(|p| p.kind == kind).unwrap_or(false))
            .collect()
    }

    fn count(&self, tag: u8) -> usize {
        self.events.iter().filter(|e| e.kind_tag() == tag).count()
    }

    fn bodies(&self) -> Vec<Vec<u8>> {
        self.events
            .iter()
            .filter_map(|e| match &e.kind {
                EventKind::MessageReceived { body, .. } => Some(body.clone()),
                _ => None,
            })
            .collect()
    }

    /// Forward-secrecy flag of each received message, in arrival order.
    fn fs_flags(&self) -> Vec<bool> {
        self.events
            .iter()
            .filter_map(|e| match &e.kind {
                EventKind::MessageReceived { forward_secret, .. } => Some(*forward_secret),
                _ => None,
            })
            .collect()
    }

    fn errors(&self) -> Vec<String> {
        self.events
            .iter()
            .filter_map(|e| match &e.kind {
                EventKind::Error { message } => Some(message.clone()),
                _ => None,
            })
            .collect()
    }
}

/// Hand everything `from` put on the air to `to`, as a radio would.
fn deliver(from: &mut Node, to: &mut Node) {
    for wire in from.drain() {
        to.ingest(-55, &wire);
    }
}

/// Let two nodes see each other's beacons, and hand each other their chains.
fn introduce(a: &mut Node, b: &mut Node) {
    a.start();
    b.start();
    for _ in 0..3 {
        deliver(a, b);
        deliver(b, a);
    }
    a.drain();
    b.drain();
}

#[test]
fn roundtrip_broadcast_between_two_cores() {
    let mut a = node("alice", 1);
    let mut b = node("bob", 2);
    a.start();
    b.start();

    a.send(None, b"hello mesh");
    deliver(&mut a, &mut b);

    assert_eq!(b.bodies(), vec![b"hello mesh".to_vec()]);
    assert!(b.count(KIND_PEER_DISCOVERED) >= 1, "B should discover A");
}

#[test]
fn duplicate_frames_are_suppressed() {
    let mut a = node("alice", 1);
    a.start();

    let sender = Identity::from_seed([9u8; 32]);
    let wire = frame::build(
        &sender,
        &Outgoing {
            recipient: crypto::BROADCAST_ID,
            msg_id: [7u8; 16],
            epoch: 1,
            counter: 0,
            ttl: 4,
            body: b"dup",
            nickname: "",
            kind: FrameKind::Message,
            sealing: Sealing::Network {
                key: &crypto::network_key(crypto::OPEN_CHANNEL),
            },
        },
    )
    .unwrap();

    for _ in 0..5 {
        a.ingest(-40, &wire);
    }
    assert_eq!(a.count(KIND_MESSAGE_RECEIVED), 1);
}

/// The ids seen catch identical frames; this catches the same *content* sealed
/// again under a fresh id, which they cannot see.
#[test]
fn a_replayed_counter_is_rejected_even_with_a_fresh_msg_id() {
    let mut a = node("alice", 1);
    a.start();

    let sender = Identity::from_seed([9u8; 32]);
    let build = |msg_id: [u8; 16], counter: u64| {
        frame::build(
            &sender,
            &Outgoing {
                recipient: crypto::BROADCAST_ID,
                msg_id,
                epoch: 5,
                counter,
                ttl: 4,
                body: b"transfer $100",
                nickname: "",
                kind: FrameKind::Message,
                sealing: Sealing::Network {
                    key: &crypto::network_key(crypto::OPEN_CHANNEL),
                },
            },
        )
        .unwrap()
    };

    a.ingest(-40, &build([1u8; 16], 0));
    a.ingest(-40, &build([2u8; 16], 1));
    assert_eq!(a.count(KIND_MESSAGE_RECEIVED), 2);

    // Same counters, different ids: the ids seen show nothing wrong, the replay
    // window does.
    a.ingest(-40, &build([3u8; 16], 0));
    a.ingest(-40, &build([4u8; 16], 1));
    assert_eq!(
        a.count(KIND_MESSAGE_RECEIVED),
        2,
        "replayed counters must not be delivered"
    );
}

#[test]
fn a_directed_message_is_acked_and_leaves_the_outbox() {
    let mut a = node("alice", 1);
    let mut b = node("bob", 2);
    a.start();
    b.start();

    // Let them see each other first.
    deliver(&mut a, &mut b);
    deliver(&mut b, &mut a);

    let msg_id = a.send(Some(b.core.public_key()), b"private");
    assert_eq!(a.core.outbox_len(), 1, "directed message waits for an ack");

    deliver(&mut a, &mut b);
    assert_eq!(b.bodies(), vec![b"private".to_vec()]);

    // B's ack travels back.
    deliver(&mut b, &mut a);
    assert_eq!(a.core.outbox_len(), 0, "ack must clear the outbox");

    let delivered_direct = a.events.iter().any(|e| {
        matches!(&e.kind, EventKind::MessageDelivered { msg_id: m, direct: true }
                          if *m == msg_id)
    });
    assert!(delivered_direct, "an acked message reports direct delivery");
}

/// Every member of the channel sees a message's id go by. Only the recipient can say
/// that it arrived.
#[test]
fn an_ack_from_anyone_but_the_recipient_is_ignored() {
    let mut a = node("alice", 1);
    let b = node("bob", 2);
    a.start();
    let msg_id = a.send(Some(b.core.public_key()), b"private");
    a.drain();

    let ack = |from: &Identity, ack_id: [u8; 16], counter: u64| {
        frame::build(
            from,
            &Outgoing {
                recipient: Identity::from_seed([1u8; 32]).public_id(),
                msg_id: ack_id,
                epoch: 1,
                counter,
                ttl: 4,
                body: &msg_id,
                nickname: "",
                kind: FrameKind::Ack,
                sealing: Sealing::Static,
            },
        )
        .unwrap()
    };

    // Once from a stranger, and once more now that it is a known peer.
    let mallory = Identity::from_seed([66u8; 32]);
    a.ingest(-40, &ack(&mallory, [91u8; 16], 0));
    a.ingest(-40, &ack(&mallory, [92u8; 16], 1));
    assert_eq!(a.core.outbox_len(), 1, "the message still waits for its ack");
    assert_eq!(a.count(KIND_MESSAGE_DELIVERED), 0);
    assert!(a.errors().is_empty());

    let bob = Identity::from_seed([2u8; 32]);
    assert_eq!(bob.public_id(), b.core.public_key());
    a.ingest(-40, &ack(&bob, [93u8; 16], 0));
    assert_eq!(a.core.outbox_len(), 0);
    assert_eq!(a.count(KIND_MESSAGE_DELIVERED), 1);
}

#[test]
fn a_broadcast_is_reported_delivered_without_an_ack() {
    let mut a = node("alice", 1);
    a.start();
    a.send(None, b"to everyone");

    assert_eq!(a.core.outbox_len(), 0, "broadcasts are not retried");
    assert_eq!(a.count(KIND_MESSAGE_DELIVERED), 1);
}

#[test]
fn an_unacked_message_is_retried() {
    let mut a = node("alice", 1);
    let b = node("bob", 2);
    a.start();

    a.send(Some(b.core.public_key()), b"are you there");
    a.drain(); // discard the first transmission

    // Wait past the first backoff and confirm the frame goes out again.
    a.wait(outbox::BASE_BACKOFF_MS + 400);
    let retried = a.drain_kind(FrameKind::Message);
    assert!(
        !retried.is_empty(),
        "an unacked directed message must be retried"
    );
    assert_eq!(a.core.outbox_len(), 1);
}

/// Retries must reuse the original bytes. Sealing again would burn a counter per
/// attempt and punch holes in the recipient's replay window.
#[test]
fn retries_reuse_the_original_frame() {
    let mut a = node("alice", 1);
    let b = node("bob", 2);
    a.start();

    a.send(Some(b.core.public_key()), b"same bytes");
    let first = a.drain_kind(FrameKind::Message);

    a.wait(outbox::BASE_BACKOFF_MS + 400);
    let second = a.drain_kind(FrameKind::Message);

    assert_eq!(
        first.first(),
        second.first(),
        "retry must be byte-identical"
    );
    assert!(first.first().is_some());
}

/// End to end: once B's beacon has taught A its prekey, A's directed messages are
/// forward secret and B says so.
#[test]
fn directed_messages_become_forward_secret_once_the_prekey_is_known() {
    let mut a = node("alice", 1);
    let mut b = node("bob", 2);
    a.start();
    b.start();

    // B's beacon carries its signed prekey bundle.
    deliver(&mut b, &mut a);

    a.send(Some(b.core.public_key()), b"forward secret");
    deliver(&mut a, &mut b);

    assert_eq!(b.bodies(), vec![b"forward secret".to_vec()]);
    assert_eq!(
        b.fs_flags(),
        vec![true],
        "should have used the prekey path"
    );
}

/// And when it has not, the message still gets through, but is reported honestly as
/// not forward secret.
#[test]
fn a_message_to_an_unseen_peer_falls_back_and_admits_it() {
    let mut a = node("alice", 1);
    let mut b = node("bob", 2);
    a.start();
    b.start();

    // Deliberately do NOT give A B's beacon: A has no prekey for B.
    b.drain();

    a.send(Some(b.core.public_key()), b"no prekey yet");
    deliver(&mut a, &mut b);

    assert_eq!(b.bodies(), vec![b"no prekey yet".to_vec()]);
    assert_eq!(b.fs_flags(), vec![false], "fallback must not claim FS");
}

/// A broadcast under the channel key is readable by every member; the flag has to
/// reflect that rather than defaulting to true.
#[test]
fn broadcasts_are_never_marked_forward_secret() {
    let mut a = node("alice", 1);
    let mut b = node("bob", 2);
    a.start();
    b.start();

    a.send(None, b"everyone");
    deliver(&mut a, &mut b);

    assert_eq!(b.fs_flags(), vec![false]);
}

/// A peer that impersonates another in a beacon must not be able to install a
/// prekey under the victim's id: otherwise directed mail to the victim would be
/// sealed to a key the attacker holds.
#[test]
fn a_forged_prekey_bundle_is_not_installed() {
    let mut a = node("alice", 1);
    a.start();

    let victim = Identity::from_seed([42u8; 32]);
    let attacker_ring = PrekeyRing::new(0).unwrap();
    let attacker = Identity::from_seed([43u8; 32]);

    // A beacon that *claims* to be from the victim, but whose bundle is signed by
    // the attacker. It is sealed with the channel key, which the attacker
    // legitimately holds.
    let forged_bundle = attacker_ring.bundle(&attacker);
    let wire = frame::build(
        &victim,
        &Outgoing {
            recipient: crypto::BROADCAST_ID,
            msg_id: [77u8; 16],
            epoch: 9,
            counter: 0,
            ttl: 1,
            body: &forged_bundle,
            nickname: "victim",
            kind: FrameKind::Beacon,
            sealing: Sealing::Network {
                key: &crypto::network_key(crypto::OPEN_CHANNEL),
            },
        },
    )
    .unwrap();

    a.ingest(-40, &wire);
    a.drain();

    // A now sends to the victim. If the forged prekey had been installed, the frame
    // would be forward secret, and readable by the attacker.
    a.send(Some(victim.public_id()), b"secret");

    let sent_fs = a
        .drain()
        .into_iter()
        .filter_map(|w| frame::parse(&w).ok().map(|p| p.is_forward_secret()))
        .any(|fs| fs);
    assert!(
        !sent_fs,
        "a forged bundle must not be used to seal anything"
    );
}

#[test]
fn a_relay_carries_a_frame_it_cannot_read() {
    let mut a = node("alice", 1);
    let mut relay = node("relay", 2);
    let mut c = node("carol", 3);
    a.start();
    relay.start();
    c.start();

    // A sends to C, who is not in range. Only the relay hears it.
    a.send(Some(c.core.public_key()), b"two hops");
    deliver(&mut a, &mut relay);

    // The relay cannot decrypt it...
    assert!(relay.bodies().is_empty(), "relay must not read the payload");
    // ...but it floods it again, and C can.
    deliver(&mut relay, &mut c);
    assert_eq!(c.bodies(), vec![b"two hops".to_vec()]);
}

#[test]
fn our_own_reflooded_frame_is_ignored() {
    let mut a = node("alice", 1);
    a.start();
    a.send(None, b"echo");

    // Feed A's own traffic straight back, as a neighbour's relay would.
    for wire in a.drain() {
        a.ingest(-30, &wire);
    }
    assert_eq!(a.count(KIND_MESSAGE_RECEIVED), 0);
}

#[test]
fn a_peer_walking_into_range_flushes_the_queue_immediately() {
    let mut a = node("alice", 1);
    let mut b = node("bob", 2);
    a.start();

    // B is not visible yet, so this queues.
    a.send(Some(b.core.public_key()), b"waiting for you");
    assert_eq!(a.core.outbox_len(), 1);
    a.drain();

    // B appears. Its beacon triggers a flush at once, well inside the backoff.
    b.start();
    deliver(&mut b, &mut a);

    let resent = a.drain_kind(FrameKind::Message);
    assert!(
        !resent.is_empty(),
        "discovering the recipient must flush the queue"
    );
}

/// What is due for other peers goes out in the same flush, and costs them no attempt.
#[test]
fn discovering_one_peer_spends_no_retry_of_another() {
    let mut a = node("alice", 1);
    let b = node("bob", 2);
    let mut c = node("carol", 3);
    a.start();
    a.send(Some(b.core.public_key()), b"for bob");
    a.wait(600);
    a.send(Some(c.core.public_key()), b"for carol");
    a.drain();

    // Bob's retry is due by now, and no tick has come to take it. Carol appears.
    a.now += 400;
    c.start();
    for beacon in c.drain() {
        let out = a
            .core
            .handle(Command::ingesting(-50, &beacon).unwrap(), a.now);
        a.perform(out);
    }
    let mut recipients: Vec<PeerId> = a
        .drain_kind(FrameKind::Message)
        .iter()
        .map(|w| frame::parse(w).unwrap().recipient)
        .collect();
    let mut expected = vec![b.core.public_key(), c.core.public_key()];
    recipients.sort();
    expected.sort();
    assert_eq!(recipients, expected);
}

/// A beacon is good for the neighbours whether or not its sender could be handed the
/// chain, and the chain goes out with the next one.
#[test]
fn a_beacon_is_passed_on_though_the_chain_could_not_be_shared() {
    let mut a = node("alice", 1);
    a.start();
    a.drain();

    let bob = Identity::from_seed([2u8; 32]);
    let ring = PrekeyRing::new(0).unwrap();
    let bundle = ring.bundle(&bob);
    let beacon = |msg_id: [u8; 16], counter: u64| {
        frame::build(
            &bob,
            &Outgoing {
                recipient: crypto::BROADCAST_ID,
                msg_id,
                epoch: 1,
                counter,
                ttl: 3,
                body: &bundle,
                nickname: "bob",
                kind: FrameKind::Beacon,
                sealing: Sealing::Network {
                    key: &crypto::network_key(crypto::OPEN_CHANNEL),
                },
            },
        )
        .unwrap()
    };

    let first = beacon([81u8; 16], 0);
    let out = a.core.handle_with(
        Command::ingesting(-50, &first).unwrap(),
        a.now,
        &Drawn::nothing(),
    );
    a.perform(out);
    assert_eq!(a.drain(), vec![frame::relay(&first).unwrap()]);
    assert!(a.errors().is_empty(), "a good beacon is no error");
    assert_eq!(a.count(KIND_PEER_DISCOVERED), 1);
    assert_eq!(a.core.outbox_len(), 0);

    a.ingest(-50, &beacon([82u8; 16], 1));
    let shared = a.drain_kind(FrameKind::SenderKey);
    assert_eq!(shared.len(), 1, "the chain is offered again");
    assert_eq!(
        frame::parse(&shared[0]).unwrap().recipient,
        bob.public_id()
    );
}

// --- Sender chains ------------------------------------------------------------

#[test]
fn broadcasts_become_forward_secret_once_a_peer_holds_the_chain() {
    let mut a = node("alice", 1);
    let mut b = node("bob", 2);
    introduce(&mut a, &mut b);

    a.send(None, b"on the chain");
    deliver(&mut a, &mut b);

    assert_eq!(b.bodies(), vec![b"on the chain".to_vec()]);
    assert_eq!(b.fs_flags(), vec![true]);
}

#[test]
fn a_chain_key_is_never_broadcast() {
    let mut a = node("alice", 1);
    let mut b = node("bob", 2);
    a.start();
    b.start();
    let mut handed_over = 0;
    for _ in 0..3 {
        for wire in b.drain() {
            a.ingest(-55, &wire);
        }
        for wire in a.drain() {
            let parsed = frame::parse(&wire).unwrap();
            if parsed.kind == FrameKind::SenderKey {
                handed_over += 1;
                assert_eq!(parsed.recipient, b.core.public_key());
                assert!(parsed.is_forward_secret());
            }
            b.ingest(-55, &wire);
        }
    }
    assert!(handed_over > 0, "the chain must have been handed over");
}

#[test]
fn a_peer_without_the_chain_cannot_read_a_ratcheted_broadcast() {
    let mut a = node("alice", 1);
    let mut b = node("bob", 2);
    let mut c = node("carol", 3);
    introduce(&mut a, &mut b);
    c.start();

    a.send(None, b"members only");
    let wires = a.drain();
    for wire in &wires {
        b.ingest(-55, wire);
        c.ingest(-55, wire);
    }
    assert_eq!(b.bodies(), vec![b"members only".to_vec()]);
    assert!(c.bodies().is_empty());
    assert_eq!(c.count(KIND_ERROR), 0, "other people's traffic is no error");
}

#[test]
fn reordered_ratcheted_broadcasts_all_decode() {
    let mut a = node("alice", 1);
    let mut b = node("bob", 2);
    introduce(&mut a, &mut b);

    for body in [b"one".as_slice(), b"two", b"three"] {
        a.send(None, body);
    }
    let mut wires = a.drain_kind(FrameKind::Message);
    assert_eq!(wires.len(), 3);
    wires.reverse();
    for wire in &wires {
        b.ingest(-55, wire);
    }
    assert_eq!(
        b.bodies(),
        vec![b"three".to_vec(), b"two".to_vec(), b"one".to_vec()]
    );
    assert_eq!(b.fs_flags(), vec![true, true, true]);
}

/// The chain that each broadcast on the air names.
fn chain_ids(wires: &[Vec<u8>]) -> Vec<u32> {
    wires
        .iter()
        .filter_map(|w| frame::parse(w).unwrap().sk.map(|sk| sk.chain_id))
        .collect()
}

#[test]
fn the_sender_chain_rotates_and_peers_keep_reading() {
    let mut a = node("alice", 1);
    let mut b = node("bob", 2);
    introduce(&mut a, &mut b);

    a.send(None, b"before");
    let before = a.drain();
    for wire in &before {
        b.ingest(-55, wire);
    }

    // Both sides keep hearing each other while the interval runs out.
    for _ in 0..(senderkey::ROTATE_INTERVAL_MS / 2_000 + 2) {
        a.wait(2_000);
        b.wait(2_000);
        deliver(&mut a, &mut b);
        deliver(&mut b, &mut a);
    }
    a.drain();
    b.drain();

    a.send(None, b"after");
    let after = a.drain();
    for wire in &after {
        b.ingest(-55, wire);
    }

    assert_eq!(b.bodies(), vec![b"before".to_vec(), b"after".to_vec()]);
    assert_eq!(b.fs_flags(), vec![true, true], "no broadcast is downgraded");
    assert_ne!(chain_ids(&before), chain_ids(&after));
    assert_eq!(chain_ids(&after).len(), 1);
}

#[test]
fn a_dropped_sender_key_distribution_is_retried() {
    let mut a = node("alice", 1);
    let mut b = node("bob", 2);
    a.start();
    b.start();

    // A meets B, but the air swallows the distribution.
    deliver(&mut b, &mut a);
    let lost = a.drain_kind(FrameKind::SenderKey);
    assert_eq!(lost.len(), 1);

    // It goes out again on its own.
    a.wait(outbox::BASE_BACKOFF_MS + 400);
    let again = a.drain_kind(FrameKind::SenderKey);
    assert_eq!(again.first(), lost.first());
    for wire in &again {
        b.ingest(-55, wire);
    }
    a.send(None, b"readable now");
    deliver(&mut a, &mut b);
    assert_eq!(b.bodies(), vec![b"readable now".to_vec()]);
    assert_eq!(b.fs_flags(), vec![true]);
}

#[test]
fn distributions_stay_invisible_to_the_user() {
    let mut a = node("alice", 1);
    let mut b = node("bob", 2);
    a.start();
    b.start();
    deliver(&mut b, &mut a);
    assert_eq!(a.core.outbox_len(), 0, "nobody waits for housekeeping");

    // Neither its delivery...
    deliver(&mut a, &mut b);
    deliver(&mut b, &mut a);
    assert_eq!(a.count(KIND_MESSAGE_DELIVERED), 0);

    // ...nor its expiry is reported.
    let mut c = node("carol", 3);
    c.start();
    deliver(&mut c, &mut a);
    a.wait(outbox::DEADLINE_MS + 1_000);
    assert_eq!(a.count(KIND_MESSAGE_EXPIRED), 0);
}

// --- Carrying -----------------------------------------------------------------

#[test]
fn a_relay_carries_a_frame_to_a_peer_that_only_arrives_later() {
    let mut a = node("alice", 1);
    let mut relay = node("relay", 2);
    let mut c = node("carol", 3);
    a.start();
    relay.start();

    a.send(Some(c.core.public_key()), b"for later");
    deliver(&mut a, &mut relay);
    assert_eq!(relay.core.carried_len(), 1);
    relay.drain(); // nobody heard the flood

    c.start();
    deliver(&mut c, &mut relay);
    assert_eq!(relay.core.carried_len(), 0, "hand-off is destructive");
    deliver(&mut relay, &mut c);
    assert_eq!(c.bodies(), vec![b"for later".to_vec()]);
}

#[test]
fn a_frame_for_a_visible_peer_is_not_carried() {
    let mut a = node("alice", 1);
    let mut relay = node("relay", 2);
    let mut c = node("carol", 3);
    a.start();
    relay.start();
    c.start();
    deliver(&mut c, &mut relay);

    a.send(Some(c.core.public_key()), b"right there");
    for wire in a.drain_kind(FrameKind::Message) {
        relay.ingest(-55, &wire);
    }
    assert_eq!(relay.core.carried_len(), 0);
    assert!(!relay.drain_kind(FrameKind::Message).is_empty());
}

#[test]
fn a_frame_for_an_unseen_peer_is_carried() {
    let mut a = node("alice", 1);
    let mut relay = node("relay", 2);
    let c = node("carol", 3);
    a.start();
    relay.start();

    a.send(Some(c.core.public_key()), b"not in sight");
    a.send(None, b"a broadcast is not carried");
    a.send(Some(relay.core.public_key()), b"nor is our own mail");
    deliver(&mut a, &mut relay);
    assert_eq!(relay.core.carried_len(), 1);
}

// --- Receipts -----------------------------------------------------------------

#[test]
fn a_message_nobody_acks_is_reported_expired_once() {
    let mut a = node("alice", 1);
    let b = node("bob", 2);
    a.start();
    let msg_id = a.send(Some(b.core.public_key()), b"into the void");
    a.wait(outbox::DEADLINE_MS + 1_000);

    let expired: Vec<_> = a
        .events
        .iter()
        .filter_map(|e| match &e.kind {
            EventKind::MessageExpired { msg_id, reason } => Some((*msg_id, reason.clone())),
            _ => None,
        })
        .collect();
    assert_eq!(expired, vec![(msg_id, "no ack".to_string())]);
    assert_eq!(a.core.outbox_len(), 0);
}

#[test]
fn a_full_outbox_reports_what_it_drops() {
    let mut a = node("alice", 1);
    let b = node("bob", 2);
    a.start();
    let first = a.send(Some(b.core.public_key()), b"oldest");
    for _ in 0..outbox::CAPACITY {
        a.send(Some(b.core.public_key()), b"more");
    }
    assert_eq!(a.core.outbox_len(), outbox::CAPACITY);
    let dropped: Vec<_> = a
        .events
        .iter()
        .filter_map(|e| match &e.kind {
            EventKind::MessageExpired { msg_id, reason } => Some((*msg_id, reason.clone())),
            _ => None,
        })
        .collect();
    assert_eq!(dropped, vec![(first, "outbox full".to_string())]);
}

// --- The edges ----------------------------------------------------------------

#[test]
fn starting_and_stopping_report_the_transport_state() {
    let mut a = node("alice", 1);
    assert!(!a.core.is_running());
    a.start();
    assert!(a.core.is_running());
    let beacons = a.drain_kind(FrameKind::Beacon);
    assert_eq!(beacons.len(), 1, "starting announces us, once");
    let beacon = frame::parse(&beacons[0]).unwrap();
    assert_eq!(beacon.nickname, "alice");
    assert_eq!(beacon.ttl, 1);
    assert_eq!((beacon.epoch, beacon.counter), (1, 0));
    a.stop();
    assert!(!a.core.is_running());
    let states: Vec<bool> = a
        .events
        .iter()
        .filter_map(|e| match &e.kind {
            EventKind::TransportState { running } => Some(*running),
            _ => None,
        })
        .collect();
    assert_eq!(states, vec![true, false]);
    assert_eq!(a.count(KIND_TRANSPORT_STATE), 2);
}

#[test]
fn a_radio_that_refuses_is_reported() {
    let mut a = node("alice", 1);
    a.radio = Err(CoreError::Radio("off".to_string()));
    a.start();
    assert!(!a.core.is_running());
    assert_eq!(a.errors(), vec!["radio failure: off".to_string()]);

    // Scanning works, advertising does not: the node runs, but has not announced
    // itself.
    a.radio = Ok(());
    let next = a.core.scanning_started(Ok(()), a.now);
    assert!(a.core.is_running());
    assert!(matches!(&next[0], Action::Beacon { starting: true, .. }));
    a.radio = Err(CoreError::Radio("busy".to_string()));
    a.perform(next);
    assert_eq!(a.count(KIND_TRANSPORT_STATE), 0);
    assert_eq!(a.errors()[1], "radio failure: busy");

    // A radio that cannot stop leaves the node running.
    a.stop();
    assert!(a.core.is_running());
}

#[test]
fn a_stopped_node_refuses_to_send() {
    let mut a = node("alice", 1);
    a.send(None, b"too early");
    assert!(a.drain().is_empty());
    assert_eq!(a.errors(), vec!["core is not broadcasting".to_string()]);
}

#[test]
fn bodies_and_advertisements_are_measured() {
    let id = [3u8; 16];
    assert_eq!(
        Command::sending(None, b"", id).err(),
        Some(CoreError::InvalidArgument("empty body"))
    );
    let long = vec![0u8; frame::MAX_BODY + 1];
    assert_eq!(
        Command::sending(None, &long, id).err(),
        Some(CoreError::InvalidArgument("body exceeds MAX_BODY"))
    );
    assert!(Command::sending(None, &long[1..], id).is_ok());
    assert_eq!(
        Command::composing(None, b"").err(),
        Some(CoreError::InvalidArgument("empty body"))
    );
    assert_eq!(
        Command::composing(None, &long).err(),
        Some(CoreError::InvalidArgument("body exceeds MAX_BODY"))
    );
    let (first, second) = (
        Command::composing(None, b"x").unwrap(),
        Command::composing(None, b"x").unwrap(),
    );
    assert_ne!(first.1, second.1);
    assert!(matches!(first.0, Command::Send { msg_id, .. } if msg_id == first.1));
    assert_eq!(
        Command::ingesting(-1, b"").err(),
        Some(CoreError::InvalidArgument("advertisement length"))
    );
    let wide = vec![0u8; frame::MAX_FRAME + 1];
    assert_eq!(
        Command::ingesting(-1, &wide).err(),
        Some(CoreError::InvalidArgument("advertisement length"))
    );
    assert!(Command::ingesting(-1, &wide[1..]).is_ok());
}

/// Every prefix of a garbage buffer is refused as a frame, and touches nothing.
#[test]
fn ingest_is_immune_to_garbage() {
    let mut a = node("alice", 1);
    let junk = [0xABu8; 300];
    for n in 1..junk.len() {
        a.ingest(-70, &junk[..n]);
    }
    assert_eq!(a.count(KIND_ERROR), junk.len() - 1);
    assert_eq!(a.events.len(), junk.len() - 1);
    assert!(a.core.peers().is_empty());
}

#[test]
fn a_frame_for_us_that_does_not_open_is_reported() {
    let mut a = node("alice", 1);
    let mut b = node("bob", 2);
    a.start();
    b.start();
    b.drain();
    a.send(Some(b.core.public_key()), b"tampered with");
    for mut wire in a.drain_kind(FrameKind::Message) {
        let last = wire.len() - 1;
        wire[last] ^= 1;
        b.ingest(-55, &wire);
    }
    assert!(b.bodies().is_empty());
    assert_eq!(b.count(KIND_PEER_DISCOVERED), 0, "a forgery discovers nobody");
    assert_eq!(b.count(KIND_ERROR), 1);
    assert!(b.core.receive_message().is_none());
}

#[test]
fn a_prekey_rotated_out_is_reported_expired() {
    let mut a = node("alice", 1);
    let mut b = node("bob", 2);
    a.start();
    b.start();
    deliver(&mut b, &mut a);
    a.drain();
    a.send(Some(b.core.public_key()), b"too late");
    let late = a.drain_kind(FrameKind::Message);
    b.wait(prekey::ROTATE_INTERVAL_MS * (prekey::RETAINED as u64 + 2));
    for wire in &late {
        b.ingest(-55, wire);
    }
    assert!(b.bodies().is_empty());
    assert_eq!(
        b.errors(),
        vec!["crypto failure: prekey generation expired".to_string()]
    );
}

#[test]
fn other_channels_stay_apart() {
    let mut a = node("alice", 1);
    let mut other = config("mallory", 2);
    other.channel_secret = b"another room".to_vec();
    let mut b = node_of(other);
    a.start();
    b.start();
    a.send(None, b"our room");
    deliver(&mut a, &mut b);
    assert!(b.bodies().is_empty());
    assert!(b.core.peers().is_empty());
}

#[test]
fn the_inbox_hands_out_messages_in_order_and_keeps_its_bound() {
    let mut a = node("alice", 1);
    let mut b = node("bob", 2);
    a.start();
    b.start();
    deliver(&mut a, &mut b);
    let total = INBOX_CAPACITY + 3;
    for i in 0..total {
        a.send(None, format!("message {i}").as_bytes());
        deliver(&mut a, &mut b);
    }
    assert_eq!(b.count(KIND_MESSAGE_RECEIVED), total);
    let mut held = Vec::new();
    while let Some(event) = b.core.receive_message() {
        if let EventKind::MessageReceived { body, .. } = event.kind {
            held.push(body);
        }
    }
    assert_eq!(held.len(), INBOX_CAPACITY);
    assert_eq!(held[0], b"message 3");
    assert_eq!(held[INBOX_CAPACITY - 1], b"message 258");
}

#[test]
fn an_id_is_forgotten_only_after_many_others() {
    let mut a = node("alice", 1);
    a.start();
    let sender = Identity::from_seed([9u8; 32]);
    let key = crypto::network_key(b"a channel A is not on");
    let build = |n: u64| {
        let mut msg_id = [0u8; 16];
        msg_id[..8].copy_from_slice(&n.to_le_bytes());
        frame::build(
            &sender,
            &Outgoing {
                recipient: crypto::BROADCAST_ID,
                msg_id,
                epoch: 1,
                counter: n,
                ttl: 2,
                body: b"x",
                nickname: "",
                kind: FrameKind::Message,
                sealing: Sealing::Network { key: &key },
            },
        )
        .unwrap()
    };
    let first = build(1);
    a.ingest(-40, &first);
    for n in 2..=DEDUP_CAPACITY as u64 {
        a.ingest(-40, &build(n));
    }
    a.drain();
    a.ingest(-40, &first);
    assert!(a.drain_kind(FrameKind::Message).is_empty(), "still remembered");
    a.ingest(-40, &build(DEDUP_CAPACITY as u64 + 1));
    a.drain();
    a.ingest(-40, &first);
    assert_eq!(a.drain_kind(FrameKind::Message).len(), 1, "forgotten by now");
}

#[test]
fn a_silent_peer_is_lost() {
    let mut a = node("alice", 1);
    let mut b = node("bob", 2);
    a.start();
    b.start();
    deliver(&mut b, &mut a);
    let seen = a.core.peers();
    assert_eq!(seen.len(), 1);
    assert_eq!(seen[0].id, b.core.public_key());
    assert_eq!(seen[0].nickname, "bob");
    assert_eq!((seen[0].rssi, seen[0].hops), (-55, 0));
    a.now += PEER_TTL_MS - 1;
    a.tick();
    assert_eq!(a.core.peers().len(), 1);
    a.now += 1;
    a.tick();
    assert!(a.core.peers().is_empty());
    assert_eq!(a.count(KIND_PEER_LOST), 1);
}

#[test]
fn the_beacon_goes_out_again_now_and_then() {
    let mut a = node("alice", 1);
    a.start();
    assert_eq!(a.drain_kind(FrameKind::Beacon).len(), 1);
    a.now += BEACON_INTERVAL_MS - 1;
    a.tick();
    assert!(a.drain_kind(FrameKind::Beacon).is_empty());
    a.now += 1;
    a.tick();
    assert_eq!(a.drain_kind(FrameKind::Beacon).len(), 1);
    // A clock that jumps back makes nothing due.
    a.now -= 500_000;
    a.tick();
    assert!(a.drain().is_empty());
}

#[test]
fn a_connection_spares_the_flood() {
    let mut a = node("alice", 1);
    let b = node("bob", 2);
    a.start();
    a.drain();
    a.direct_ok = true;
    let actions = a.core.handle(
        Command::sending(Some(b.core.public_key()), b"by wire", [8u8; 16]).unwrap(),
        a.now,
    );
    assert_eq!(actions.len(), 1);
    let sent = match &actions[0] {
        Action::Direct { peer, wire } => {
            assert_eq!(*peer, b.core.public_key());
            wire.clone()
        }
        other => panic!("unexpected {other:?}"),
    };
    assert!(after_direct(true, sent.clone()).is_none());
    match after_direct(false, sent.clone()) {
        Some(Action::Flood { wire }) => assert_eq!(wire, sent),
        other => panic!("unexpected {other:?}"),
    }
}

#[test]
fn a_system_without_randomness_is_reported() {
    let mut a = node("alice", 1);
    let out = a
        .core
        .scanning_started_with(Ok(()), a.now, &Drawn::nothing());
    a.perform(out);
    let out = a.core.handle_with(
        Command::sending(None, b"no nonce", [8u8; 16]).unwrap(),
        a.now,
        &Drawn::nothing(),
    );
    a.perform(out);
    assert_eq!(
        a.errors(),
        vec![
            "crypto failure: getrandom failed".to_string(),
            "crypto failure: getrandom failed".to_string()
        ]
    );
    assert!(a.drain().is_empty());
}

#[test]
fn a_node_keeps_its_seed_and_numbers_its_events() {
    let mut a = node("alice", 1);
    assert_eq!(
        a.core.public_key(),
        Identity::from_seed([1u8; 32]).public_id()
    );
    assert_eq!(a.core.next_seq(), 0);
    assert_eq!(a.core.next_seq(), 1);
    a.start();
    assert_eq!(a.events[0].seq, 2);
    assert!(!a.core.ready_for(u64::MAX));
    assert!(a.core.ready_for(u64::MAX - outbox::MAX_BACKOFF_MS));
}

/// The session is stamped with the clock where the settings give no epoch.
#[test]
fn the_epoch_defaults_to_the_clock() {
    let mut settings = config("alice", 1);
    settings.epoch = None;
    let mut a = node_of(settings);
    a.start();
    let wires = a.drain();
    assert_eq!(frame::parse(&wires[0]).unwrap().epoch, 1_000_000);
}

#[test]
fn a_broadcast_draws_no_ack() {
    let mut a = node("alice", 1);
    let mut b = node("bob", 2);
    a.start();
    b.start();
    b.drain();
    a.send(None, b"everyone");
    deliver(&mut a, &mut b);
    assert_eq!(b.bodies().len(), 1);
    assert!(b.drain_kind(FrameKind::Ack).is_empty());
}

/// The generation that a node's beacon advertises.
fn advertised_generation(beacon: &[u8]) -> u32 {
    let parsed = frame::parse(beacon).unwrap();
    let key = crypto::network_key(crypto::OPEN_CHANNEL);
    let reader = Identity::from_seed([99u8; 32]);
    let body = frame::open(&reader, &parsed, frame::Opening::Network { key: &key }).unwrap();
    prekey::parse_bundle(&parsed.sender, &body)
        .unwrap()
        .generation
}

#[test]
fn a_fresh_prekey_is_announced_at_once() {
    let mut a = node("alice", 1);
    a.start();
    let first = a.drain_kind(FrameKind::Beacon);
    assert_eq!(advertised_generation(&first[0]), 0);

    // The beacon has just gone out when the prekey's time is up.
    a.now += prekey::ROTATE_INTERVAL_MS - 1;
    a.tick();
    assert_eq!(
        advertised_generation(&a.drain_kind(FrameKind::Beacon)[0]),
        0
    );
    a.now += 1;
    a.tick();
    assert_eq!(
        advertised_generation(&a.drain_kind(FrameKind::Beacon)[0]),
        1
    );
}

#[test]
fn a_newer_distribution_supersedes_the_pending_one() {
    let mut config = config("alice", 1);
    config.chain_rotate_ms = 5_000;
    let mut a = node_of(config);
    let mut b = node("bob", 2);
    a.start();
    b.start();
    deliver(&mut b, &mut a);
    let first = a.drain_kind(FrameKind::SenderKey);
    assert_eq!(first.len(), 1);

    // The chain is replaced while the first distribution is still unacked.
    a.now += 5_000;
    a.tick();
    let replaced: Vec<_> = a
        .drain_kind(FrameKind::SenderKey)
        .into_iter()
        .filter(|w| *w != first[0])
        .collect();
    assert_eq!(replaced.len(), 1);

    // From here on only the newer one is retried.
    a.wait(4_000);
    let retried = a.drain_kind(FrameKind::SenderKey);
    assert!(!retried.is_empty());
    assert!(retried.iter().all(|w| *w == replaced[0]));
}

/// Nothing falls due while the clock stands before everything that happened.
#[test]
fn a_clock_that_jumps_back_changes_nothing() {
    let mut a = node("alice", 1);
    let mut b = node("bob", 2);
    introduce(&mut a, &mut b);
    a.send(Some(Identity::from_seed([5u8; 32]).public_id()), b"queued");
    let peers = a.core.peers().len();
    let events = a.events.len();
    a.drain();
    a.now -= 900_000;
    a.tick();
    assert!(a.drain().is_empty());
    assert_eq!(a.core.peers().len(), peers);
    assert_eq!(a.core.outbox_len(), 1);
    assert_eq!(a.events.len(), events);
}
