//! The retransmit queue.
use meshcore::crypto::PeerId;
use meshcore::outbox::{
    Due, Outbox, Pending, Traffic, BASE_BACKOFF_MS, CAPACITY, DEADLINE_MS, MAX_BACKOFF_MS,
};

const PEER: PeerId = [7u8; 32];

fn id(n: u8) -> [u8; 16] {
    [n; 16]
}

#[test]
fn a_queued_message_retries_on_backoff_then_expires() {
    let mut o = Outbox::default();
    o.push(id(1), PEER, vec![0xAA], Traffic::User, 0);

    // Nothing due before the first backoff elapses.
    assert!(o.take_due(BASE_BACKOFF_MS - 1).is_empty());

    let due = o.take_due(BASE_BACKOFF_MS);
    assert_eq!(due.len(), 1);
    assert_eq!(due[0].due, Due::Retry(vec![0xAA]));
    assert_eq!(due[0].recipient, PEER);

    // Second attempt waits twice as long.
    assert!(o.take_due(BASE_BACKOFF_MS + 1).is_empty());

    let due = o.take_due(DEADLINE_MS);
    assert_eq!(due.len(), 1);
    assert_eq!(due[0].due, Due::Expired);
    assert!(o.is_empty(), "an expired message must be dropped");
}

#[test]
fn backoff_grows_then_caps() {
    assert_eq!(Pending::backoff(0), BASE_BACKOFF_MS);
    assert_eq!(Pending::backoff(1), 2 * BASE_BACKOFF_MS);
    assert_eq!(Pending::backoff(2), 4 * BASE_BACKOFF_MS);
    assert_eq!(
        Pending::backoff(60),
        MAX_BACKOFF_MS,
        "must not overflow the shift"
    );
}

#[test]
fn an_ack_removes_the_pending_message() {
    let mut o = Outbox::default();
    o.push(id(1), PEER, vec![1], Traffic::User, 0);
    assert_eq!(o.ack(&id(1)), Some(Traffic::User));
    assert!(o.is_empty());
    // A duplicate ack is normal on a lossy radio, not an error.
    assert_eq!(o.ack(&id(1)), None);
}

#[test]
fn peer_discovery_makes_queued_messages_due_immediately() {
    let mut o = Outbox::default();
    o.push(id(1), PEER, vec![1], Traffic::User, 0);
    o.push(id(2), [8u8; 32], vec![2], Traffic::User, 0);

    assert!(o.take_due(10).is_empty(), "backoff has not elapsed");
    assert_eq!(o.wake_for_peer(&PEER, 10), 1, "only PEER's message wakes");

    let due = o.take_due(10);
    assert_eq!(due.len(), 1);
    assert_eq!(due[0].msg_id, id(1));
}

/// Distinct ids for more than 256 entries — a single repeated byte would
/// collide once `n` exceeds `u8::MAX`.
fn nth_id(n: usize) -> [u8; 16] {
    let mut id = [0u8; 16];
    id[..8].copy_from_slice(&(n as u64).to_le_bytes());
    id
}

#[test]
fn the_queue_is_bounded_and_evicts_oldest_first() {
    let mut o = Outbox::default();
    for n in 0..CAPACITY {
        o.push(nth_id(n), PEER, vec![], Traffic::User, 0);
    }
    assert_eq!(o.len(), CAPACITY);

    let evicted = o.push(nth_id(9999), PEER, vec![], Traffic::User, 0);
    assert_eq!(evicted, Some(nth_id(0)), "oldest goes first");
    assert_eq!(o.len(), CAPACITY);
    assert!(o.contains(&nth_id(9999)));
    assert!(!o.contains(&nth_id(0)));
}

#[test]
fn requeuing_an_existing_id_does_not_corrupt_the_order_list() {
    let mut o = Outbox::default();
    o.push(id(1), PEER, vec![1], Traffic::User, 0);
    o.push(id(1), PEER, vec![2], Traffic::User, 0);
    assert_eq!(o.len(), 1, "len must track the map, not the order list");

    // One ack must fully clear it — a duplicated order entry would leave
    // a phantom behind.
    assert_eq!(o.ack(&id(1)), Some(Traffic::User));
    assert!(o.is_empty());
    assert!(o.take_due(u64::MAX / 2).is_empty());
}

/// Internal frames retry exactly like user ones — that is the whole point
/// of putting them in this queue — but must not be counted as messages the
/// user is waiting on.
#[test]
fn internal_traffic_retries_but_stays_out_of_the_user_count() {
    let mut o = Outbox::default();
    o.push(id(1), PEER, vec![1], Traffic::User, 0);
    o.push(id(2), PEER, vec![2], Traffic::Internal, 0);

    assert_eq!(o.len(), 2);
    assert_eq!(o.user_len(), 1, "housekeeping is not a pending message");

    let due = o.take_due(BASE_BACKOFF_MS);
    assert_eq!(due.len(), 2, "both kinds retry");
    let internal = due.iter().find(|d| d.msg_id == id(2)).unwrap();
    assert_eq!(internal.traffic, Traffic::Internal);
    assert_eq!(internal.due, Due::Retry(vec![2]));
}

#[test]
fn an_ack_reports_which_kind_of_traffic_it_cleared() {
    let mut o = Outbox::default();
    o.push(id(1), PEER, vec![1], Traffic::Internal, 0);
    assert_eq!(o.ack(&id(1)), Some(Traffic::Internal));
    assert_eq!(o.ack(&id(1)), None, "and only once");
}

#[test]
fn expiry_carries_the_traffic_kind_so_receipts_can_be_suppressed() {
    let mut o = Outbox::default();
    o.push(id(1), PEER, vec![1], Traffic::Internal, 0);
    let due = o.take_due(DEADLINE_MS);
    assert_eq!(due[0].due, Due::Expired);
    assert_eq!(due[0].traffic, Traffic::Internal);
}

/// A newer distribution supersedes the one still queued: retrying stale
/// chain state spends air re-announcing a position we no longer send from.
#[test]
fn a_newer_distribution_drops_the_superseded_one() {
    let mut o = Outbox::default();
    let other: PeerId = [8u8; 32];
    o.push(id(1), PEER, vec![1], Traffic::Internal, 0);
    o.push(id(2), PEER, vec![2], Traffic::User, 0);
    o.push(id(3), other, vec![3], Traffic::Internal, 0);

    assert_eq!(o.drop_superseded_internal(&PEER), 1);
    assert!(!o.contains(&id(1)), "the stale distribution goes");
    assert!(o.contains(&id(2)), "the user's message must survive");
    assert!(
        o.contains(&id(3)),
        "another peer's distribution is untouched"
    );

    assert_eq!(o.drop_superseded_internal(&PEER), 0, "idempotent");
}

#[test]
fn retry_reuses_the_original_frame_bytes() {
    // Re-sealing on retry would consume a fresh counter each time and punch
    // holes in the recipient's replay window.
    let mut o = Outbox::default();
    o.push(id(1), PEER, vec![1, 2, 3], Traffic::User, 0);
    let first = o.take_due(BASE_BACKOFF_MS);
    let second = o.take_due(BASE_BACKOFF_MS * 10);
    assert_eq!(first[0].due, Due::Retry(vec![1, 2, 3]));
    assert_eq!(second[0].due, Due::Retry(vec![1, 2, 3]));
}

/// Retrying at the very end of the clock is refused beforehand.
#[test]
fn the_end_of_the_clock_is_seen_coming() {
    let mut outbox = Outbox::default();
    assert!(outbox.can_retry(u64::MAX));
    let at = u64::MAX - 100_000;
    outbox.push(id(1), [1u8; 32], vec![1], Traffic::User, at);
    assert!(outbox.can_retry(at));
    assert!(outbox.can_retry(at + BASE_BACKOFF_MS));
    assert!(!outbox.can_retry(u64::MAX));
    assert!(outbox.has_attempts_left());
}

/// Each retry waits out its backoff, however often the queue is asked, and is the
/// same frame. The deadline ends it, once.
#[test]
fn the_retry_schedule_is_kept_over_many_calls() {
    let mut o = Outbox::default();
    o.push(id(1), PEER, vec![0xAB, 0xCD], Traffic::User, 0);
    let mut tried = Vec::new();
    let mut expired = Vec::new();
    let mut now = 0;
    while now <= DEADLINE_MS + 5_000 {
        for item in o.take_due(now) {
            match item.due {
                Due::Retry(wire) => {
                    assert_eq!(wire, vec![0xAB, 0xCD]);
                    tried.push(now);
                }
                Due::Expired => expired.push(now),
            }
        }
        assert!(o.take_due(now).is_empty(), "nothing is due twice at once");
        now += 250;
    }
    assert_eq!(
        tried,
        vec![1_000, 3_000, 7_000, 15_000, 30_000, 45_000, 60_000, 75_000, 90_000, 105_000]
    );
    assert_eq!(expired, vec![DEADLINE_MS]);
}

#[test]
fn waking_and_taking_gives_all_of_one_peers_messages() {
    let other: PeerId = [8u8; 32];
    let mut o = Outbox::default();
    o.push(id(1), PEER, vec![1], Traffic::User, 0);
    o.push(id(2), other, vec![2], Traffic::User, 0);
    o.push(id(3), PEER, vec![3], Traffic::Internal, 900);
    o.push(id(4), other, vec![4], Traffic::User, 900);

    // One of the other peer's is due on its own account; its second one is not.
    assert_eq!(o.wake_for_peer(&PEER, 1_000), 1, "one was due already");
    assert_eq!(o.wake_for_peer(&PEER, 1_000), 0, "nothing is left to wake");
    assert_eq!(o.len(), 4);
    let due: Vec<[u8; 16]> = o.take_due(1_000).iter().map(|item| item.msg_id).collect();
    assert_eq!(due, vec![id(1), id(2), id(3)]);

    // Past its deadline, a message is woken only to be reported.
    let mut late = Outbox::default();
    late.push(id(5), PEER, vec![5], Traffic::User, 0);
    late.wake_for_peer(&PEER, DEADLINE_MS);
    let due = late.take_due(DEADLINE_MS);
    assert_eq!(due.len(), 1);
    assert_eq!(due[0].due, Due::Expired);
}

#[test]
fn a_message_is_awaited_from_its_recipient_alone() {
    let mut o = Outbox::default();
    o.push(id(1), PEER, vec![1], Traffic::User, 0);
    assert!(o.awaits(&id(1), &PEER));
    assert!(!o.awaits(&id(1), &[8u8; 32]));
    assert!(!o.awaits(&id(2), &PEER));
}
