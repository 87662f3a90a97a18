//! The anti-replay window, frame by frame.
use meshcore::replay::{ReplayVerdict, ReplayWindow, WINDOW};

#[test]
fn in_order_traffic_is_always_fresh() {
    let mut w = ReplayWindow::new(1, 0);
    for c in 1..1000 {
        assert_eq!(w.admit_counter(1, c), ReplayVerdict::Fresh, "counter {c}");
    }
    assert_eq!(w.highest(), 999);
}

#[test]
fn an_exact_replay_is_caught() {
    let mut w = ReplayWindow::new(1, 10);
    assert_eq!(w.admit_counter(1, 11), ReplayVerdict::Fresh);
    assert_eq!(w.admit_counter(1, 11), ReplayVerdict::Duplicate);
    assert_eq!(w.admit_counter(1, 10), ReplayVerdict::Duplicate);
}

#[test]
fn reordering_inside_the_window_is_tolerated() {
    let mut w = ReplayWindow::new(1, 100);
    // Arrive out of order, as a lossy radio delivers them.
    for c in [105, 103, 101, 104, 102] {
        assert_eq!(w.admit_counter(1, c), ReplayVerdict::Fresh, "counter {c}");
    }
    // ...but each only once.
    for c in [101, 102, 103, 104, 105] {
        assert_eq!(w.admit_counter(1, c), ReplayVerdict::Duplicate, "counter {c}");
    }
}

#[test]
fn frames_older_than_the_window_are_refused() {
    let mut w = ReplayWindow::new(1, 0);
    assert_eq!(w.admit_counter(1, WINDOW), ReplayVerdict::Fresh);
    // counter 0 is now exactly WINDOW behind: out of reach.
    assert_eq!(w.admit_counter(1, 0), ReplayVerdict::TooOld);
    // One inside the edge is still admissible.
    assert_eq!(w.admit_counter(1, 1), ReplayVerdict::Fresh);
}

#[test]
fn a_large_jump_clears_the_window_without_overflowing() {
    let mut w = ReplayWindow::new(1, 0);
    // A shift of >= 64 would be UB as `<<`; assert we handle it.
    assert_eq!(w.admit_counter(1, 10_000), ReplayVerdict::Fresh);
    assert_eq!(w.admit_counter(1, 10_000), ReplayVerdict::Duplicate);
    assert_eq!(w.admit_counter(1, 9_999), ReplayVerdict::Fresh);
    assert_eq!(w.admit_counter(1, 0), ReplayVerdict::TooOld);
}

#[test]
fn a_restart_resets_the_window() {
    let mut w = ReplayWindow::new(1, 500);
    assert_eq!(
        w.admit_counter(2, 0),
        ReplayVerdict::Fresh,
        "new epoch, counter restarts"
    );
    assert_eq!(w.admit_counter(2, 1), ReplayVerdict::Fresh);
    assert_eq!(w.epoch(), 2);
}

#[test]
fn replaying_a_whole_old_session_is_refused() {
    // The attack the epoch check exists for: capture session 1's traffic,
    // wait for the peer to restart into session 2, then re-inject session 1.
    let mut w = ReplayWindow::new(1, 10);
    assert_eq!(w.admit_counter(2, 0), ReplayVerdict::Fresh);
    assert_eq!(w.admit_counter(1, 11), ReplayVerdict::StaleEpoch);
    assert_eq!(w.admit_counter(1, 999), ReplayVerdict::StaleEpoch);
}

#[test]
fn counter_saturation_does_not_panic() {
    let mut w = ReplayWindow::new(1, u64::MAX - 1);
    assert_eq!(w.admit_counter(1, u64::MAX), ReplayVerdict::Fresh);
    assert_eq!(w.admit_counter(1, u64::MAX), ReplayVerdict::Duplicate);
}
