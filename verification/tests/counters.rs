use matchmaker::metrics::{Mean, Metrics};
use matchmaker::pacing::{Backoff, Pause};

#[test]
fn match_is_recorded() {
    let mut m = Metrics::default();
    m.record_match(10, 5000, 2, 81);
    m.record_match(10, 1000, 1, 9);
    assert_eq!(m.matches, 2);
    assert_eq!(m.players_matched, 20);
    assert_eq!(m.total_wait_us, 6000);
    assert_eq!(m.total_imbalance, 3);
    assert_eq!(m.total_spread, 90);
    let snap = m.snapshot(4);
    assert_eq!(snap.queued_now, 4);
    assert_eq!(snap.avg_wait_us, Mean { total: 6000, count: 20 });
    assert_eq!(snap.avg_imbalance, Mean { total: 3, count: 2 });
    assert_eq!(snap.avg_spread, Mean { total: 90, count: 2 });
}

#[test]
fn counters_wrap_around() {
    let mut m = Metrics::default();
    m.total_wait_us = u64::MAX;
    m.matches = u64::MAX;
    m.record_match(2, 5, 0, 0);
    assert_eq!((m.total_wait_us, m.matches), (4, 0));
}

#[test]
fn high_water_mark_only_rises() {
    let mut m = Metrics::default();
    for (seen, mark) in [(3, 3), (1, 3), (7, 7), (7, 7), (0, 7)] {
        m.observe_depth(seen);
        assert_eq!(m.max_queue_depth, mark);
    }
}

#[test]
fn attempts_are_counted() {
    let mut m = Metrics::default();
    m.record_attempt(true);
    m.record_attempt(false);
    m.record_enqueued();
    let snap = m.snapshot(1);
    assert_eq!((snap.attempts, snap.empty_attempts, snap.enqueued), (2, 1, 1));
}

#[test]
fn worker_spins_then_sleeps_until_a_match() {
    let mut backoff = Backoff::new();
    for _ in 0..128 {
        assert_eq!(backoff.after_attempt(false), Pause::Spin);
    }
    assert_eq!(backoff.after_attempt(false), Pause::Sleep(200));
    assert_eq!(backoff.after_attempt(false), Pause::Sleep(200));
    assert_eq!(backoff.after_attempt(true), Pause::Nothing);
    assert_eq!(backoff.after_attempt(false), Pause::Spin);
}

#[test]
fn counting_apart_adds_up() {
    let mut together = Metrics::default();
    let mut one = Metrics::default();
    let mut other = Metrics::default();
    for m in [&mut together, &mut one] {
        m.record_match(10, 700, 3, 20);
        m.record_enqueued();
        m.observe_depth(9);
    }
    for m in [&mut together, &mut other] {
        m.record_attempt(true);
        m.record_match(10, 300, 1, 4);
        m.observe_depth(4);
    }
    assert_eq!(together.matches, one.matches + other.matches);
    assert_eq!(together.players_matched, one.players_matched + other.players_matched);
    assert_eq!(together.total_wait_us, one.total_wait_us + other.total_wait_us);
    assert_eq!(together.total_imbalance, one.total_imbalance + other.total_imbalance);
    assert_eq!(together.total_spread, one.total_spread + other.total_spread);
    assert_eq!(together.attempts, one.attempts + other.attempts);
    assert_eq!(together.enqueued, one.enqueued + other.enqueued);
    assert_eq!(together.max_queue_depth, one.max_queue_depth.max(other.max_queue_depth));
}
