use quic_datagrams::codel::{CodelState, CODEL_MIN_BACKLOG};
use quic_datagrams::config::DatagramAqmConfig;
use quic_datagrams::time::{Duration, Instant};

fn aqm() -> DatagramAqmConfig {
    DatagramAqmConfig::default()
}

/// A moment well after the clock's origin.
fn start() -> Instant {
    Instant { nanos: 3_600_000_000_000 }
}

fn millis(n: u64) -> Duration {
    Duration::from_millis(n)
}

fn times(d: Duration, n: u64) -> Duration {
    Duration::from_nanos(d.nanos * n)
}

fn part(d: Duration, n: u64) -> Duration {
    Duration::from_nanos(d.nanos / n)
}

/// A backlog comfortably above the CoDel floor.
const BACKLOG: usize = 64 * 1024;

#[test]
fn codel_never_drops_below_target() {
    let mut codel = CodelState::default();
    let config = aqm();
    let mut now = start();
    for _ in 0..1000 {
        assert!(!codel.should_drop(part(config.target, 2), BACKLOG, now, &config));
        now = now.after(millis(1));
    }
    assert!(!codel.dropping);
}

#[test]
fn codel_tolerates_bursts_shorter_than_interval() {
    let mut codel = CodelState::default();
    let config = aqm();
    let mut now = start();
    // Sojourn above target, but only for half an interval, then recovery.
    for _ in 0..5 {
        for _ in 0..10 {
            assert!(!codel.should_drop(times(config.target, 2), BACKLOG, now, &config));
            now = now.after(part(config.interval, 20));
        }
        assert!(!codel.should_drop(part(config.target, 2), BACKLOG, now, &config));
    }
}

#[test]
fn codel_drops_after_sustained_standing_queue_then_escalates() {
    let mut codel = CodelState::default();
    let config = aqm();
    let mut now = start();
    let mut drops = 0u32;
    let mut first_drop_at = None;
    let start = now;
    // A persistent standing queue: sojourn pinned above target.
    for _ in 0..400 {
        if codel.should_drop(times(config.target, 4), BACKLOG, now, &config) {
            drops += 1;
            first_drop_at.get_or_insert(now);
        }
        now = now.after(millis(5));
    }
    let first = first_drop_at.expect("a standing queue must eventually drop");
    assert!(
        first.saturating_duration_since(start) >= config.interval,
        "the first drop must wait out a full interval"
    );
    assert!(
        drops > 5,
        "the drop rate must escalate while the queue stands, got {drops}"
    );
    assert!(codel.dropping);
}

#[test]
fn codel_stops_dropping_once_queue_drains() {
    let mut codel = CodelState::default();
    let config = aqm();
    let mut now = start();
    for _ in 0..400 {
        codel.should_drop(times(config.target, 4), BACKLOG, now, &config);
        now = now.after(millis(5));
    }
    assert!(codel.dropping);
    assert!(!codel.should_drop(part(config.target, 4), BACKLOG, now, &config));
    assert!(!codel.dropping, "sojourn below target must end the episode");
}

#[test]
fn codel_spares_a_nearly_empty_queue() {
    let mut codel = CodelState::default();
    let config = aqm();
    let mut now = start();
    // Sojourn far above target but almost nothing queued: the link is
    // keeping up, dropping would only starve it.
    for _ in 0..400 {
        assert!(!codel.should_drop(times(config.target, 10), CODEL_MIN_BACKLOG, now, &config));
        now = now.after(millis(5));
    }
}

#[test]
fn backoff_is_interval_over_root_of_count() {
    let interval = millis(100);
    assert_eq!(CodelState::backoff(interval, 1), interval);
    assert_eq!(CodelState::backoff(interval, 2).nanos, 70_710_678);
    assert_eq!(CodelState::backoff(interval, 3).nanos, 57_735_027);
    assert_eq!(CodelState::backoff(interval, 4).nanos, 50_000_000);
    assert_eq!(CodelState::backoff(interval, 100).nanos, 10_000_000);
    assert_eq!(CodelState::backoff(Duration::from_nanos(3), 4).nanos, 2);
    assert_eq!(CodelState::backoff(Duration::from_nanos(0), 7).nanos, 0);
    assert_eq!(CodelState::backoff(Duration::from_nanos(u64::MAX), 1).nanos, u64::MAX);
    assert_eq!(CodelState::backoff(Duration::from_nanos(1), u64::MAX).nanos, 0);
    assert_eq!(CodelState::backoff(Duration::from_nanos(u64::MAX), u64::MAX).nanos, 1 << 32);
}

#[test]
fn backoff_agrees_with_floating_point() {
    for interval_millis in [1u64, 15, 50, 100, 1000] {
        let interval = std::time::Duration::from_millis(interval_millis);
        for count in 1..100_000u64 {
            let float =
                std::time::Duration::from_secs_f64(interval.as_secs_f64() / (count as f64).sqrt());
            let exact = CodelState::backoff(millis(interval_millis), count).nanos as u128;
            // Halfway between two nanoseconds floating point may go either way.
            let twice = 2 * interval.as_nanos();
            let halfway = (2 * exact - 1).pow(2) * count as u128 == twice.pow(2);
            assert!(
                exact == float.as_nanos() || (halfway && exact == float.as_nanos() + 1),
                "{interval_millis} ms, {count}"
            );
        }
    }
}

#[test]
fn drops_are_spaced_by_the_control_law() {
    let config = aqm();
    let mut codel = CodelState::default();
    let t = start();
    let stale = times(config.target, 4);
    assert!(!codel.should_drop(stale, BACKLOG, t, &config));
    let first = t.after(config.interval);
    assert!(codel.should_drop(stale, BACKLOG, first, &config));
    assert_eq!(codel.count, 1);
    assert_eq!(codel.drop_next, Some(first.after(millis(100))));
    // Not due yet.
    assert!(!codel.should_drop(stale, BACKLOG, first.after(millis(99)), &config));
    let second = first.after(millis(100));
    assert!(codel.should_drop(stale, BACKLOG, second, &config));
    assert_eq!(codel.count, 2);
    assert_eq!(codel.drop_next, Some(second.after(Duration::from_nanos(70_710_678))));
}

#[test]
fn a_queue_that_comes_right_back_resumes_its_drop_rate() {
    let config = aqm();
    let t = start();
    let stale = times(config.target, 4);
    let past = CodelState { first_above_time: Some(t), drop_next: Some(t), count: 9, dropping: false };
    let mut soon = past;
    assert!(soon.should_drop(stale, BACKLOG, t.after(millis(1599)), &config));
    assert_eq!(soon.count, 7);
    let mut late = past;
    assert!(late.should_drop(stale, BACKLOG, t.after(millis(1600)), &config));
    assert_eq!(late.count, 1);
    let mut short = CodelState { count: 2, ..past };
    assert!(short.should_drop(stale, BACKLOG, t.after(millis(1)), &config));
    assert_eq!(short.count, 1);
    // A next drop that still lies ahead counts as recent.
    let mut ahead = CodelState { drop_next: Some(t.after(millis(50))), ..past };
    assert!(ahead.should_drop(stale, BACKLOG, t, &config));
    assert_eq!(ahead.count, 7);
}
