use logtripwire::duration::Duration;
use logtripwire::window::{SlidingWindow, Timestamp};

fn origin() -> Timestamp {
    Timestamp::from_nanos(1_000_000_000_000)
}

#[test]
fn below_threshold_never_fires() {
    let mut w = SlidingWindow::new(Duration::from_secs(10), 3);
    let t0 = origin();
    assert!(!w.record(t0));
    assert!(!w.record(t0.plus(Duration::from_secs(1))));
    assert_eq!(w.count(t0.plus(Duration::from_secs(1))), 2);
}

#[test]
fn reaching_threshold_fires_exactly_on_the_crossing_match() {
    let mut w = SlidingWindow::new(Duration::from_secs(10), 3);
    let t0 = origin();
    assert!(!w.record(t0));
    assert!(!w.record(t0.plus(Duration::from_millis(100))));
    assert!(w.record(t0.plus(Duration::from_millis(200))));
}

#[test]
fn threshold_of_one_fires_on_the_first_match() {
    let mut w = SlidingWindow::new(Duration::from_secs(10), 1);
    assert!(w.record(origin()));
}

#[test]
fn sustained_matches_past_threshold_do_not_refire_every_line() {
    let mut w = SlidingWindow::new(Duration::from_secs(10), 3);
    let t0 = origin();
    assert!(!w.record(t0));
    assert!(!w.record(t0.plus(Duration::from_millis(100))));
    assert!(w.record(t0.plus(Duration::from_millis(200))));
    assert!(!w.record(t0.plus(Duration::from_millis(300))));
    assert!(!w.record(t0.plus(Duration::from_millis(400))));
    assert!(!w.record(t0.plus(Duration::from_millis(500))));
}

#[test]
fn matches_older_than_the_window_are_pruned_out_of_the_count() {
    let mut w = SlidingWindow::new(Duration::from_secs(1), 3);
    let t0 = origin();
    w.record(t0);
    w.record(t0.plus(Duration::from_millis(100)));
    let later = t0.plus(Duration::from_secs(5));
    assert_eq!(w.count(later), 0);
}

#[test]
fn dropping_below_threshold_then_crossing_again_refires() {
    let mut w = SlidingWindow::new(Duration::from_millis(500), 2);
    let t0 = origin();
    assert!(!w.record(t0));
    assert!(w.record(t0.plus(Duration::from_millis(100))));
    let t1 = t0.plus(Duration::from_secs(2));
    assert_eq!(w.count(t1), 0);
    assert!(!w.record(t1));
    assert!(w.record(t1.plus(Duration::from_millis(50))));
}

#[test]
fn a_match_exactly_at_the_window_boundary_still_counts() {
    let mut w = SlidingWindow::new(Duration::from_secs(10), 2);
    let t0 = origin();
    assert!(!w.record(t0));
    assert!(w.record(t0.plus(Duration::from_secs(10))));
}

#[test]
fn a_match_just_past_the_window_boundary_does_not_count_the_first_one() {
    let mut w = SlidingWindow::new(Duration::from_secs(10), 2);
    let t0 = origin();
    w.record(t0);
    assert!(!w.record(t0.plus(Duration::from_millis(10_001))));
}

#[test]
fn count_reflects_pruning_without_recording_a_new_match() {
    let mut w = SlidingWindow::new(Duration::from_millis(500), 5);
    let t0 = origin();
    w.record(t0);
    w.record(t0.plus(Duration::from_millis(10)));
    w.record(t0.plus(Duration::from_millis(20)));
    assert_eq!(w.count(t0.plus(Duration::from_millis(20))), 3);
    assert_eq!(w.count(t0.plus(Duration::from_secs(1))), 0);
}

#[test]
fn threshold_zero_is_treated_as_one() {
    let mut w = SlidingWindow::new(Duration::from_secs(10), 0);
    assert!(w.record(origin()));
}

#[test]
fn a_flood_fires_once_at_the_threshold_and_never_again() {
    let mut w = SlidingWindow::new(Duration::from_secs(1), 4);
    let t0 = origin();
    let fired: Vec<bool> = (0..10)
        .map(|i| w.record(t0.plus(Duration::from_millis(i * 100))))
        .collect();
    assert_eq!(
        fired,
        vec![false, false, false, true, false, false, false, false, false, false]
    );
}

#[test]
fn the_window_is_a_nanosecond_exact_closed_interval() {
    let mut w = SlidingWindow::new(Duration::from_nanos(1000), 10);
    let t0 = Timestamp::from_nanos(5000);
    w.record(t0);
    assert_eq!(w.count(Timestamp::from_nanos(6000)), 1);
    assert_eq!(w.count(Timestamp::from_nanos(6001)), 0);
}

#[test]
fn an_earlier_instant_does_not_age_anything_out() {
    let mut w = SlidingWindow::new(Duration::from_nanos(10), 3);
    w.record(Timestamp::from_nanos(500));
    assert_eq!(w.count(Timestamp::from_nanos(100)), 1);
}

#[test]
fn timestamps_measure_spans_saturating_at_zero() {
    let a = Timestamp::from_nanos(100);
    let b = Timestamp::from_nanos(350);
    assert_eq!(b.saturating_since(a), Duration::from_nanos(250));
    assert_eq!(a.saturating_since(b), Duration::from_nanos(0));
    assert_eq!(a.plus(Duration::from_nanos(250)), b);
    assert_eq!(b.as_nanos(), 350);
}

#[test]
fn taking_counts_between_records_changes_no_answer() {
    let times_ms: [u64; 8] = [0, 100, 700, 800, 900, 2500, 2600, 2650];
    let t0 = origin();
    let mut plain = SlidingWindow::new(Duration::from_secs(1), 3);
    let mut counted = SlidingWindow::new(Duration::from_secs(1), 3);
    for &ms in times_ms.iter() {
        let now = t0.plus(Duration::from_millis(ms));
        assert_eq!(counted.count(now), plain.count(now));
        assert_eq!(counted.record(now), plain.record(now));
        assert_eq!(counted.count(now), plain.count(now));
    }
    let mut fresh = SlidingWindow::new(Duration::from_secs(1), 3);
    let fired: Vec<bool> = times_ms
        .iter()
        .map(|&ms| fresh.record(t0.plus(Duration::from_millis(ms))))
        .collect();
    assert_eq!(fired, vec![false, false, true, false, false, false, false, true]);
}

#[test]
fn matches_ahead_of_now_still_count() {
    let mut w = SlidingWindow::new(Duration::from_nanos(100), 10);
    w.record(Timestamp::from_nanos(1000));
    w.record(Timestamp::from_nanos(1050));
    assert_eq!(w.count(Timestamp::from_nanos(500)), 2);
    assert_eq!(w.count(Timestamp::from_nanos(1100)), 2);
    assert_eq!(w.count(Timestamp::from_nanos(1101)), 1);
}
