use logtripwire::duration::Duration;
use logtripwire::matcher::Matcher;
use logtripwire::window::Timestamp;
use logtripwire::Tripwire;

fn start() -> Timestamp {
    Timestamp::from_nanos(42_000_000_000)
}

#[test]
fn non_matching_lines_never_advance_the_window() {
    let matcher = Matcher::new("ERROR", false, false).unwrap();
    let mut tw = Tripwire::new(matcher, Duration::from_secs(10), 2);
    let t0 = start();
    assert!(!tw.check("all is fine", t0));
    assert!(!tw.check("still fine", t0.plus(Duration::from_millis(1))));
}

#[test]
fn matching_lines_fire_exactly_at_the_threshold() {
    let matcher = Matcher::new("ERROR", false, false).unwrap();
    let mut tw = Tripwire::new(matcher, Duration::from_secs(10), 3);
    let t0 = start();
    assert!(!tw.check("ERROR one", t0));
    assert!(!tw.check("noise", t0.plus(Duration::from_millis(50))));
    assert!(!tw.check("ERROR two", t0.plus(Duration::from_millis(100))));
    assert!(tw.check("ERROR three", t0.plus(Duration::from_millis(150))));
}

#[test]
fn matches_spread_out_slower_than_the_window_never_fire() {
    let matcher = Matcher::new("ERROR", false, false).unwrap();
    let mut tw = Tripwire::new(matcher, Duration::from_millis(500), 3);
    let t0 = start();
    assert!(!tw.check("ERROR one", t0));
    assert!(!tw.check("ERROR two", t0.plus(Duration::from_secs(1))));
    assert!(!tw.check("ERROR three", t0.plus(Duration::from_secs(2))));
}

#[test]
fn the_tripwire_keeps_its_settings_as_given() {
    let matcher = Matcher::new("x", false, false).unwrap();
    let tw = Tripwire::new(matcher, Duration::from_secs(60), 0);
    assert_eq!(tw.threshold(), 0);
    assert_eq!(tw.window_duration(), Duration::from_secs(60));
}

#[test]
fn observe_records_only_matches() {
    let matcher = Matcher::new("never used", false, false).unwrap();
    let mut tw = Tripwire::new(matcher, Duration::from_secs(1), 2);
    let t0 = start();
    assert!(!tw.observe(true, t0));
    assert!(!tw.observe(false, t0));
    assert!(tw.observe(true, t0.plus(Duration::from_millis(10))));
}
