//! The rate over a sliding window.
use icehorn::time::{Moment, Span};
use icehorn::ui::speed::{SpeedTracker, BUCKET_SECS, NUM_BUCKETS, WINDOW_SECS};

fn at(secs: u64) -> Moment {
    Moment::at(Span::from_secs(1_000_000 + secs))
}

#[test]
fn discovery_idle_time_does_not_drag_down_first_rate() {
    let mut s = SpeedTracker::new();
    s.record(10_000_000, at(90));
    assert_eq!(s.bytes_per_sec(at(91)), Some(10_000_000));
}

#[test]
fn reports_none_before_first_record() {
    let mut s = SpeedTracker::new();
    assert_eq!(s.bytes_per_sec(at(0)), None);
    assert_eq!(s.bytes_per_sec(at(600)), None);
}

#[test]
fn reports_some_zero_after_activity_stops() {
    let mut s = SpeedTracker::new();
    s.record(1_000_000, at(0));
    assert_eq!(
        s.bytes_per_sec(at(WINDOW_SECS + BUCKET_SECS + 1)),
        Some(0)
    );
}

#[test]
fn divisor_saturates_at_window_secs() {
    let mut s = SpeedTracker::new();
    s.record(1_000_000, at(0));
    s.record(1_000_000, at(290));
    let rate = s.bytes_per_sec(at(310));
    assert_eq!(rate, Some(1_000_000 / WINDOW_SECS));
}

#[test]
fn partial_skip_only_clears_passed_buckets() {
    let mut s = SpeedTracker::new();
    s.record(600, at(0));
    s.record(900, at(BUCKET_SECS * 2));
    let elapsed = BUCKET_SECS * 2;
    assert_eq!(s.bytes_per_sec(at(elapsed)), Some((600 + 900) / elapsed));
}

#[test]
fn records_accumulate_within_one_bucket() {
    let mut s = SpeedTracker::new();
    s.record(100, at(0));
    s.record(200, at(5));
    s.record(300, at(14));
    assert_eq!(s.bytes_per_sec(at(14)), Some(600 / 14));
}

#[test]
fn window_is_all_buckets() {
    assert_eq!(WINDOW_SECS, BUCKET_SECS * NUM_BUCKETS as u64);
}

#[test]
fn nothing_is_recorded_of_no_bytes() {
    let mut s = SpeedTracker::new();
    s.record(500, at(10));
    s.record(0, at(11));
    assert_eq!(s.bytes_per_sec(at(10)), Some(500));
    assert_eq!(s.bytes_per_sec(at(20)), Some(50));
}

#[test]
fn no_bytes_do_not_start_the_count() {
    let mut s = SpeedTracker::new();
    s.record(0, at(0));
    assert_eq!(s.bytes_per_sec(at(0)), None);
    s.record(400, at(100));
    assert_eq!(s.bytes_per_sec(at(104)), Some(100));
}

#[test]
fn records_at_one_moment_are_one_record() {
    let mut twice = SpeedTracker::new();
    twice.record(700, at(3));
    twice.record(u64::MAX - 200, at(3));
    let mut once = SpeedTracker::new();
    once.record(u64::MAX, at(3));
    for secs in [3, 5, 100, 310, 400] {
        assert_eq!(twice.bytes_per_sec(at(secs)), once.bytes_per_sec(at(secs)));
    }
}

#[test]
fn asking_in_between_does_not_change_the_rate() {
    let mut asked = SpeedTracker::new();
    let mut quiet = SpeedTracker::new();
    for secs in [0, 20, 140, 290, 315] {
        asked.record(30_000, at(secs));
        quiet.record(30_000, at(secs));
        asked.bytes_per_sec(at(secs + 4));
    }
    // The buckets of the first two records have dropped out of the window.
    assert_eq!(quiet.bytes_per_sec(at(320)), Some(90_000 / WINDOW_SECS));
    assert_eq!(asked.bytes_per_sec(at(320)), Some(90_000 / WINDOW_SECS));
}
