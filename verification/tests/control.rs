use guillotine::control::{
    is_flagged, need_not_begin, stop_reason, was_last_round, watch, Control, Signals, Stop, Watch,
};
use std::sync::atomic::Ordering;
use std::time::{Duration, Instant};

#[test]
fn reasons_to_stop() {
    assert_eq!(stop_reason(0, true, false, 0, 10), Stop::Flagged);
    assert_eq!(stop_reason(1, false, true, 0, 10), Stop::Flagged);
    assert_eq!(stop_reason(16, false, false, 11, 10), Stop::Overdue);
    assert_eq!(stop_reason(16, false, false, 10, 10), Stop::Go);
    assert_eq!(stop_reason(17, false, false, 11, 10), Stop::Go);
}

#[test]
fn a_flag_stops_a_search() {
    let signals = Signals::new();
    let start = Instant::now();
    let mut control = Control::new(&signals, &start, 1000);
    assert!(!control.poll(0));
    signals.mark_found();
    assert!(signals.is_found() && signals.is_raised() && !signals.is_expired());
    assert!(control.poll(0));
    signals.reopen();
    assert!(!control.poll(0));
    signals.expire();
    assert!(signals.is_expired() && signals.is_raised());
    assert!(control.poll(5));
    assert_eq!(signals.total_iterations.load(Ordering::Relaxed), 4);
}

#[test]
fn the_clock_stops_all_searches() {
    let signals = Signals::new();
    let start = Instant::now();
    while start.elapsed() < Duration::from_millis(2) {}
    let mut control = Control::new(&signals, &start, 0);
    assert!(!control.poll(1));
    assert!(control.poll(32));
    assert!(signals.is_expired());
    assert!(control.poll(1));
}

#[test]
fn only_a_larger_area_is_reported() {
    let signals = Signals::new();
    let start = Instant::now();
    let control = Control::new(&signals, &start, 1000);
    control.report(100, 3);
    control.report(90, 5);
    control.report(100, 7);
    assert_eq!(signals.best_area.load(Ordering::Relaxed), 100);
    assert_eq!(signals.best_count.load(Ordering::Relaxed), 3);
    control.report(101, 2);
    assert_eq!(signals.best_count.load(Ordering::Relaxed), 2);
}

#[test]
fn another_task_keeps_that_the_time_is_up() {
    let signals = Signals::new();
    signals.mark_found();
    signals.expire();
    signals.branch_done();
    signals.best_area.store(5, Ordering::Relaxed);
    signals.start_task();
    assert!(!signals.is_found());
    assert!(signals.is_expired());
    assert_eq!(signals.best_area.load(Ordering::Relaxed), 0);
    assert_eq!(signals.branches_processed.load(Ordering::Relaxed), 0);
}

#[test]
fn either_flag_counts() {
    assert!(!is_flagged(false, false));
    assert!(is_flagged(true, false));
    assert!(is_flagged(false, true));
}

#[test]
fn searches_and_rounds_begin_in_time() {
    assert!(!need_not_begin(10, 10, false));
    assert!(need_not_begin(11, 10, false));
    assert!(need_not_begin(0, 10, true));
    assert!(!was_last_round(9, 10, false));
    assert!(was_last_round(10, 10, false));
    assert!(was_last_round(0, 10, true));
}

#[test]
fn nothing_begins_once_all_is_found() {
    let signals = Signals::new();
    let start = Instant::now();
    let mut control = Control::new(&signals, &start, 1000);
    assert!(!control.poll_start() && !control.poll_round());
    signals.mark_found();
    assert!(control.poll_start() && control.poll_round());
    signals.reopen();
    let mut no_time = Control::new(&signals, &start, 0);
    assert!(no_time.poll_round());
}

#[test]
fn the_watch_ends_with_the_searches_or_the_time() {
    assert_eq!(watch(true, false, 0, 10), Watch::Done);
    assert_eq!(watch(false, true, 20, 10), Watch::Done);
    assert_eq!(watch(false, false, 10, 10), Watch::Expire);
    assert_eq!(watch(false, false, 9, 10), Watch::GoOn);
    assert_eq!(watch(false, false, 0, 0), Watch::Expire);
}
