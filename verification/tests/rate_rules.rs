use ratelimitsub::rate::{rate_sub, Rate};

fn rate(events: u64, window: u64) -> Rate {
    Rate::new(events, window).unwrap()
}

#[test]
fn every_rate_is_a_subtype_of_itself() {
    for (e, w) in [(0, 1), (1, 1), (10, 3), (12, 4), (u64::MAX, 1), (7, u64::MAX), (u64::MAX, u64::MAX)] {
        let r = rate(e, w);
        assert!(rate_sub(&r, &r), "{}/{}", e, w);
    }
}

#[test]
fn scaling_rounds_the_number_of_windows_up() {
    // One window of 4 needs two windows of 3 to cover it, so 12 per 4 leaves 6 per 3.
    assert!(!rate_sub(&rate(10, 3), &rate(12, 4)));
    assert!(rate_sub(&rate(6, 3), &rate(12, 4)));
    assert!(!rate_sub(&rate(7, 3), &rate(12, 4)));
}

#[test]
fn scaling_by_a_whole_number_of_windows() {
    assert!(rate_sub(&rate(5, 2), &rate(10, 4)));
    assert!(!rate_sub(&rate(6, 2), &rate(10, 4)));
    assert!(rate_sub(&rate(1, 1), &rate(30, 30)));
    assert!(!rate_sub(&rate(2, 1), &rate(38, 30)));
}

#[test]
fn a_shorter_window_on_the_right_compares_the_events_alone() {
    assert!(rate_sub(&rate(10, 5), &rate(10, 3)));
    assert!(!rate_sub(&rate(11, 5), &rate(10, 3)));
    assert!(rate_sub(&rate(10, 5), &rate(10, 5)));
    assert!(rate_sub(&rate(0, 9), &rate(0, 2)));
}

#[test]
fn the_bound_may_round_down_to_nothing() {
    // 3 per 10 leaves 3 / 4 = 0 per 3.
    assert!(rate_sub(&rate(0, 3), &rate(3, 10)));
    assert!(!rate_sub(&rate(1, 3), &rate(3, 10)));
}

#[test]
fn extreme_windows_do_not_overflow() {
    assert!(rate_sub(&rate(1, 1), &rate(u64::MAX, u64::MAX)));
    assert!(!rate_sub(&rate(2, 1), &rate(u64::MAX, u64::MAX)));
    assert!(rate_sub(&rate(0, 2), &rate(0, u64::MAX)));
    assert!(rate_sub(&rate(u64::MAX, u64::MAX), &rate(u64::MAX, 1)));
}

#[test]
fn a_rate_needs_a_window() {
    assert_eq!(Rate::new(5, 0), None);
    let r = Rate::new(5, 1).unwrap();
    assert_eq!(r.events(), 5);
    assert_eq!(r.window(), 1);
}

#[test]
fn the_numeric_rule_chains() {
    let a = rate(3, 2);
    let b = rate(7, 4);
    let c = rate(30, 9);
    assert!(rate_sub(&a, &b));
    assert!(rate_sub(&b, &c));
    assert!(rate_sub(&a, &c));
}
