use getquotes::throttle::{ApiThrottler, CALL_WINDOW_NANOS};

#[test]
fn no_wait_under_the_limit() {
    let mut t = ApiThrottler::new(2);
    assert_eq!(t.throttle(0), 0);
    assert_eq!(t.throttle(1_000), 0);
}

#[test]
fn waits_until_the_oldest_call_is_a_minute_old() {
    let mut t = ApiThrottler::new(2);
    assert_eq!(t.throttle(0), 0);
    assert_eq!(t.throttle(10), 0);
    assert_eq!(t.throttle(20), CALL_WINDOW_NANOS - 20);
    // A minute and more after the first call, it is forgotten.
    assert_eq!(t.throttle(CALL_WINDOW_NANOS + 11), 0);
}

#[test]
fn zero_limit_waits_for_any_recent_call() {
    let mut t = ApiThrottler::new(0);
    assert_eq!(t.throttle(5), 0);
    assert_eq!(t.throttle(6), CALL_WINDOW_NANOS - 1);
}

#[test]
fn call_exactly_a_minute_old_still_counts() {
    let mut t = ApiThrottler::new(1);
    assert_eq!(t.throttle(0), 0);
    // At exactly one minute the first call is not older than the window, but its
    // window has ended, so there is no wait.
    assert_eq!(t.throttle(CALL_WINDOW_NANOS), 0);
    assert_eq!(t.throttle(CALL_WINDOW_NANOS + 1), CALL_WINDOW_NANOS - 1);
}
