use newsletter_core::limiter::IpRateLimiter;

const SECOND: u64 = 1_000_000_000;

#[test]
fn three_rapid_then_reject_then_prune() {
    let mut l = IpRateLimiter::new();
    assert!(l.allow("ip1", 3, SECOND, 0));
    assert!(l.allow("ip1", 3, SECOND, 1));
    assert!(l.allow("ip1", 3, SECOND, 2));
    assert!(!l.allow("ip1", 3, SECOND, 3));
    assert!(l.allow("ip1", 3, SECOND, SECOND + 100_000_000));
}

#[test]
fn two_keys_do_not_interfere() {
    let mut l = IpRateLimiter::new();
    assert!(l.allow("ip1", 1, 10 * SECOND, 0));
    assert!(l.allow("ip2", 1, 10 * SECOND, 1));
}

#[test]
fn zero_max_always_rejects() {
    let mut l = IpRateLimiter::new();
    assert!(!l.allow("ip1", 0, SECOND, 0));
    assert!(!l.allow("ip1", 0, 0, 5));
    assert!(!l.allow("other", 0, u64::MAX, 17));
    assert!(l.allow("ip1", 5, SECOND, 6));
    assert!(!l.allow("ip1", 0, SECOND, 7));
}

#[test]
fn boundary_exactly_window_rejects_beyond_admits() {
    let w = 7 * SECOND;
    let mut l = IpRateLimiter::new();
    assert!(l.allow("k", 1, w, 100));
    assert!(!l.allow("k", 1, w, 100 + w));
    assert!(l.allow("k", 1, w, 100 + w + 1));
}

#[test]
fn empty_string_is_a_distinct_key() {
    let mut l = IpRateLimiter::new();
    assert!(l.allow("", 1, 10 * SECOND, 0));
    assert!(l.allow("x", 1, 10 * SECOND, 1));
    assert!(!l.allow("", 1, 10 * SECOND, 2));
}

#[test]
fn changed_limit_applies_retroactively() {
    let mut l = IpRateLimiter::new();
    assert!(l.allow("k", 5, 10 * SECOND, 0));
    assert!(l.allow("k", 5, 10 * SECOND, 1));
    assert!(!l.allow("k", 2, 10 * SECOND, 2));
    assert!(l.allow("k", 3, 10 * SECOND, 3));
}

#[test]
fn zero_window_keeps_only_the_current_instant() {
    let mut l = IpRateLimiter::new();
    assert!(l.allow("k", 1, 0, 5));
    assert!(!l.allow("k", 1, 0, 5));
    assert!(l.allow("k", 1, 0, 6));
}

#[test]
fn rejected_calls_are_not_recorded() {
    let mut l = IpRateLimiter::new();
    assert!(l.allow("k", 1, 10, 0));
    assert!(!l.allow("k", 1, 10, 1));
    assert!(!l.allow("k", 1, 10, 2));
    assert!(l.allow("k", 1, 10, 11));
}
