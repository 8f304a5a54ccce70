use botcore::rate_limit::RateLimiter;

#[test]
fn quota_exhausts_and_recovers() {
    let mut limiter = RateLimiter::new(2, 10);
    assert!(limiter.try_consume(1, 100));
    assert!(limiter.try_consume(1, 100));
    assert!(!limiter.try_consume(1, 100));
    // A full window later the key is fresh again.
    assert!(limiter.try_consume(1, 110));
}

#[test]
fn distinct_keys_do_not_interact() {
    let mut limiter = RateLimiter::new(1, 60);
    assert!(limiter.try_consume(1, 0));
    assert!(!limiter.try_consume(1, 0));
    // Key 1 being exhausted leaves key 2 untouched.
    assert!(limiter.try_consume(2, 0));
}

#[test]
fn denied_attempt_is_not_recorded() {
    let mut limiter = RateLimiter::new(1, 10);
    assert!(limiter.try_consume(1, 0));
    assert!(!limiter.try_consume(1, 5));
    // The consumption at 0 has left the window; the denial at 5 must not
    // have been recorded, or this would still be denied.
    assert!(limiter.try_consume(1, 10));
}

#[test]
fn end_to_end_two_users() {
    let mut limiter = RateLimiter::new(3, 60);
    let user1 = 1001;
    let user2 = 1002;
    assert!(limiter.try_consume(user1, 0));
    assert!(limiter.try_consume(user1, 1));
    assert!(limiter.try_consume(user1, 2));
    // The fourth attempt within the same minute is denied.
    assert!(!limiter.try_consume(user1, 30));
    // Another user right after still succeeds.
    assert!(limiter.try_consume(user2, 30));
}
