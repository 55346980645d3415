use rate_limit::{LoginRateLimiter, RateLimitConfig, RateLimitError};

const T0: u64 = 2_000_000;

fn config(max: u32) -> RateLimitConfig {
    RateLimitConfig {
        enabled: true,
        max_requests_per_window: 100,
        rate_window_secs: 60,
        max_login_attempts: max,
        lockout_duration_secs: 300,
    }
}

#[test]
fn five_failures_lock_the_account() {
    let mut l = LoginRateLimiter::new(config(5));
    for i in 0..5 {
        assert_eq!(l.check_login_attempt_at("alice", T0 + i), Ok(()));
        l.record_failed_attempt_at("alice", T0 + i);
    }
    assert_eq!(
        l.check_login_attempt_at("alice", T0 + 5),
        Err(RateLimitError::AccountLocked(T0 + 5 + 300))
    );
    assert_eq!(l.locked_until("alice"), Some(T0 + 305));
    // still locked later, with the same deadline
    assert_eq!(
        l.check_login_attempt_at("alice", T0 + 100),
        Err(RateLimitError::AccountLocked(T0 + 305))
    );
    // other identifiers are unaffected
    assert_eq!(l.check_login_attempt_at("bob", T0 + 5), Ok(()));
}

#[test]
fn four_failures_do_not_lock() {
    let mut l = LoginRateLimiter::new(config(5));
    for _ in 0..4 {
        l.record_failed_attempt_at("alice", T0);
    }
    assert_eq!(l.check_login_attempt_at("alice", T0), Ok(()));
    assert_eq!(l.locked_until("alice"), None);
}

#[test]
fn check_does_not_count_as_failure() {
    let mut l = LoginRateLimiter::new(config(2));
    for _ in 0..10 {
        assert_eq!(l.check_login_attempt_at("alice", T0), Ok(()));
    }
    assert_eq!(l.attempt_count("alice"), 0);
}

#[test]
fn clearing_resets_to_never_seen() {
    let mut l = LoginRateLimiter::new(config(5));
    for _ in 0..5 {
        l.record_failed_attempt_at("alice", T0);
    }
    assert!(l.check_login_attempt_at("alice", T0).is_err());
    l.clear_attempts("alice");
    assert!(!l.is_tracked("alice"));
    assert_eq!(l.attempt_count("alice"), 0);
    assert_eq!(l.locked_until("alice"), None);
    assert_eq!(l.check_login_attempt_at("alice", T0), Ok(()));
}

#[test]
fn expired_lockout_clears_history() {
    let mut l = LoginRateLimiter::new(config(5));
    for _ in 0..5 {
        l.record_failed_attempt_at("alice", T0);
    }
    assert_eq!(l.check_login_attempt_at("alice", T0), Err(RateLimitError::AccountLocked(T0 + 300)));
    let later = T0 + 300;
    assert_eq!(l.check_login_attempt_at("alice", later), Ok(()));
    assert_eq!(l.attempt_count("alice"), 0);
    assert_eq!(l.locked_until("alice"), None);
    // one new failure is not enough to lock again
    l.record_failed_attempt_at("alice", later);
    assert_eq!(l.check_login_attempt_at("alice", later), Ok(()));
    for _ in 0..4 {
        l.record_failed_attempt_at("alice", later);
    }
    assert_eq!(
        l.check_login_attempt_at("alice", later),
        Err(RateLimitError::AccountLocked(later + 300))
    );
}

#[test]
fn old_failures_fall_out_of_the_window() {
    let mut l = LoginRateLimiter::new(config(3));
    l.record_failed_attempt_at("alice", T0);
    l.record_failed_attempt_at("alice", T0);
    l.record_failed_attempt_at("alice", T0 + 30);
    assert_eq!(l.check_login_attempt_at("alice", T0 + 61), Ok(()));
    assert_eq!(l.attempt_count("alice"), 1);
}

#[test]
fn disabled_login_limiter_admits_all() {
    let mut c = config(1);
    c.enabled = false;
    let mut l = LoginRateLimiter::new(c);
    for _ in 0..3 {
        l.record_failed_attempt_at("alice", T0);
    }
    assert_eq!(l.check_login_attempt_at("alice", T0), Ok(()));
    assert_eq!(l.locked_until("alice"), None);
}

#[test]
fn lockout_deadline_saturates() {
    let mut c = config(1);
    c.lockout_duration_secs = u64::MAX;
    let mut l = LoginRateLimiter::new(c);
    l.record_failed_attempt_at("alice", T0);
    assert_eq!(l.check_login_attempt_at("alice", T0), Err(RateLimitError::AccountLocked(u64::MAX)));
}

#[test]
fn login_sweep_keeps_locked_and_recent() {
    let mut l = LoginRateLimiter::new(config(2));
    l.record_failed_attempt_at("locked", T0);
    l.record_failed_attempt_at("locked", T0);
    assert!(l.check_login_attempt_at("locked", T0).is_err());
    l.record_failed_attempt_at("stale", T0);
    l.record_failed_attempt_at("recent", T0 + 100);
    l.cleanup_at(T0 + 100);
    assert!(l.is_tracked("locked"));
    assert_eq!(l.attempt_count("locked"), 2);
    assert_eq!(l.locked_until("locked"), Some(T0 + 300));
    assert!(!l.is_tracked("stale"));
    assert_eq!(l.attempt_count("recent"), 1);
    l.cleanup_at(T0 + 100);
    assert!(l.is_tracked("locked"));
    assert!(!l.is_tracked("stale"));
    assert_eq!(l.attempt_count("recent"), 1);
    // after the lockout has passed and its attempts are stale, it is dropped
    l.cleanup_at(T0 + 400);
    assert!(!l.is_tracked("locked"));
}

#[test]
fn clock_driven_login_calls() {
    let mut l = LoginRateLimiter::new(config(1));
    assert_eq!(l.check_login_attempt("alice"), Ok(()));
    l.record_failed_attempt("alice");
    match l.check_login_attempt("alice") {
        Err(RateLimitError::AccountLocked(t)) => assert!(t > 1_600_000_000),
        other => panic!("expected a lockout, got {:?}", other),
    }
    l.cleanup();
    assert!(l.is_tracked("alice"));
    assert_eq!(l.config().max_login_attempts, 1);
}

#[test]
fn attempts_at_time_zero_count_toward_lockout() {
    let mut l = LoginRateLimiter::new(config(2));
    l.record_failed_attempt_at("alice", 0);
    assert_eq!(l.check_login_attempt_at("alice", 10), Ok(()));
    assert_eq!(l.attempt_count("alice"), 1);
    l.record_failed_attempt_at("alice", 5);
    assert_eq!(l.check_login_attempt_at("alice", 10), Err(RateLimitError::AccountLocked(310)));
    let mut one = LoginRateLimiter::new(config(1));
    one.record_failed_attempt_at("bob", 0);
    assert_eq!(one.check_login_attempt_at("bob", 10), Err(RateLimitError::AccountLocked(310)));
}

#[test]
fn lockout_holds_when_clock_goes_backward() {
    let mut l = LoginRateLimiter::new(config(1));
    l.record_failed_attempt_at("alice", T0);
    assert_eq!(l.check_login_attempt_at("alice", T0), Err(RateLimitError::AccountLocked(T0 + 300)));
    assert_eq!(l.check_login_attempt_at("alice", T0 - 1000), Err(RateLimitError::AccountLocked(T0 + 300)));
    l.cleanup_at(T0 - 1000);
    assert_eq!(l.locked_until("alice"), Some(T0 + 300));
    assert_eq!(l.check_login_attempt_at("alice", T0 + 300), Ok(()));
}

#[test]
fn failures_spread_over_a_window_lock() {
    let mut l = LoginRateLimiter::new(config(3));
    l.record_failed_attempt_at("alice", T0);
    l.record_failed_attempt_at("alice", T0 + 20);
    assert_eq!(l.check_login_attempt_at("alice", T0 + 40), Ok(()));
    l.record_failed_attempt_at("alice", T0 + 40);
    assert_eq!(l.check_login_attempt_at("alice", T0 + 59), Err(RateLimitError::AccountLocked(T0 + 359)));
}
