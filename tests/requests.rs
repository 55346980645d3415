use rate_limit::config::{
    default_enabled, default_lockout_duration, default_max_login_attempts, default_max_requests,
    default_rate_window,
};
use rate_limit::{RateLimitConfig, RateLimitError, RateLimiter};

const T0: u64 = 1_000_000;

fn config(max: u32, window: u64) -> RateLimitConfig {
    RateLimitConfig {
        enabled: true,
        max_requests_per_window: max,
        rate_window_secs: window,
        max_login_attempts: 5,
        lockout_duration_secs: 300,
    }
}

#[test]
fn defaults_match_documented_values() {
    assert!(default_enabled());
    assert_eq!(default_max_requests(), 100);
    assert_eq!(default_rate_window(), 60);
    assert_eq!(default_max_login_attempts(), 5);
    assert_eq!(default_lockout_duration(), 300);
    let c = RateLimitConfig::default();
    assert!(c.enabled);
    assert_eq!(c.max_requests_per_window, 100);
    assert_eq!(c.rate_window_secs, 60);
    assert_eq!(c.max_login_attempts, 5);
    assert_eq!(c.lockout_duration_secs, 300);
}

#[test]
fn nth_request_within_budget_succeeds_and_next_fails() {
    let mut l = RateLimiter::new(config(3, 60));
    for _ in 0..3 {
        assert_eq!(l.check_rate_limit_at("1.2.3.4:/api", T0), Ok(()));
    }
    assert_eq!(
        l.check_rate_limit_at("1.2.3.4:/api", T0 + 10),
        Err(RateLimitError::Exceeded { max_requests: 3, window_secs: 60 })
    );
    // another key has its own budget
    assert_eq!(l.check_rate_limit_at("5.6.7.8:/api", T0 + 10), Ok(()));
}

#[test]
fn rejected_requests_are_not_counted() {
    let max: u32 = 7;
    let mut l = RateLimiter::new(config(max, 60));
    let mut ok = 0;
    for _ in 0..(max + 5) {
        if l.check_rate_limit_at("k", T0).is_ok() {
            ok += 1;
        }
    }
    assert_eq!(ok, max);
    assert_eq!(l.history("k").len(), max as usize);
}

#[test]
fn window_slides_past_old_requests() {
    let mut l = RateLimiter::new(config(2, 60));
    assert_eq!(l.check_rate_limit_at("k", T0), Ok(()));
    assert_eq!(l.check_rate_limit_at("k", T0), Ok(()));
    assert!(l.check_rate_limit_at("k", T0).is_err());
    // a second past one window later the old entries have expired
    assert_eq!(l.check_rate_limit_at("k", T0 + 61), Ok(()));
    assert_eq!(l.history("k"), vec![T0 + 61]);
}

#[test]
fn boundary_timestamp_is_outside_the_window() {
    let mut l = RateLimiter::new(config(1, 60));
    assert_eq!(l.check_rate_limit_at("k", T0), Ok(()));
    assert!(l.check_rate_limit_at("k", T0 + 59).is_err());
    assert_eq!(l.check_rate_limit_at("k", T0 + 60), Ok(()));
}

#[test]
fn disabled_limiter_admits_all_and_records_nothing() {
    let mut c = config(1, 60);
    c.enabled = false;
    let mut l = RateLimiter::new(c);
    for i in 0..10 {
        assert_eq!(l.check_rate_limit_at("k", T0 + i), Ok(()));
    }
    assert!(l.history("k").is_empty());
    l.cleanup_at(T0);
    assert!(l.history("k").is_empty());
}

#[test]
fn zero_budget_rejects_everything() {
    let mut l = RateLimiter::new(config(0, 60));
    assert_eq!(
        l.check_rate_limit_at("k", T0),
        Err(RateLimitError::Exceeded { max_requests: 0, window_secs: 60 })
    );
}

#[test]
fn sweep_prunes_and_drops_stale_keys() {
    let mut l = RateLimiter::new(config(10, 60));
    assert_eq!(l.check_rate_limit_at("old", T0), Ok(()));
    assert_eq!(l.check_rate_limit_at("mixed", T0), Ok(()));
    assert_eq!(l.check_rate_limit_at("mixed", T0 + 50), Ok(()));
    assert_eq!(l.check_rate_limit_at("new", T0 + 70), Ok(()));
    l.cleanup_at(T0 + 70);
    assert!(l.history("old").is_empty());
    assert_eq!(l.history("mixed"), vec![T0 + 50]);
    assert_eq!(l.history("new"), vec![T0 + 70]);
    l.cleanup_at(T0 + 70);
    assert!(l.history("old").is_empty());
    assert_eq!(l.history("mixed"), vec![T0 + 50]);
    assert_eq!(l.history("new"), vec![T0 + 70]);
}

#[test]
fn clock_driven_check_records_current_time() {
    let mut l = RateLimiter::new(config(1, 3600));
    assert_eq!(l.check_rate_limit("k"), Ok(()));
    let h = l.history("k");
    assert_eq!(h.len(), 1);
    assert!(h[0] > 1_600_000_000);
    assert!(l.check_rate_limit("k").is_err());
    l.cleanup();
    assert_eq!(l.history("k").len(), 1);
    assert_eq!(l.config().max_requests_per_window, 1);
}

#[test]
fn serialised_callers_admit_exactly_the_budget() {
    let budget: u32 = 4;
    let mut l = RateLimiter::new(config(budget, 60));
    let callers = 10;
    let results: Vec<bool> = (0..callers).map(|_| l.check_rate_limit_at("k", T0).is_ok()).collect();
    assert_eq!(results.iter().filter(|r| **r).count(), budget as usize);
    assert_eq!(results.iter().filter(|r| !**r).count(), callers - budget as usize);
}

#[test]
fn requests_at_time_zero_are_counted() {
    let mut l = RateLimiter::new(config(2, 60));
    assert_eq!(l.check_rate_limit_at("k", 0), Ok(()));
    assert_eq!(l.check_rate_limit_at("k", 0), Ok(()));
    assert_eq!(
        l.check_rate_limit_at("k", 0),
        Err(RateLimitError::Exceeded { max_requests: 2, window_secs: 60 })
    );
    assert_eq!(l.history("k"), vec![0, 0]);
    assert_eq!(l.check_rate_limit_at("k", 61), Ok(()));
    assert_eq!(l.history("k"), vec![61]);
}

#[test]
fn early_history_stays_inside_the_window() {
    let mut l = RateLimiter::new(config(2, 60));
    assert_eq!(l.check_rate_limit_at("k", 0), Ok(()));
    assert_eq!(l.check_rate_limit_at("k", 10), Ok(()));
    assert_eq!(l.history("k"), vec![0, 10]);
    assert!(l.check_rate_limit_at("k", 20).is_err());
    l.cleanup_at(10);
    assert_eq!(l.history("k"), vec![0, 10]);
}

#[test]
fn budget_holds_across_times_in_one_window() {
    let mut l = RateLimiter::new(config(3, 60));
    let times = [T0, T0 + 5, T0 + 20, T0 + 30, T0 + 59, T0 + 59];
    let ok: Vec<bool> = times.iter().map(|t| l.check_rate_limit_at("k", *t).is_ok()).collect();
    assert_eq!(ok, vec![true, true, true, false, false, false]);
    assert_eq!(l.history("k"), vec![T0, T0 + 5, T0 + 20]);
}

#[test]
fn backward_clock_keeps_future_timestamps() {
    let mut l = RateLimiter::new(config(1, 60));
    assert_eq!(l.check_rate_limit_at("k", T0 + 500), Ok(()));
    // the clock steps back far; the later timestamp still counts
    assert!(l.check_rate_limit_at("k", T0).is_err());
    l.cleanup_at(T0);
    assert_eq!(l.history("k"), vec![T0 + 500]);
}
