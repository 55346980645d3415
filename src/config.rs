//! Rate limiting configuration.

use vstd::prelude::*;

verus! {

/// Default for [`RateLimitConfig::enabled`].
pub fn default_enabled() -> (r: bool)
    ensures
        r == true,
{
    true
}

/// Default for [`RateLimitConfig::max_requests_per_window`].
pub fn default_max_requests() -> (r: u32)
    ensures
        r == 100,
{
    100
}

/// Default for [`RateLimitConfig::rate_window_secs`].
pub fn default_rate_window() -> (r: u64)
    ensures
        r == 60,
{
    60
}

/// Default for [`RateLimitConfig::max_login_attempts`].
pub fn default_max_login_attempts() -> (r: u32)
    ensures
        r == 5,
{
    5
}

/// Default for [`RateLimitConfig::lockout_duration_secs`].
pub fn default_lockout_duration() -> (r: u64)
    ensures
        r == 300,
{
    300
}

/// Rate limiting configuration, shared by both limiters.
#[derive(Clone, Copy, Debug, PartialEq, Eq, Structural)]
pub struct RateLimitConfig {
    /// When false, every check succeeds and nothing is recorded.
    pub enabled: bool,
    /// Maximum requests admitted per key within one window.
    pub max_requests_per_window: u32,
    /// Length of the sliding window, in seconds.
    pub rate_window_secs: u64,
    /// Failed login attempts within a window that trigger a lockout.
    pub max_login_attempts: u32,
    /// Length of a lockout, in seconds.
    pub lockout_duration_secs: u64,
}

impl RateLimitConfig {
    /// The configuration with every default value.
    pub open spec fn spec_default() -> RateLimitConfig {
        RateLimitConfig {
            enabled: true,
            max_requests_per_window: 100,
            rate_window_secs: 60,
            max_login_attempts: 5,
            lockout_duration_secs: 300,
        }
    }
}

impl Default for RateLimitConfig {
    fn default() -> (r: RateLimitConfig)
        ensures
            r == RateLimitConfig::spec_default(),
    {
        RateLimitConfig {
            enabled: default_enabled(),
            max_requests_per_window: default_max_requests(),
            rate_window_secs: default_rate_window(),
            max_login_attempts: default_max_login_attempts(),
            lockout_duration_secs: default_lockout_duration(),
        }
    }
}

} // verus!
