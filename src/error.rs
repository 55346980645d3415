//! Outcomes that reject a request or a login.

use vstd::prelude::*;

verus! {

/// Why a check refused admission.
#[derive(Clone, Copy, Debug, PartialEq, Eq, Structural)]
pub enum RateLimitError {
    /// The key used its whole budget within the current window.
    Exceeded { max_requests: u32, window_secs: u64 },
    /// The account is locked until the given time (seconds since the epoch).
    AccountLocked(u64),
}

} // verus!
