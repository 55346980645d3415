//! Admission control for a service: a sliding-window request limiter and a
//! login limiter with temporary account lockout.

use vstd::prelude::*;

mod clock;
pub mod config;
pub mod error;
pub mod laws;
pub mod limiter;
pub mod login;
pub mod table;
pub mod window;

pub use config::RateLimitConfig;
pub use error::RateLimitError;
pub use limiter::RateLimiter;
pub use login::LoginRateLimiter;

verus! {

} // verus!
