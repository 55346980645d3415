//! Sliding-window request limiter.

use vstd::prelude::*;

use crate::clock::now_secs;
use crate::config::RateLimitConfig;
use crate::error::RateLimitError;
use crate::table::{agrees, seen, Table};
use crate::window::{prune, recent, window_start};

verus! {

/// The timestamps recorded for `key`, or none for a key never seen.
pub open spec fn stamps_of(m: Map<Seq<char>, Seq<u64>>, key: Seq<char>) -> Seq<u64> {
    if m.contains_key(key) {
        m[key]
    } else {
        Seq::empty()
    }
}

/// History and outcome of one request for `key` at time `now`.
///
/// The window is the `rate_window_secs` seconds ending at `now`, with its
/// start taken as `now - rate_window_secs` over the integers, so nothing is
/// stale while `now` is below the window length. When the clock goes
/// backward, a timestamp later than `now` is still inside the window: it
/// keeps counting until the clock has passed it by a whole window.
pub open spec fn rate_step(
    config: RateLimitConfig,
    m: Map<Seq<char>, Seq<u64>>,
    key: Seq<char>,
    now: u64,
) -> (Map<Seq<char>, Seq<u64>>, Result<(), RateLimitError>) {
    if !config.enabled {
        (m, Ok(()))
    } else {
        let kept = recent(stamps_of(m, key), window_start(now, config.rate_window_secs));
        if kept.len() >= config.max_requests_per_window {
            (
                m.insert(key, kept),
                Err(
                    RateLimitError::Exceeded {
                        max_requests: config.max_requests_per_window,
                        window_secs: config.rate_window_secs,
                    },
                ),
            )
        } else {
            (m.insert(key, kept.push(now)), Ok(()))
        }
    }
}

/// History after a sweep at time `now`: stale timestamps pruned, keys left
/// without any removed.
pub open spec fn rate_swept(
    config: RateLimitConfig,
    m: Map<Seq<char>, Seq<u64>>,
    now: u64,
) -> Map<Seq<char>, Seq<u64>> {
    let start = window_start(now, config.rate_window_secs);
    Map::new(
        |k: Seq<char>| m.contains_key(k) && recent(m[k], start).len() > 0,
        |k: Seq<char>| recent(m[k], start),
    )
}

/// Per-key sliding-window request limiter.
pub struct RateLimiter {
    config: RateLimitConfig,
    attempts: Table<Vec<u64>>,
}

impl View for RateLimiter {
    type V = Map<Seq<char>, Seq<u64>>;

    /// The timestamps recorded for each key.
    closed spec fn view(&self) -> Map<Seq<char>, Seq<u64>> {
        self.attempts@.map_values(|v: Vec<u64>| v@)
    }
}

impl RateLimiter {
    /// The configuration the limiter was made with.
    pub closed spec fn spec_config(&self) -> RateLimitConfig {
        self.config
    }

    /// Internal consistency of the per-key table.
    pub closed spec fn wf(&self) -> bool {
        self.attempts.wf()
    }

    /// A limiter with no history.
    pub fn new(config: RateLimitConfig) -> (r: RateLimiter)
        ensures
            r.wf(),
            r.spec_config() == config,
            r@ == Map::<Seq<char>, Seq<u64>>::empty(),
    {
        let r = RateLimiter { config, attempts: Table::new() };
        proof {
            assert(r@ =~= Map::<Seq<char>, Seq<u64>>::empty());
        }
        r
    }

    /// The configuration the limiter was made with.
    pub fn config(&self) -> (r: RateLimitConfig)
        ensures
            r == self.spec_config(),
    {
        self.config
    }

    /// The timestamps currently recorded for `key`, oldest first.
    pub fn history(&self, key: &str) -> (r: Vec<u64>)
        requires
            self.wf(),
        ensures
            r@ == stamps_of(self@, key@),
    {
        let k = key.to_owned();
        match self.attempts.get(&k) {
            Some(v) => {
                let mut out: Vec<u64> = Vec::new();
                let n = v.len();
                for i in 0..n
                    invariant
                        n == v@.len(),
                        out@ == v@.subrange(0, i as int),
                {
                    out.push(v[i]);
                }
                proof {
                    assert(out@ =~= v@);
                }
                out
            },
            None => Vec::new(),
        }
    }

    /// Admits or rejects one request for `key` at time `now` (seconds since
    /// the epoch). An admitted request is recorded; a rejected one is not.
    pub fn check_rate_limit_at(&mut self, key: &str, now: u64) -> (r: Result<(), RateLimitError>)
        requires
            old(self).wf(),
        ensures
            final(self).wf(),
            final(self).spec_config() == old(self).spec_config(),
            (final(self)@, r) == rate_step(old(self).spec_config(), old(self)@, key@, now),
    {
        if !self.config.enabled {
            return Ok(());
        }
        let k = key.to_owned();
        let mut stamps = match self.attempts.take(&k) {
            Some(v) => v,
            None => Vec::new(),
        };
        prune(&mut stamps, now, self.config.rate_window_secs);
        if stamps.len() >= self.config.max_requests_per_window as usize {
            let ghost kept = stamps@;
            self.attempts.insert(k, stamps);
            proof {
                assert(self@ =~= old(self)@.insert(key@, kept));
            }
            return Err(
                RateLimitError::Exceeded {
                    max_requests: self.config.max_requests_per_window,
                    window_secs: self.config.rate_window_secs,
                },
            );
        }
        stamps.push(now);
        let ghost kept = stamps@;
        self.attempts.insert(k, stamps);
        proof {
            assert(self@ =~= old(self)@.insert(key@, kept));
        }
        Ok(())
    }

    /// Admits or rejects one request for `key` at the current time.
    pub fn check_rate_limit(&mut self, key: &str) -> (r: Result<(), RateLimitError>)
        requires
            old(self).wf(),
        ensures
            final(self).wf(),
            final(self).spec_config() == old(self).spec_config(),
            exists|now: u64|
                (final(self)@, r) == rate_step(old(self).spec_config(), old(self)@, key@, now),
    {
        let now = now_secs();
        self.check_rate_limit_at(key, now)
    }

    /// Prunes every key's timestamps to the window ending at `now` and drops
    /// keys left with none.
    pub fn cleanup_at(&mut self, now: u64)
        requires
            old(self).wf(),
        ensures
            final(self).wf(),
            final(self).spec_config() == old(self).spec_config(),
            final(self)@ == rate_swept(old(self).spec_config(), old(self)@, now),
    {
        let keys = self.attempts.keys();
        let ghost m0 = self@;
        let ghost target = rate_swept(self.config, m0, now);
        let n = keys.len();
        let mut i: usize = 0;
        while i < n
            invariant
                i <= n,
                n == keys@.len(),
                self.wf(),
                self.config == old(self).config,
                target == rate_swept(self.config, m0, now),
                forall|a: int, b: int|
                    0 <= a < b < keys@.len() ==> #[trigger] keys@[a]@ != #[trigger] keys@[b]@,
                forall|a: int| 0 <= a < keys@.len() ==> m0.contains_key(#[trigger] keys@[a]@),
                forall|k: Seq<char>|
                    #[trigger] m0.contains_key(k) ==> seen(keys@, n as int, k),
                forall|k: Seq<char>|
                    #[trigger] seen(keys@, i as int, k) ==> agrees(self@, target, k),
                forall|k: Seq<char>|
                    !#[trigger] seen(keys@, i as int, k) ==> agrees(self@, m0, k),
            decreases n - i,
        {
            let ghost before = self@;
            let ghost ki = keys@[i as int]@;
            assert(!seen(keys@, i as int, ki)) by {
                if seen(keys@, i as int, ki) {
                    let a = choose|a: int| 0 <= a < i && #[trigger] keys@[a]@ == ki;
                    assert(keys@[a]@ != keys@[i as int]@);
                }
            }
            assert(m0.contains_key(ki));
            assert(agrees(before, m0, ki));
            match self.attempts.take(&keys[i]) {
                Some(mut v) => {
                    prune(&mut v, now, self.config.rate_window_secs);
                    if v.len() > 0 {
                        let ghost kept = v@;
                        self.attempts.insert(keys[i].clone(), v);
                        assert(self@ =~= before.insert(ki, kept));
                    } else {
                        assert(self@ =~= before.remove(ki));
                    }
                },
                None => {},
            }
            proof {
                assert forall|k: Seq<char>| #[trigger] seen(keys@, i + 1, k) implies agrees(
                    self@,
                    target,
                    k,
                ) by {
                    if k != ki {
                        let a = choose|a: int| 0 <= a < i + 1 && #[trigger] keys@[a]@ == k;
                        assert(seen(keys@, i as int, k));
                    }
                }
                assert forall|k: Seq<char>| !#[trigger] seen(keys@, i + 1, k) implies agrees(
                    self@,
                    m0,
                    k,
                ) by {
                    assert(keys@[i as int]@ == ki);
                    assert(k != ki);
                    if seen(keys@, i as int, k) {
                        let a = choose|a: int| 0 <= a < i && #[trigger] keys@[a]@ == k;
                        assert(seen(keys@, i + 1, k));
                    }
                }
            }
            i = i + 1;
        }
        proof {
            assert forall|k: Seq<char>| agrees(self@, target, k) by {
                if m0.contains_key(k) {
                    assert(seen(keys@, n as int, k));
                } else if seen(keys@, n as int, k) {
                    let a = choose|a: int| 0 <= a < n && #[trigger] keys@[a]@ == k;
                    assert(m0.contains_key(keys@[a]@));
                } else {
                    assert(agrees(self@, m0, k));
                }
            }
            assert forall|k: Seq<char>| #[trigger] self@.contains_key(k) == target.contains_key(k)
                by {
                assert(agrees(self@, target, k));
            }
            assert forall|k: Seq<char>| #[trigger] target.contains_key(k) implies self@[k]
                == target[k] by {
                assert(agrees(self@, target, k));
            }
            assert(self@ =~= target);
        }
    }

    /// Sweeps stale history at the current time.
    pub fn cleanup(&mut self)
        requires
            old(self).wf(),
        ensures
            final(self).wf(),
            final(self).spec_config() == old(self).spec_config(),
            exists|now: u64| final(self)@ == rate_swept(old(self).spec_config(), old(self)@, now),
    {
        let now = now_secs();
        self.cleanup_at(now);
    }
}

} // verus!
