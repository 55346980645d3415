//! Login limiter with temporary account lockout.

use vstd::prelude::*;

use crate::clock::now_secs;
use crate::config::RateLimitConfig;
use crate::error::RateLimitError;
use crate::table::{agrees, seen, Table};
use crate::window::{prune, recent, window_start};

verus! {

/// What is known of one identifier: its failed attempts, oldest first, and
/// the end of its lockout, if one was set.
pub struct LoginRecord {
    pub attempts: Seq<u64>,
    pub locked_until: Option<u64>,
}

/// The record of an identifier never seen.
pub open spec fn fresh_record() -> LoginRecord {
    LoginRecord { attempts: Seq::empty(), locked_until: None }
}

/// The record held for `key`, or a fresh one.
pub open spec fn record_of(m: Map<Seq<char>, LoginRecord>, key: Seq<char>) -> LoginRecord {
    if m.contains_key(key) {
        m[key]
    } else {
        fresh_record()
    }
}

/// The lockout is still running at `now`.
pub open spec fn is_locked(r: LoginRecord, now: u64) -> bool {
    match r.locked_until {
        Some(t) => now < t,
        None => false,
    }
}

/// End of a lockout that starts at `now`, saturating at the largest time.
pub open spec fn lock_deadline(now: u64, duration: u64) -> u64 {
    if now + duration <= u64::MAX {
        (now + duration) as u64
    } else {
        u64::MAX
    }
}

/// Records and outcome of one login permission check for `key` at `now`.
///
/// Attempts are counted over the same window as requests. When the clock
/// goes backward, an attempt later than `now` still counts, and a lockout
/// holds for as long as `now` is before its deadline, however far back the
/// clock went.
pub open spec fn login_step(
    config: RateLimitConfig,
    m: Map<Seq<char>, LoginRecord>,
    key: Seq<char>,
    now: u64,
) -> (Map<Seq<char>, LoginRecord>, Result<(), RateLimitError>) {
    let rec = record_of(m, key);
    if !config.enabled {
        (m, Ok(()))
    } else if is_locked(rec, now) {
        (m.insert(key, rec), Err(RateLimitError::AccountLocked(rec.locked_until.unwrap())))
    } else {
        let base = if rec.locked_until is Some {
            Seq::empty()
        } else {
            rec.attempts
        };
        let kept = recent(base, window_start(now, config.rate_window_secs));
        if kept.len() >= config.max_login_attempts {
            let deadline = lock_deadline(now, config.lockout_duration_secs);
            (
                m.insert(key, LoginRecord { attempts: kept, locked_until: Some(deadline) }),
                Err(RateLimitError::AccountLocked(deadline)),
            )
        } else {
            (m.insert(key, LoginRecord { attempts: kept, locked_until: None }), Ok(()))
        }
    }
}

/// Records after a failed attempt for `key` at `now`.
pub open spec fn failure_step(
    m: Map<Seq<char>, LoginRecord>,
    key: Seq<char>,
    now: u64,
) -> Map<Seq<char>, LoginRecord> {
    let rec = record_of(m, key);
    m.insert(key, LoginRecord { attempts: rec.attempts.push(now), locked_until: rec.locked_until })
}

/// What a sweep at `now` keeps of one record that is not locked.
pub open spec fn swept_record(config: RateLimitConfig, r: LoginRecord, now: u64) -> LoginRecord {
    LoginRecord {
        attempts: recent(r.attempts, window_start(now, config.rate_window_secs)),
        locked_until: r.locked_until,
    }
}

/// Records after a sweep at `now`: locked identifiers kept as they are, the
/// others pruned and dropped when no attempt is left.
pub open spec fn login_swept(
    config: RateLimitConfig,
    m: Map<Seq<char>, LoginRecord>,
    now: u64,
) -> Map<Seq<char>, LoginRecord> {
    Map::new(
        |k: Seq<char>|
            m.contains_key(k) && (is_locked(m[k], now) || swept_record(
                config,
                m[k],
                now,
            ).attempts.len() > 0),
        |k: Seq<char>|
            if is_locked(m[k], now) {
                m[k]
            } else {
                swept_record(config, m[k], now)
            },
    )
}

struct LoginAttemptInfo {
    attempts: Vec<u64>,
    locked_until: Option<u64>,
}

impl View for LoginAttemptInfo {
    type V = LoginRecord;

    closed spec fn view(&self) -> LoginRecord {
        LoginRecord { attempts: self.attempts@, locked_until: self.locked_until }
    }
}

/// Login limiter: counts failed attempts per identifier and locks an
/// identifier out after too many.
pub struct LoginRateLimiter {
    config: RateLimitConfig,
    login_attempts: Table<LoginAttemptInfo>,
}

impl View for LoginRateLimiter {
    type V = Map<Seq<char>, LoginRecord>;

    /// The record held for each identifier.
    closed spec fn view(&self) -> Map<Seq<char>, LoginRecord> {
        self.login_attempts@.map_values(|v: LoginAttemptInfo| v@)
    }
}

impl LoginRateLimiter {
    /// The configuration the limiter was made with.
    pub closed spec fn spec_config(&self) -> RateLimitConfig {
        self.config
    }

    /// Internal consistency of the per-identifier table.
    pub closed spec fn wf(&self) -> bool {
        self.login_attempts.wf()
    }

    /// A limiter with no records.
    pub fn new(config: RateLimitConfig) -> (r: LoginRateLimiter)
        ensures
            r.wf(),
            r.spec_config() == config,
            r@ == Map::<Seq<char>, LoginRecord>::empty(),
    {
        let r = LoginRateLimiter { config, login_attempts: Table::new() };
        proof {
            assert(r@ =~= Map::<Seq<char>, LoginRecord>::empty());
        }
        r
    }

    /// The configuration the limiter was made with.
    pub fn config(&self) -> (r: RateLimitConfig)
        ensures
            r == self.spec_config(),
    {
        self.config
    }

    /// Whether a record is held for `identifier`.
    pub fn is_tracked(&self, identifier: &str) -> (r: bool)
        requires
            self.wf(),
        ensures
            r == self@.contains_key(identifier@),
    {
        let k = identifier.to_owned();
        self.login_attempts.get(&k).is_some()
    }

    /// The number of failed attempts held for `identifier`.
    pub fn attempt_count(&self, identifier: &str) -> (r: usize)
        requires
            self.wf(),
        ensures
            r == record_of(self@, identifier@).attempts.len(),
    {
        let k = identifier.to_owned();
        match self.login_attempts.get(&k) {
            Some(info) => info.attempts.len(),
            None => 0,
        }
    }

    /// The end of the lockout held for `identifier`, if one is set.
    pub fn locked_until(&self, identifier: &str) -> (r: Option<u64>)
        requires
            self.wf(),
        ensures
            r == record_of(self@, identifier@).locked_until,
    {
        let k = identifier.to_owned();
        match self.login_attempts.get(&k) {
            Some(info) => info.locked_until,
            None => None,
        }
    }

    /// Decides at time `now` whether `identifier` may attempt a login. The
    /// check itself is not counted as a failure.
    pub fn check_login_attempt_at(&mut self, identifier: &str, now: u64) -> (r: Result<
        (),
        RateLimitError,
    >)
        requires
            old(self).wf(),
        ensures
            final(self).wf(),
            final(self).spec_config() == old(self).spec_config(),
            (final(self)@, r) == login_step(old(self).spec_config(), old(self)@, identifier@, now),
    {
        if !self.config.enabled {
            return Ok(());
        }
        let k = identifier.to_owned();
        let info = match self.login_attempts.take(&k) {
            Some(v) => v,
            None => LoginAttemptInfo { attempts: Vec::new(), locked_until: None },
        };
        let ghost rec = info@;
        assert(rec == record_of(old(self)@, identifier@));
        let LoginAttemptInfo { mut attempts, locked_until } = info;
        if let Some(t) = locked_until {
            if now < t {
                self.login_attempts.insert(k, LoginAttemptInfo { attempts, locked_until });
                proof {
                    assert(self@ =~= old(self)@.insert(identifier@, rec));
                }
                return Err(RateLimitError::AccountLocked(t));
            }
            attempts = Vec::new();
        }
        prune(&mut attempts, now, self.config.rate_window_secs);
        if attempts.len() >= self.config.max_login_attempts as usize {
            let deadline = now.saturating_add(self.config.lockout_duration_secs);
            let info = LoginAttemptInfo { attempts, locked_until: Some(deadline) };
            let ghost new_rec = info@;
            self.login_attempts.insert(k, info);
            proof {
                assert(self@ =~= old(self)@.insert(identifier@, new_rec));
            }
            return Err(RateLimitError::AccountLocked(deadline));
        }
        let info = LoginAttemptInfo { attempts, locked_until: None };
        let ghost new_rec = info@;
        self.login_attempts.insert(k, info);
        proof {
            assert(self@ =~= old(self)@.insert(identifier@, new_rec));
        }
        Ok(())
    }

    /// Decides at the current time whether `identifier` may attempt a login.
    pub fn check_login_attempt(&mut self, identifier: &str) -> (r: Result<(), RateLimitError>)
        requires
            old(self).wf(),
        ensures
            final(self).wf(),
            final(self).spec_config() == old(self).spec_config(),
            exists|now: u64|
                (final(self)@, r) == login_step(
                    old(self).spec_config(),
                    old(self)@,
                    identifier@,
                    now,
                ),
    {
        let now = now_secs();
        self.check_login_attempt_at(identifier, now)
    }

    /// Records a failed login for `identifier` at time `now`.
    pub fn record_failed_attempt_at(&mut self, identifier: &str, now: u64)
        requires
            old(self).wf(),
        ensures
            final(self).wf(),
            final(self).spec_config() == old(self).spec_config(),
            final(self)@ == failure_step(old(self)@, identifier@, now),
    {
        let k = identifier.to_owned();
        let mut info = match self.login_attempts.take(&k) {
            Some(v) => v,
            None => LoginAttemptInfo { attempts: Vec::new(), locked_until: None },
        };
        info.attempts.push(now);
        self.login_attempts.insert(k, info);
        proof {
            assert(self@ =~= failure_step(old(self)@, identifier@, now));
        }
    }

    /// Records a failed login for `identifier` at the current time.
    pub fn record_failed_attempt(&mut self, identifier: &str)
        requires
            old(self).wf(),
        ensures
            final(self).wf(),
            final(self).spec_config() == old(self).spec_config(),
            exists|now: u64| final(self)@ == failure_step(old(self)@, identifier@, now),
    {
        let now = now_secs();
        self.record_failed_attempt_at(identifier, now);
    }

    /// Forgets everything held for `identifier`, after a successful login.
    pub fn clear_attempts(&mut self, identifier: &str)
        requires
            old(self).wf(),
        ensures
            final(self).wf(),
            final(self).spec_config() == old(self).spec_config(),
            final(self)@ == old(self)@.remove(identifier@),
    {
        let k = identifier.to_owned();
        let _ = self.login_attempts.take(&k);
        proof {
            assert(self@ =~= old(self)@.remove(identifier@));
        }
    }

    /// Sweeps at time `now`: keeps locked identifiers as they are, prunes the
    /// attempts of the others and drops those left with none.
    pub fn cleanup_at(&mut self, now: u64)
        requires
            old(self).wf(),
        ensures
            final(self).wf(),
            final(self).spec_config() == old(self).spec_config(),
            final(self)@ == login_swept(old(self).spec_config(), old(self)@, now),
    {
        let keys = self.login_attempts.keys();
        let ghost m0 = self@;
        let ghost target = login_swept(self.config, m0, now);
        let n = keys.len();
        let mut i: usize = 0;
        while i < n
            invariant
                i <= n,
                n == keys@.len(),
                self.wf(),
                self.config == old(self).config,
                target == login_swept(self.config, m0, now),
                forall|a: int, b: int|
                    0 <= a < b < keys@.len() ==> #[trigger] keys@[a]@ != #[trigger] keys@[b]@,
                forall|a: int| 0 <= a < keys@.len() ==> m0.contains_key(#[trigger] keys@[a]@),
                forall|k: Seq<char>| #[trigger] m0.contains_key(k) ==> seen(keys@, n as int, k),
                forall|k: Seq<char>|
                    #[trigger] seen(keys@, i as int, k) ==> agrees(self@, target, k),
                forall|k: Seq<char>| !#[trigger] seen(keys@, i as int, k) ==> agrees(self@, m0, k),
            decreases n - i,
        {
            let ghost before = self@;
            let ghost ki = keys@[i as int]@;
            assert(!seen(keys@, i as int, ki)) by {
                if seen(keys@, i as int, ki) {
                    let a = choose|a: int| 0 <= a < i && #[trigger] keys@[a]@ == ki;
                    assert(keys@[a]@ != keys@[i as int]@);
                }
            }
            assert(m0.contains_key(ki));
            assert(agrees(before, m0, ki));
            match self.login_attempts.take(&keys[i]) {
                Some(info) => {
                    let ghost rec = info@;
                    let LoginAttemptInfo { mut attempts, locked_until } = info;
                    let locked = match locked_until {
                        Some(t) => now < t,
                        None => false,
                    };
                    if locked {
                        self.login_attempts.insert(
                            keys[i].clone(),
                            LoginAttemptInfo { attempts, locked_until },
                        );
                        assert(self@ =~= before.insert(ki, rec));
                    } else {
                        prune(&mut attempts, now, self.config.rate_window_secs);
                        if attempts.len() > 0 {
                            let info = LoginAttemptInfo { attempts, locked_until };
                            let ghost kept = info@;
                            self.login_attempts.insert(keys[i].clone(), info);
                            assert(self@ =~= before.insert(ki, kept));
                        } else {
                            assert(self@ =~= before.remove(ki));
                        }
                    }
                },
                None => {},
            }
            proof {
                assert forall|k: Seq<char>| #[trigger] seen(keys@, i + 1, k) implies agrees(
                    self@,
                    target,
                    k,
                ) by {
                    if k != ki {
                        let a = choose|a: int| 0 <= a < i + 1 && #[trigger] keys@[a]@ == k;
                        assert(seen(keys@, i as int, k));
                    }
                }
                assert forall|k: Seq<char>| !#[trigger] seen(keys@, i + 1, k) implies agrees(
                    self@,
                    m0,
                    k,
                ) by {
                    assert(keys@[i as int]@ == ki);
                    assert(k != ki);
                    if seen(keys@, i as int, k) {
                        let a = choose|a: int| 0 <= a < i && #[trigger] keys@[a]@ == k;
                        assert(seen(keys@, i + 1, k));
                    }
                }
            }
            i = i + 1;
        }
        proof {
            assert forall|k: Seq<char>| agrees(self@, target, k) by {
                if m0.contains_key(k) {
                    assert(seen(keys@, n as int, k));
                } else if seen(keys@, n as int, k) {
                    let a = choose|a: int| 0 <= a < n && #[trigger] keys@[a]@ == k;
                    assert(m0.contains_key(keys@[a]@));
                } else {
                    assert(agrees(self@, m0, k));
                }
            }
            assert forall|k: Seq<char>| #[trigger] self@.contains_key(k) == target.contains_key(k)
                by {
                assert(agrees(self@, target, k));
            }
            assert forall|k: Seq<char>| #[trigger] target.contains_key(k) implies self@[k]
                == target[k] by {
                assert(agrees(self@, target, k));
            }
            assert(self@ =~= target);
        }
    }

    /// Sweeps stale records at the current time.
    pub fn cleanup(&mut self)
        requires
            old(self).wf(),
        ensures
            final(self).wf(),
            final(self).spec_config() == old(self).spec_config(),
            exists|now: u64| final(self)@ == login_swept(old(self).spec_config(), old(self)@, now),
    {
        let now = now_secs();
        self.cleanup_at(now);
    }
}

} // verus!
