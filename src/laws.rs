//! Properties of the limiters that relate several operations.

use vstd::prelude::*;

use crate::config::RateLimitConfig;
use crate::error::RateLimitError;
use crate::limiter::{rate_step, rate_swept, stamps_of};
use crate::login::{
    failure_step, fresh_record, is_locked, lock_deadline, login_step, login_swept, record_of,
    LoginRecord,
};
use crate::table::agrees;
use crate::window::{
    lemma_recent_append, lemma_recent_idempotent, lemma_recent_keeps_all, recent, window_start,
};

verus! {

/// Records and outcomes of requests for `key` at the successive `times`,
/// one after another.
pub open spec fn run_checks(
    config: RateLimitConfig,
    m: Map<Seq<char>, Seq<u64>>,
    key: Seq<char>,
    times: Seq<u64>,
) -> (Map<Seq<char>, Seq<u64>>, Seq<Result<(), RateLimitError>>)
    decreases times.len(),
{
    if times.len() == 0 {
        (m, Seq::empty())
    } else {
        let (m1, rs) = run_checks(config, m, key, times.drop_last());
        let (m2, r) = rate_step(config, m1, key, times.last());
        (m2, rs.push(r))
    }
}

/// Every one of `times` lies inside the window that ends at each of them.
pub open spec fn within_one_window(times: Seq<u64>, window_secs: u64) -> bool {
    forall|i: int, j: int|
        0 <= i < times.len() && 0 <= j < times.len() ==> #[trigger] times[i] > window_start(
            #[trigger] times[j],
            window_secs,
        )
}

/// How many of `n` requests are admitted when `h` are already in the window.
pub open spec fn admitted(h: nat, max: nat, n: nat) -> nat {
    if h >= max {
        0
    } else if n <= max - h {
        n
    } else {
        (max - h) as nat
    }
}

/// The number of admissions among `rs`.
pub open spec fn count_ok(rs: Seq<Result<(), RateLimitError>>) -> nat
    decreases rs.len(),
{
    if rs.len() == 0 {
        0
    } else {
        count_ok(rs.drop_last()) + if rs.last() is Ok {
            1nat
        } else {
            0nat
        }
    }
}

/// When all `times` lie within one window and the key's earlier history
/// `base` looks the same from each of them, the request at `times[i]` is
/// admitted exactly when `base.len() + i` is below the budget; a rejected one
/// is `Exceeded` and is not recorded. So exactly `admitted(..)` requests pass,
/// and the key then holds `base` followed by their times. Calls on one limiter
/// are serialised by `&mut`, so this holds for every order in which
/// concurrent callers reach it.
pub proof fn lemma_budget_in_window(
    config: RateLimitConfig,
    m: Map<Seq<char>, Seq<u64>>,
    key: Seq<char>,
    times: Seq<u64>,
)
    requires
        config.enabled,
        within_one_window(times, config.rate_window_secs),
        forall|i: int|
            0 <= i < times.len() ==> recent(
                stamps_of(m, key),
                window_start(#[trigger] times[i], config.rate_window_secs),
            ) == recent(stamps_of(m, key), window_start(times[0], config.rate_window_secs)),
    ensures
        ({
            let base = recent(stamps_of(m, key), window_start(times[0], config.rate_window_secs));
            let h = base.len();
            let max = config.max_requests_per_window as nat;
            let n = times.len();
            let (m2, rs) = run_checks(config, m, key, times);
            &&& rs.len() == n
            &&& forall|i: int| 0 <= i < n ==> (#[trigger] rs[i] is Ok <==> h + i < max)
            &&& forall|i: int|
                0 <= i < n && !(rs[i] is Ok) ==> #[trigger] rs[i] == Err::<(), RateLimitError>(
                    RateLimitError::Exceeded {
                        max_requests: config.max_requests_per_window,
                        window_secs: config.rate_window_secs,
                    },
                )
            &&& count_ok(rs) == admitted(h, max, n)
            &&& n > 0 ==> stamps_of(m2, key) == base + times.take(admitted(h, max, n) as int)
            &&& forall|k: Seq<char>| k != key ==> agrees(m2, m, k)
        }),
    decreases times.len(),
{
    let w = config.rate_window_secs;
    let max = config.max_requests_per_window as nat;
    let n = times.len();
    if n > 0 {
        let prev = times.drop_last();
        let t = times.last();
        let base = recent(stamps_of(m, key), window_start(times[0], w));
        let h = base.len();
        assert forall|i: int, j: int|
            0 <= i < prev.len() && 0 <= j < prev.len() implies #[trigger] prev[i] > window_start(
            #[trigger] prev[j],
            w,
        ) by {
            assert(times[i] > window_start(times[j], w));
        }
        assert forall|i: int| 0 <= i < prev.len() implies recent(
            stamps_of(m, key),
            window_start(#[trigger] prev[i], w),
        ) == recent(stamps_of(m, key), window_start(prev[0], w)) by {
            assert(prev[i] == times[i]);
        }
        lemma_budget_in_window(config, m, key, prev);
        let (m1, rs1) = run_checks(config, m, key, prev);
        let a = admitted(h, max, (n - 1) as nat);
        let s1 = stamps_of(m1, key);
        let ws = window_start(t, w);
        assert(recent(stamps_of(m, key), ws) == base) by {
            assert(times[n - 1] == t);
        }
        if n == 1 {
            assert(s1 == stamps_of(m, key));
        } else {
            assert(prev[0] == times[0]);
            assert(s1 == base + prev.take(a as int));
            lemma_recent_append(base, prev.take(a as int), ws);
            lemma_recent_idempotent(stamps_of(m, key), ws);
            assert forall|i: int| 0 <= i < prev.take(a as int).len() implies #[trigger] prev.take(
                a as int,
            )[i] > ws by {
                assert(times[i] > window_start(times[n - 1], w));
            }
            lemma_recent_keeps_all(prev.take(a as int), ws);
        }
        assert(recent(s1, ws) == base + prev.take(a as int)) by {
            if n == 1 {
                assert(prev.take(0) =~= Seq::<u64>::empty());
                assert(base + prev.take(0) =~= base);
            }
        }
        let (m2, rs) = run_checks(config, m, key, times);
        assert(rs.drop_last() =~= rs1);
        assert forall|i: int| 0 <= i < n - 1 implies rs[i] == rs1[i] by {}
        assert forall|k: Seq<char>| k != key implies agrees(m2, m, k) by {
            assert(agrees(m1, m, k));
        }
        if h + a < max {
            assert(a == n - 1);
            assert((base + prev.take(a as int)).push(t) =~= base + times.take(n as int));
        } else {
            assert(prev.take(a as int) =~= times.take(a as int));
        }
    }
}

/// While disabled, every request and every login check is admitted and
/// nothing is recorded.
pub proof fn lemma_disabled_admits_all(
    config: RateLimitConfig,
    requests: Map<Seq<char>, Seq<u64>>,
    logins: Map<Seq<char>, LoginRecord>,
    key: Seq<char>,
    now: u64,
)
    requires
        !config.enabled,
    ensures
        rate_step(config, requests, key, now) == (requests, Ok::<(), RateLimitError>(())),
        login_step(config, logins, key, now) == (logins, Ok::<(), RateLimitError>(())),
{
}

/// Records after failed attempts for `key` at the successive `times`.
pub open spec fn record_failures(
    m: Map<Seq<char>, LoginRecord>,
    key: Seq<char>,
    times: Seq<u64>,
) -> Map<Seq<char>, LoginRecord>
    decreases times.len(),
{
    if times.len() == 0 {
        m
    } else {
        failure_step(record_failures(m, key, times.drop_last()), key, times.last())
    }
}

proof fn lemma_record_failures_shape(
    m: Map<Seq<char>, LoginRecord>,
    key: Seq<char>,
    times: Seq<u64>,
)
    requires
        record_of(m, key) == fresh_record(),
    ensures
        record_of(record_failures(m, key, times), key) == (LoginRecord {
            attempts: times,
            locked_until: None,
        }),
    decreases times.len(),
{
    if times.len() > 0 {
        lemma_record_failures_shape(m, key, times.drop_last());
        assert(times.drop_last().push(times.last()) =~= times);
    } else {
        assert(times =~= Seq::<u64>::empty());
    }
}

/// Starting from an identifier with no attempts and no lockout, failed
/// attempts at `times` that all lie inside the window ending at `now`,
/// followed by a check at `now`, lock the identifier exactly when their
/// number reaches the configured maximum; the lockout then ends
/// `lockout_duration_secs` after `now`.
pub proof fn lemma_failures_then_check(
    config: RateLimitConfig,
    m: Map<Seq<char>, LoginRecord>,
    key: Seq<char>,
    times: Seq<u64>,
    now: u64,
)
    requires
        config.enabled,
        record_of(m, key) == fresh_record(),
        forall|i: int|
            0 <= i < times.len() ==> #[trigger] times[i] > window_start(
                now,
                config.rate_window_secs,
            ),
    ensures
        ({
            let (m2, r) = login_step(config, record_failures(m, key, times), key, now);
            if times.len() >= config.max_login_attempts {
                &&& r == Err::<(), RateLimitError>(
                    RateLimitError::AccountLocked(lock_deadline(now, config.lockout_duration_secs)),
                )
                &&& record_of(m2, key).locked_until == Some(
                    lock_deadline(now, config.lockout_duration_secs),
                )
            } else {
                r == Ok::<(), RateLimitError>(())
            }
        }),
{
    lemma_record_failures_shape(m, key, times);
    lemma_recent_keeps_all(times, window_start(now, config.rate_window_secs));
}

/// After a successful login is cleared, the identifier is as if never seen:
/// it holds no record, and a check on it has the outcome of a check on an
/// identifier never seen.
pub proof fn lemma_clear_is_fresh(
    config: RateLimitConfig,
    m: Map<Seq<char>, LoginRecord>,
    key: Seq<char>,
    now: u64,
)
    ensures
        !m.remove(key).contains_key(key),
        record_of(m.remove(key), key) == fresh_record(),
        login_step(config, m.remove(key), key, now).1 == login_step(
            config,
            Map::<Seq<char>, LoginRecord>::empty(),
            key,
            now,
        ).1,
{
}

/// Once its lockout has passed, the next check on an identifier admits it
/// and leaves it with no attempts and no lockout, so the full number of new
/// failures is needed to lock it again.
pub proof fn lemma_lockout_expiry(
    config: RateLimitConfig,
    m: Map<Seq<char>, LoginRecord>,
    key: Seq<char>,
    now: u64,
)
    requires
        config.enabled,
        config.max_login_attempts > 0,
        record_of(m, key).locked_until is Some,
        now >= record_of(m, key).locked_until.unwrap(),
    ensures
        login_step(config, m, key, now).1 == Ok::<(), RateLimitError>(()),
        record_of(login_step(config, m, key, now).0, key) == fresh_record(),
{
    let start = window_start(now, config.rate_window_secs);
    assert(recent(Seq::<u64>::empty(), start) == Seq::<u64>::empty());
}

/// Sweeping the request history twice at one time is sweeping it once, and a
/// sweep keeps every key that still has a timestamp inside the window.
pub proof fn lemma_rate_sweep_idempotent(
    config: RateLimitConfig,
    m: Map<Seq<char>, Seq<u64>>,
    now: u64,
)
    ensures
        rate_swept(config, rate_swept(config, m, now), now) == rate_swept(config, m, now),
        forall|k: Seq<char>|
            #[trigger] m.contains_key(k) && recent(m[k], window_start(now, config.rate_window_secs)).len()
                > 0 ==> rate_swept(config, m, now).contains_key(k),
{
    let start = window_start(now, config.rate_window_secs);
    let once = rate_swept(config, m, now);
    let twice = rate_swept(config, once, now);
    assert forall|k: Seq<char>| #[trigger] once.contains_key(k) implies recent(once[k], start)
        == once[k] by {
        lemma_recent_idempotent(m[k], start);
    }
    assert(twice =~= once);
}

/// Sweeping the login records twice at one time is sweeping them once, and a
/// sweep keeps every locked identifier unchanged.
pub proof fn lemma_login_sweep_idempotent(
    config: RateLimitConfig,
    m: Map<Seq<char>, LoginRecord>,
    now: u64,
)
    ensures
        login_swept(config, login_swept(config, m, now), now) == login_swept(config, m, now),
        forall|k: Seq<char>|
            #[trigger] m.contains_key(k) && is_locked(m[k], now) ==> login_swept(
                config,
                m,
                now,
            ).contains_key(k) && login_swept(config, m, now)[k] == m[k],
{
    let start = window_start(now, config.rate_window_secs);
    let once = login_swept(config, m, now);
    let twice = login_swept(config, once, now);
    assert forall|k: Seq<char>| #[trigger] once.contains_key(k) implies twice.contains_key(k)
        && twice[k] == once[k] by {
        lemma_recent_idempotent(m[k].attempts, start);
        if !is_locked(m[k], now) {
            assert(recent(once[k].attempts, start) == once[k].attempts);
        }
    }
    assert(twice =~= once);
}

} // verus!
