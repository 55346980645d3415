//! Sliding-window arithmetic shared by both limiters.

use vstd::prelude::*;

verus! {

/// Start of the window of `window_secs` seconds that ends at `now`:
/// timestamps strictly after it are inside the window. It is negative while
/// `now` is below the window length, and then no timestamp is outside.
pub open spec fn window_start(now: u64, window_secs: u64) -> int {
    now - window_secs
}

/// The timestamps of `s` that are strictly after `start`, in their order.
pub open spec fn recent(s: Seq<u64>, start: int) -> Seq<u64>
    decreases s.len(),
{
    if s.len() == 0 {
        Seq::empty()
    } else {
        let rest = recent(s.drop_last(), start);
        if s.last() > start {
            rest.push(s.last())
        } else {
            rest
        }
    }
}

/// Keeps only the timestamps inside the window of `window_secs` seconds
/// that ends at `now`, preserving their order.
pub fn prune(stamps: &mut Vec<u64>, now: u64, window_secs: u64)
    ensures
        final(stamps)@ == recent(old(stamps)@, window_start(now, window_secs)),
{
    let ghost start = window_start(now, window_secs);
    let mut kept: Vec<u64> = Vec::new();
    let n = stamps.len();
    for i in 0..n
        invariant
            n == stamps@.len(),
            start == window_start(now, window_secs),
            kept@ == recent(stamps@.subrange(0, i as int), start),
    {
        proof {
            assert(stamps@.subrange(0, i + 1).drop_last() =~= stamps@.subrange(0, i as int));
        }
        let t = stamps[i];
        if now < window_secs || t > now - window_secs {
            kept.push(t);
        }
    }
    proof {
        assert(stamps@.subrange(0, n as int) =~= stamps@);
    }
    *stamps = kept;
}

/// Pruning twice at the same boundary is pruning once.
pub proof fn lemma_recent_idempotent(s: Seq<u64>, start: int)
    ensures
        recent(recent(s, start), start) == recent(s, start),
    decreases s.len(),
{
    if s.len() > 0 {
        lemma_recent_idempotent(s.drop_last(), start);
        let rest = recent(s.drop_last(), start);
        if s.last() > start {
            assert(rest.push(s.last()).drop_last() =~= rest);
        }
    }
}

/// A history whose timestamps are all after the boundary is kept whole.
pub proof fn lemma_recent_keeps_all(s: Seq<u64>, start: int)
    requires
        forall|i: int| 0 <= i < s.len() ==> #[trigger] s[i] > start,
    ensures
        recent(s, start) == s,
    decreases s.len(),
{
    if s.len() > 0 {
        lemma_recent_keeps_all(s.drop_last(), start);
        assert(s.drop_last().push(s.last()) =~= s);
    }
}

/// Pruning a concatenation prunes each part.
pub proof fn lemma_recent_append(a: Seq<u64>, b: Seq<u64>, start: int)
    ensures
        recent(a + b, start) == recent(a, start) + recent(b, start),
    decreases b.len(),
{
    if b.len() == 0 {
        assert(a + b =~= a);
        assert(recent(a, start) + recent(b, start) =~= recent(a, start));
    } else {
        lemma_recent_append(a, b.drop_last(), start);
        assert((a + b).drop_last() =~= a + b.drop_last());
        assert((a + b).last() == b.last());
        let ra = recent(a, start);
        let rb = recent(b.drop_last(), start);
        assert((ra + rb).push(b.last()) =~= ra + rb.push(b.last()));
    }
}

} // verus!
