use vstd::prelude::*;
use std::collections::VecDeque;

verus! {

/// Length of the rate-limit window, one minute, in nanoseconds.
pub const CALL_WINDOW_NANOS: u64 = 60_000_000_000;

/// Latest time (in nanoseconds) a call may be recorded at, so that the end of its
/// window still fits in a `u64`.
pub const LATEST_CALL_NANOS: u64 = 18_446_743_013_709_551_615;

/// The recorded calls with those older than one minute before `now` dropped from
/// the front (a call at `t` is older when `t + window < now`).
pub open spec fn pruned_calls(calls: Seq<u64>, now: u64) -> Seq<u64>
    decreases calls.len(),
{
    if calls.len() > 0 && calls[0] + CALL_WINDOW_NANOS < now {
        pruned_calls(calls.drop_first(), now)
    } else {
        calls
    }
}

/// How long to wait before a call at `now`: when the recent calls already number at
/// least `max_calls`, until the oldest of them is one minute old; else not at all.
pub open spec fn wait_before_call(recent: Seq<u64>, max_calls: usize, now: u64) -> u64 {
    if recent.len() >= max_calls && recent.len() > 0 && recent[0] + CALL_WINDOW_NANOS > now {
        (recent[0] + CALL_WINDOW_NANOS - now) as u64
    } else {
        0
    }
}

/// Keeps API calls under a number per minute. Times are nanoseconds on a monotonic
/// clock chosen by the caller.
pub struct ApiThrottler {
    call_times: VecDeque<u64>,
    max_calls_per_minute: usize,
}

impl ApiThrottler {
    #[verifier::type_invariant]
    spec fn times_fit(&self) -> bool {
        forall|i: int| 0 <= i < self.call_times@.len() ==> #[trigger] self.call_times@[i] <= LATEST_CALL_NANOS
    }

    /// The times of the recorded calls, oldest first.
    pub closed spec fn calls(&self) -> Seq<u64> {
        self.call_times@
    }

    /// The number of calls allowed per minute.
    pub closed spec fn max_calls(&self) -> usize {
        self.max_calls_per_minute
    }

    /// A throttler with no recorded calls.
    pub fn new(max_calls_per_minute: usize) -> (t: Self)
        ensures
            t.calls() == Seq::<u64>::empty(),
            t.max_calls() == max_calls_per_minute,
    {
        Self { call_times: VecDeque::new(), max_calls_per_minute }
    }

    /// Records a call at `now` and returns how long (in nanoseconds) the caller must
    /// wait before making it: calls older than one minute are forgotten, and when at
    /// least `max_calls` remain, the wait lasts until the oldest is one minute old.
    pub fn throttle(&mut self, now: u64) -> (wait: u64)
        requires
            now <= LATEST_CALL_NANOS,
        ensures
            final(self).calls() == pruned_calls(old(self).calls(), now).push(now),
            final(self).max_calls() == old(self).max_calls(),
            wait == wait_before_call(pruned_calls(old(self).calls(), now), old(self).max_calls(), now),
    {
        proof {
            use_type_invariant(&*self);
        }
        let ghost start = self.call_times@;
        let mut times: VecDeque<u64> = VecDeque::new();
        std::mem::swap(&mut times, &mut self.call_times);
        loop
            invariant_except_break
                pruned_calls(start, now) == pruned_calls(times@, now),
                forall|i: int| 0 <= i < times@.len() ==> #[trigger] times@[i] <= LATEST_CALL_NANOS,
            ensures
                pruned_calls(start, now) == times@,
                forall|i: int| 0 <= i < times@.len() ==> #[trigger] times@[i] <= LATEST_CALL_NANOS,
            decreases times@.len(),
        {
            if times.len() == 0 {
                break;
            }
            let front = times[0];
            if front < now && now - front > CALL_WINDOW_NANOS {
                let ghost before = times@;
                let _ = times.pop_front();
                assert(times@ =~= before.drop_first());
                assert forall|i: int| 0 <= i < times@.len() implies #[trigger] times@[i] <= LATEST_CALL_NANOS by {
                    assert(times@[i] == before[i + 1]);
                }
            } else {
                break;
            }
        }
        let mut wait: u64 = 0;
        let len = times.len();
        if len >= self.max_calls_per_minute && len > 0 {
            let oldest = times[0];
            let until = oldest + CALL_WINDOW_NANOS;
            if until > now {
                wait = until - now;
            }
        }
        times.push_back(now);
        self.call_times = times;
        wait
    }
}

/// Whether the times are in nondecreasing order.
pub open spec fn nondecreasing(s: Seq<u64>) -> bool {
    forall|i: int, j: int| 0 <= i <= j < s.len() ==> s[i] <= s[j]
}

proof fn lemma_pruned_is_suffix(calls: Seq<u64>, now: u64)
    ensures
        exists|k: int| 0 <= k <= calls.len() && pruned_calls(calls, now) == #[trigger] calls.skip(k),
    decreases calls.len(),
{
    if calls.len() > 0 && calls[0] + CALL_WINDOW_NANOS < now {
        lemma_pruned_is_suffix(calls.drop_first(), now);
        let k = choose|k: int| 0 <= k <= calls.drop_first().len() && pruned_calls(calls.drop_first(), now) == #[trigger] calls.drop_first().skip(k);
        assert(calls.drop_first().skip(k) =~= calls.skip(k + 1));
    } else {
        assert(calls.skip(0) =~= calls);
    }
}

/// When calls are recorded at nondecreasing times, the record stays in order, and
/// after a call at `now` it holds only calls from the last minute before `now`.
pub proof fn lemma_throttle_keeps_recent_calls_in_order(calls: Seq<u64>, now: u64)
    requires
        nondecreasing(calls),
        forall|i: int| 0 <= i < calls.len() ==> #[trigger] calls[i] <= now,
    ensures
        nondecreasing(pruned_calls(calls, now).push(now)),
        forall|i: int| 0 <= i < pruned_calls(calls, now).len() ==> #[trigger] pruned_calls(calls, now)[i] + CALL_WINDOW_NANOS >= now,
    decreases calls.len(),
{
    lemma_pruned_is_suffix(calls, now);
    let p = pruned_calls(calls, now);
    let k = choose|k: int| 0 <= k <= calls.len() && p == #[trigger] calls.skip(k);
    assert forall|i: int, j: int| 0 <= i <= j < p.push(now).len() implies p.push(now)[i] <= p.push(now)[j] by {
        if j < p.len() {
            assert(p[i] == calls[k + i]);
            assert(p[j] == calls[k + j]);
        } else {
            if i < p.len() {
                assert(p[i] == calls[k + i]);
            }
        }
    }
    if calls.len() > 0 && calls[0] + CALL_WINDOW_NANOS < now {
        lemma_throttle_keeps_recent_calls_in_order(calls.drop_first(), now);
        assert forall|i: int, j: int| 0 <= i <= j < calls.drop_first().len() implies calls.drop_first()[i] <= calls.drop_first()[j] by {
            assert(calls.drop_first()[i] == calls[i + 1]);
            assert(calls.drop_first()[j] == calls[j + 1]);
        }
    } else {
        assert forall|i: int| 0 <= i < p.len() implies #[trigger] p[i] + CALL_WINDOW_NANOS >= now by {
            assert(p[i] >= p[0]);
        }
    }
}

/// Pruning forgets exactly the calls older than one minute: when the calls are in
/// order, what stays is the suffix of the calls made within the minute before `now`,
/// every such call stays, and every call before it is older than a minute.
pub proof fn lemma_pruning_keeps_the_last_minute(calls: Seq<u64>, now: u64)
    requires
        nondecreasing(calls),
    ensures
        exists|k: int|
            0 <= k <= calls.len() && pruned_calls(calls, now) == calls.skip(k) && (forall|j: int|
                0 <= j < k ==> #[trigger] calls[j] + CALL_WINDOW_NANOS < now) && (forall|j: int|
                k <= j < calls.len() ==> #[trigger] calls[j] + CALL_WINDOW_NANOS >= now),
        forall|i: int|
            0 <= i < calls.len() && #[trigger] calls[i] + CALL_WINDOW_NANOS >= now ==> pruned_calls(
                calls,
                now,
            ).contains(calls[i]),
    decreases calls.len(),
{
    if calls.len() > 0 && calls[0] + CALL_WINDOW_NANOS < now {
        let t = calls.drop_first();
        assert(nondecreasing(t)) by {
            assert forall|i: int, j: int| 0 <= i <= j < t.len() implies t[i] <= t[j] by {
                assert(t[i] == calls[i + 1] && t[j] == calls[j + 1]);
            }
        }
        lemma_pruning_keeps_the_last_minute(t, now);
        let k = choose|k: int|
            0 <= k <= t.len() && pruned_calls(t, now) == t.skip(k) && (forall|j: int|
                0 <= j < k ==> #[trigger] t[j] + CALL_WINDOW_NANOS < now) && (forall|j: int|
                k <= j < t.len() ==> #[trigger] t[j] + CALL_WINDOW_NANOS >= now);
        assert(t.skip(k) =~= calls.skip(k + 1));
        assert forall|j: int| 0 <= j < k + 1 implies #[trigger] calls[j] + CALL_WINDOW_NANOS < now by {
            if j > 0 {
                assert(calls[j] == t[j - 1]);
            }
        }
        assert forall|j: int| k + 1 <= j < calls.len() implies #[trigger] calls[j] + CALL_WINDOW_NANOS
            >= now by {
            assert(calls[j] == t[j - 1]);
        }
        assert forall|i: int|
            0 <= i < calls.len() && #[trigger] calls[i] + CALL_WINDOW_NANOS >= now implies pruned_calls(
            calls,
            now,
        ).contains(calls[i]) by {
            assert(i >= k + 1);
            assert(calls.skip(k + 1)[i - k - 1] == calls[i]);
        }
    } else {
        assert(calls.skip(0) =~= calls);
        assert forall|j: int| 0 <= j < calls.len() implies #[trigger] calls[j] + CALL_WINDOW_NANOS >= now by {
            assert(calls[0] <= calls[j]);
        }
        assert forall|i: int|
            0 <= i < calls.len() && #[trigger] calls[i] + CALL_WINDOW_NANOS >= now implies pruned_calls(
            calls,
            now,
        ).contains(calls[i]) by {
            assert(calls[i] == pruned_calls(calls, now)[i]);
        }
    }
}

/// The wait lets the call through once the limit allows it, and no later: with fewer
/// recent calls than allowed there is no wait; otherwise the call waits until the
/// oldest recent call is a minute old (no wait if it already is).
pub proof fn lemma_wait_until_the_window_frees(recent: Seq<u64>, max_calls: usize, now: u64)
    requires
        forall|i: int| 0 <= i < recent.len() ==> #[trigger] recent[i] <= LATEST_CALL_NANOS,
    ensures
        (recent.len() < max_calls || recent.len() == 0) ==> wait_before_call(recent, max_calls, now) == 0,
        recent.len() >= max_calls && recent.len() > 0 ==> now + wait_before_call(recent, max_calls, now)
            == if recent[0] + CALL_WINDOW_NANOS > now {
            recent[0] + CALL_WINDOW_NANOS
        } else {
            now as int
        },
{
    if recent.len() > 0 {
        assert(recent[0] <= LATEST_CALL_NANOS);
    }
}

} // verus!
