//! Per-key request-rate limiting with sliding-log semantics.
//!
//! A [`RateLimiter`] tracks, for each key, the timestamps of its recent
//! consumptions. A consume attempt at instant `now` counts the recorded
//! timestamps that fall in the trailing window `(now - window_seconds, now]`;
//! if one more would push the count past `max_count`, the attempt is denied and
//! records nothing. Stale timestamps are pruned lazily when their key is next
//! touched. The model of a limiter is a total map from key to the sequence of
//! timestamps still recorded for it.

use vstd::prelude::*;

verus! {

/// True when a consumption recorded at `t` still counts at instant `now`
/// for a trailing window of `window` seconds, i.e. `t` lies in the
/// half-open interval `(now - window, now]`.
pub open spec fn in_window(t: u64, now: u64, window: u64) -> bool {
    t <= now && now - t < window
}

/// The subsequence of `stamps` that is still inside the window at `now`,
/// in recording order.
pub open spec fn recent_of(stamps: Seq<u64>, now: u64, window: u64) -> Seq<u64>
    decreases stamps.len(),
{
    if stamps.len() == 0 {
        Seq::empty()
    } else {
        let rest = recent_of(stamps.drop_last(), now, window);
        if in_window(stamps.last(), now, window) {
            rest.push(stamps.last())
        } else {
            rest
        }
    }
}

/// Whether a consume for `key` at instant `now` is permitted in state
/// `quota`: the consumptions still in the window, this one included, must
/// not exceed `max_count`.
pub open spec fn consume_allowed(
    quota: Map<i64, Seq<u64>>,
    max_count: u64,
    window: u64,
    key: i64,
    now: u64,
) -> bool {
    recent_of(quota[key], now, window).len() < max_count
}

/// The recorded state after a consume attempt for `key` at instant `now`:
/// the key's stale timestamps are pruned, and the attempt itself is recorded
/// only when it was permitted. No other key changes.
pub open spec fn consume_next(
    quota: Map<i64, Seq<u64>>,
    max_count: u64,
    window: u64,
    key: i64,
    now: u64,
) -> Map<i64, Seq<u64>> {
    let kept = recent_of(quota[key], now, window);
    if consume_allowed(quota, max_count, window, key, now) {
        quota.insert(key, kept.push(now))
    } else {
        quota.insert(key, kept)
    }
}

/// The recorded state after one consume attempt for `key` at each instant
/// of `times`, in order.
pub open spec fn consume_seq(
    quota: Map<i64, Seq<u64>>,
    max_count: u64,
    window: u64,
    key: i64,
    times: Seq<u64>,
) -> Map<i64, Seq<u64>>
    decreases times.len(),
{
    if times.len() == 0 {
        quota
    } else {
        consume_next(
            consume_seq(quota, max_count, window, key, times.drop_last()),
            max_count,
            window,
            key,
            times.last(),
        )
    }
}

/// `times` is a quick succession: nondecreasing instants that all lie
/// within one window span of each other.
pub open spec fn burst_within(times: Seq<u64>, window: u64) -> bool {
    forall|i: int, j: int|
        0 <= i <= j < times.len() ==> times[i] <= times[j] && times[j] - times[i] < window
}

proof fn lemma_recent_of_none(stamps: Seq<u64>, now: u64, window: u64)
    requires
        forall|i: int| 0 <= i < stamps.len() ==> !in_window(stamps[i], now, window),
    ensures
        recent_of(stamps, now, window) == Seq::<u64>::empty(),
    decreases stamps.len(),
{
    if stamps.len() > 0 {
        lemma_recent_of_none(stamps.drop_last(), now, window);
    }
}

proof fn lemma_burst_state(
    quota: Map<i64, Seq<u64>>,
    max_count: u64,
    window: u64,
    key: i64,
    times: Seq<u64>,
)
    requires
        quota[key] == Seq::<u64>::empty(),
        times.len() <= max_count,
        burst_within(times, window),
    ensures
        consume_seq(quota, max_count, window, key, times)[key] == times,
        forall|k: i64| k != key ==> consume_seq(quota, max_count, window, key, times)[k]
            == quota[k],
    decreases times.len(),
{
    if times.len() > 0 {
        let head = times.drop_last();
        let at = times.last();
        assert(burst_within(head, window));
        lemma_burst_state(quota, max_count, window, key, head);
        assert forall|i: int| 0 <= i < head.len() implies in_window(head[i], at, window) by {
            assert(times[i] <= times[times.len() - 1]
                && times[times.len() - 1] - times[i] < window);
        }
        lemma_recent_fixpoint(head, at, window);
        assert(head.push(at) =~= times);
    }
}

/// Law: starting from a fresh key, a quick succession of `max_count`
/// consumes — at nondecreasing instants all within one window span — is
/// permitted at every step; one more attempt made while those are all
/// still in the window is denied; and an attempt made a full window after
/// the last of them is permitted again.
pub proof fn lemma_quota_window(
    quota: Map<i64, Seq<u64>>,
    max_count: u64,
    window: u64,
    key: i64,
    times: Seq<u64>,
    denied_at: u64,
    later: u64,
)
    requires
        quota[key] == Seq::<u64>::empty(),
        max_count >= 1,
        window >= 1,
        times.len() == max_count,
        burst_within(times, window),
        forall|i: int|
            0 <= i < times.len() ==> times[i] <= denied_at && denied_at - times[i] < window,
        times[times.len() - 1] + window <= later,
    ensures
        forall|n: int|
            0 <= n < max_count ==> consume_allowed(
                consume_seq(quota, max_count, window, key, times.take(n)),
                max_count,
                window,
                key,
                times[n],
            ),
        !consume_allowed(
            consume_seq(quota, max_count, window, key, times),
            max_count,
            window,
            key,
            denied_at,
        ),
        consume_allowed(
            consume_seq(quota, max_count, window, key, times),
            max_count,
            window,
            key,
            later,
        ),
{
    assert forall|n: int|
        0 <= n < max_count implies consume_allowed(
        consume_seq(quota, max_count, window, key, times.take(n)),
        max_count,
        window,
        key,
        times[n],
    ) by {
        let head = times.take(n);
        assert(burst_within(head, window));
        lemma_burst_state(quota, max_count, window, key, head);
        assert forall|i: int| 0 <= i < head.len() implies in_window(
            head[i],
            times[n],
            window,
        ) by {
            assert(times[i] <= times[n] && times[n] - times[i] < window);
        }
        lemma_recent_fixpoint(head, times[n], window);
    }
    lemma_burst_state(quota, max_count, window, key, times);
    assert forall|i: int| 0 <= i < times.len() implies in_window(
        times[i],
        denied_at,
        window,
    ) by {}
    lemma_recent_fixpoint(times, denied_at, window);
    assert forall|i: int| 0 <= i < times.len() implies !in_window(times[i], later, window) by {
        assert(times[i] <= times[times.len() - 1]);
    }
    lemma_recent_of_none(times, later, window);
}

/// Law: keys never interact: a consume attempt for one key leaves every
/// other key's recorded state, and so its permission at any instant,
/// unchanged.
pub proof fn lemma_keys_independent(
    quota: Map<i64, Seq<u64>>,
    max_count: u64,
    window: u64,
    key_a: i64,
    key_b: i64,
    now_a: u64,
    now_b: u64,
)
    requires
        key_a != key_b,
    ensures
        consume_next(quota, max_count, window, key_a, now_a)[key_b] == quota[key_b],
        consume_allowed(
            consume_next(quota, max_count, window, key_a, now_a),
            max_count,
            window,
            key_b,
            now_b,
        ) == consume_allowed(quota, max_count, window, key_b, now_b),
{
}

proof fn lemma_recent_elements(stamps: Seq<u64>, now: u64, window: u64)
    ensures
        forall|i: int|
            0 <= i < recent_of(stamps, now, window).len() ==> in_window(
                recent_of(stamps, now, window)[i],
                now,
                window,
            ),
    decreases stamps.len(),
{
    if stamps.len() > 0 {
        lemma_recent_elements(stamps.drop_last(), now, window);
        let rest = recent_of(stamps.drop_last(), now, window);
        if in_window(stamps.last(), now, window) {
            let whole = rest.push(stamps.last());
            assert forall|i: int| 0 <= i < whole.len() implies in_window(
                whole[i],
                now,
                window,
            ) by {
                if i < rest.len() {
                    assert(in_window(rest[i], now, window));
                }
            }
        }
    }
}

proof fn lemma_recent_fixpoint(stamps: Seq<u64>, now: u64, window: u64)
    requires
        forall|i: int| 0 <= i < stamps.len() ==> in_window(stamps[i], now, window),
    ensures
        recent_of(stamps, now, window) == stamps,
    decreases stamps.len(),
{
    if stamps.len() > 0 {
        assert(forall|i: int|
            0 <= i < stamps.drop_last().len() ==> in_window(stamps.drop_last()[i], now, window));
        lemma_recent_fixpoint(stamps.drop_last(), now, window);
        assert(stamps.drop_last().push(stamps.last()) =~= stamps);
    }
}

/// Law: a permitted consume never lifts the key's in-window consumption
/// count above the quota.
pub proof fn lemma_quota_never_exceeded(
    quota: Map<i64, Seq<u64>>,
    max_count: u64,
    window: u64,
    key: i64,
    now: u64,
)
    requires
        window >= 1,
        consume_allowed(quota, max_count, window, key, now),
    ensures
        recent_of(
            consume_next(quota, max_count, window, key, now)[key],
            now,
            window,
        ).len() <= max_count,
{
    let kept = recent_of(quota[key], now, window);
    lemma_recent_elements(quota[key], now, window);
    assert(forall|i: int| 0 <= i < kept.push(now).len() ==> in_window(kept.push(now)[i], now, window));
    lemma_recent_fixpoint(kept.push(now), now, window);
}

/// The timestamps recorded for one key.
struct KeyLog {
    key: i64,
    stamps: Vec<u64>,
}

/// The timestamps recorded for `key` in `logs`: those of the entry that
/// carries the key, or the empty sequence when no entry does.
spec fn log_lookup(logs: Seq<KeyLog>, key: i64) -> Seq<u64>
    decreases logs.len(),
{
    if logs.len() == 0 {
        Seq::empty()
    } else if logs.last().key == key {
        logs.last().stamps@
    } else {
        log_lookup(logs.drop_last(), key)
    }
}

/// A per-key rate limiter with a fixed quota of `max_count` consumptions
/// per `window_seconds` trailing window.
///
/// The current instant is an input to [`RateLimiter::try_consume`]: the
/// clock is an external collaborator, so callers read it and hand the value
/// in as a plain number of seconds.
pub struct RateLimiter {
    max_count: u64,
    window_seconds: u64,
    logs: Vec<KeyLog>,
}

impl View for RateLimiter {
    type V = Map<i64, Seq<u64>>;

    closed spec fn view(&self) -> Map<i64, Seq<u64>> {
        Map::new(|k: i64| true, |k: i64| log_lookup(self.logs@, k))
    }
}

proof fn lemma_lookup_absent(logs: Seq<KeyLog>, key: i64)
    requires
        forall|j: int| 0 <= j < logs.len() ==> logs[j].key != key,
    ensures
        log_lookup(logs, key) == Seq::<u64>::empty(),
    decreases logs.len(),
{
    if logs.len() > 0 {
        lemma_lookup_absent(logs.drop_last(), key);
    }
}

proof fn lemma_lookup_found(logs: Seq<KeyLog>, key: i64, i: int)
    requires
        0 <= i < logs.len(),
        logs[i].key == key,
        forall|p: int, q: int| 0 <= p < q < logs.len() ==> logs[p].key != logs[q].key,
    ensures
        log_lookup(logs, key) == logs[i].stamps@,
    decreases logs.len(),
{
    if i < logs.len() - 1 {
        assert(logs[i].key != logs[logs.len() - 1].key);
        lemma_lookup_found(logs.drop_last(), key, i);
    }
}

proof fn lemma_lookup_update(logs: Seq<KeyLog>, i: int, entry: KeyLog, k: i64)
    requires
        0 <= i < logs.len(),
        logs[i].key == entry.key,
        forall|p: int, q: int| 0 <= p < q < logs.len() ==> logs[p].key != logs[q].key,
    ensures
        log_lookup(logs.update(i, entry), k) == if k == entry.key {
            entry.stamps@
        } else {
            log_lookup(logs, k)
        },
    decreases logs.len(),
{
    let updated = logs.update(i, entry);
    if i == logs.len() - 1 {
        assert(updated.drop_last() =~= logs.drop_last());
    } else {
        assert(updated.drop_last() =~= logs.drop_last().update(i, entry));
        assert(updated.last() == logs.last());
        assert(logs[i].key != logs[logs.len() - 1].key);
        lemma_lookup_update(logs.drop_last(), i, entry, k);
    }
}

impl RateLimiter {
    /// The fixed quota per window.
    pub closed spec fn max_count(&self) -> u64 {
        self.max_count
    }

    /// The length of the trailing window, in seconds.
    pub closed spec fn window_seconds(&self) -> u64 {
        self.window_seconds
    }

    /// Well-formedness: a positive quota over a positive window, and at most
    /// one log entry per key.
    pub closed spec fn wf(&self) -> bool {
        &&& self.max_count >= 1
        &&& self.window_seconds >= 1
        &&& forall|p: int, q: int|
            0 <= p < q < self.logs@.len() ==> self.logs@[p].key != self.logs@[q].key
    }

    /// Constructs a limiter with a fixed quota of `max_count` consumptions
    /// per trailing window of `window_seconds`, with nothing recorded yet.
    pub fn new(max_count: u64, window_seconds: u64) -> (limiter: RateLimiter)
        requires
            max_count >= 1,
            window_seconds >= 1,
        ensures
            limiter.wf(),
            limiter.max_count() == max_count,
            limiter.window_seconds() == window_seconds,
            forall|k: i64| limiter@[k] == Seq::<u64>::empty(),
    {
        let limiter = RateLimiter { max_count, window_seconds, logs: Vec::new() };
        proof {
            assert forall|k: i64| limiter@[k] == Seq::<u64>::empty() by {
                assert(limiter@[k] == log_lookup(limiter.logs@, k));
            }
        }
        limiter
    }

    /// Records one consumption for `key` at instant `now` and reports whether
    /// the action is permitted. A denied attempt records nothing, so it does
    /// not delay future attempts; either way the key's stale timestamps are
    /// pruned and no other key is touched.
    pub fn try_consume(&mut self, key: i64, now: u64) -> (permitted: bool)
        requires
            old(self).wf(),
        ensures
            final(self).wf(),
            final(self).max_count() == old(self).max_count(),
            final(self).window_seconds() == old(self).window_seconds(),
            permitted == consume_allowed(
                old(self)@,
                old(self).max_count(),
                old(self).window_seconds(),
                key,
                now,
            ),
            final(self)@ == consume_next(
                old(self)@,
                old(self).max_count(),
                old(self).window_seconds(),
                key,
                now,
            ),
    {
        let ghost quota0 = self@;
        let ghost logs0 = self.logs@;
        let ghost window = self.window_seconds;

        // Find the log entry for `key`, if one exists.
        let mut idx: usize = 0;
        let mut present: bool = false;
        while !present && idx < self.logs.len()
            invariant
                *self == *old(self),
                idx <= self.logs@.len(),
                forall|j: int| 0 <= j < idx ==> self.logs@[j].key != key,
                present ==> idx < self.logs@.len() && self.logs@[idx as int].key == key,
            decreases self.logs@.len() - idx + (if present { 0int } else { 1int }),
        {
            if self.logs[idx].key == key {
                present = true;
            } else {
                idx += 1;
            }
        }
        proof {
            if present {
                lemma_lookup_found(logs0, key, idx as int);
            } else {
                lemma_lookup_absent(logs0, key);
            }
            assert(quota0[key] == log_lookup(logs0, key));
        }

        // Prune the key's log down to the timestamps still in the window.
        let mut kept: Vec<u64> = Vec::new();
        if present {
            let ghost orig = self.logs@[idx as int].stamps@;
            let stamp_count = self.logs[idx].stamps.len();
            let mut j: usize = 0;
            while j < stamp_count
                invariant
                    *self == *old(self),
                    present,
                    idx < self.logs@.len(),
                    orig == self.logs@[idx as int].stamps@,
                    window == self.window_seconds,
                    j <= stamp_count,
                    stamp_count == orig.len(),
                    kept@ == recent_of(orig.take(j as int), now, window),
                decreases stamp_count - j,
            {
                let t = self.logs[idx].stamps[j];
                if t <= now && now - t < self.window_seconds {
                    kept.push(t);
                }
                proof {
                    assert(orig.take(j + 1) =~= orig.take(j as int).push(orig[j as int]));
                    assert(orig.take(j + 1).drop_last() =~= orig.take(j as int));
                }
                j += 1;
            }
            proof {
                assert(orig.take(stamp_count as int) =~= orig);
            }
        }
        proof {
            assert(kept@ == recent_of(quota0[key], now, window));
        }

        // Decide, and record the consumption only when permitted.
        let permitted = (kept.len() as u64) < self.max_count;
        if permitted {
            kept.push(now);
        }

        // Write the pruned (and possibly extended) log back.
        let ghost entry_view = kept@;
        if present {
            self.logs[idx] = KeyLog { key, stamps: kept };
            proof {
                assert forall|k: i64| #[trigger] self@[k] == if k == key {
                    entry_view
                } else {
                    quota0[k]
                } by {
                    lemma_lookup_update(logs0, idx as int, self.logs@[idx as int], k);
                }
                assert forall|j: int| 0 <= j < self.logs@.len() implies self.logs@[j].key
                    == logs0[j].key by {}
            }
        } else {
            self.logs.push(KeyLog { key, stamps: kept });
            proof {
                assert(self.logs@.drop_last() =~= logs0);
                assert forall|k: i64| #[trigger] self@[k] == if k == key {
                    entry_view
                } else {
                    quota0[k]
                } by {
                    assert(self@[k] == log_lookup(self.logs@, k));
                }
            }
        }
        proof {
            let target = consume_next(quota0, self.max_count, window, key, now);
            assert forall|k: i64| #[trigger] self@[k] == target[k] by {}
            assert(self@.dom() =~= target.dom());
            assert(self@ =~= target);
        }
        permitted
    }
}

} // verus!
