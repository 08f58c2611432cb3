//! Derived balances: cumulative position balances as of an evaluation
//! instant, and per-window activity tallies. Both are recomputed on demand
//! from a history and never persisted.

use vstd::prelude::*;

use crate::types::{entry_bounded, BalanceError, DebitEntry};
use crate::ledger::history_wf;

verus! {

/// Signed sum of the base amounts of the entries timestamped at or before
/// `at`, as an unbounded integer.
pub open spec fn base_sum_at(h: Seq<DebitEntry>, at: u64) -> int
    decreases h.len(),
{
    if h.len() == 0 {
        0
    } else {
        base_sum_at(h.drop_last(), at) + if h.last().timestamp <= at {
            h.last().base_amount as int
        } else {
            0
        }
    }
}

/// Signed sum of the secondary amounts of the entries timestamped at or
/// before `at`, as an unbounded integer.
pub open spec fn secondary_sum_at(h: Seq<DebitEntry>, at: u64) -> int
    decreases h.len(),
{
    if h.len() == 0 {
        0
    } else {
        secondary_sum_at(h.drop_last(), at) + if h.last().timestamp <= at {
            h.last().secondary_amount as int
        } else {
            0
        }
    }
}

pub open spec fn in_i128(x: int) -> bool {
    i128::MIN <= x <= i128::MAX
}

/// The cumulative balance scan, entry by entry in history order. It stops at
/// the first step whose running sums leave the representable range
/// (`Overflow`) or whose secondary balance would turn negative
/// (`NegativeSecondary`); a negative derived secondary balance signals a
/// classification bug or out-of-order entries and is never silently clamped.
pub open spec fn spec_cumulative(h: Seq<DebitEntry>, at: u64) -> Result<(int, int), BalanceError>
    decreases h.len(),
{
    if h.len() == 0 {
        Ok((0, 0))
    } else {
        match spec_cumulative(h.drop_last(), at) {
            Err(e) => Err(e),
            Ok((b, s)) => {
                if h.last().timestamp <= at {
                    let b2 = b + h.last().base_amount;
                    let s2 = s + h.last().secondary_amount;
                    if !in_i128(b2) || !in_i128(s2) {
                        Err(BalanceError::Overflow)
                    } else if s2 < 0 {
                        Err(BalanceError::NegativeSecondary)
                    } else {
                        Ok((b2, s2))
                    }
                } else {
                    Ok((b, s))
                }
            },
        }
    }
}

proof fn lemma_cumulative_err_propagates(h: Seq<DebitEntry>, at: u64, n: int)
    requires
        0 <= n <= h.len(),
        spec_cumulative(h.take(n), at) is Err,
    ensures
        spec_cumulative(h, at) == spec_cumulative(h.take(n), at),
    decreases h.len() - n,
{
    if n == h.len() {
        assert(h.take(n) =~= h);
    } else {
        assert(h.take(n + 1).drop_last() =~= h.take(n));
        assert(h.take(n + 1).last() == h[n]);
        lemma_cumulative_err_propagates(h, at, n + 1);
    }
}

proof fn lemma_cumulative_ok_prefix(h: Seq<DebitEntry>, at: u64, n: int)
    requires
        0 <= n <= h.len(),
        spec_cumulative(h, at) is Ok,
    ensures
        spec_cumulative(h.take(n), at) is Ok,
    decreases h.len() - n,
{
    if n == h.len() {
        assert(h.take(n) =~= h);
    } else {
        lemma_cumulative_ok_prefix(h, at, n + 1);
        assert(h.take(n + 1).drop_last() =~= h.take(n));
        assert(h.take(n + 1).last() == h[n]);
    }
}

proof fn lemma_cumulative_ok_value(h: Seq<DebitEntry>, at: u64)
    requires
        spec_cumulative(h, at) is Ok,
    ensures
        spec_cumulative(h, at)->Ok_0.0 == base_sum_at(h, at),
        spec_cumulative(h, at)->Ok_0.1 == secondary_sum_at(h, at),
        spec_cumulative(h, at)->Ok_0.1 >= 0,
        in_i128(spec_cumulative(h, at)->Ok_0.0),
        in_i128(spec_cumulative(h, at)->Ok_0.1),
    decreases h.len(),
{
    if h.len() > 0 {
        lemma_cumulative_ok_value(h.drop_last(), at);
    }
}

/// For any sequence of opens and closes applied in order: whenever the
/// cumulative balance exists, the secondary balance equals the signed sum of
/// the secondary amounts taken at or before the evaluation instant, and the
/// balance of every committed prefix is representable and never negative.
pub proof fn lemma_cumulative_is_signed_sum(h: Seq<DebitEntry>, at: u64)
    requires
        spec_cumulative(h, at) is Ok,
    ensures
        spec_cumulative(h, at)->Ok_0.0 == base_sum_at(h, at),
        spec_cumulative(h, at)->Ok_0.1 == secondary_sum_at(h, at),
        forall|n: int| 0 <= n <= h.len() ==> secondary_sum_at(#[trigger] h.take(n), at) >= 0
            && in_i128(secondary_sum_at(h.take(n), at)) && in_i128(base_sum_at(h.take(n), at)),
{
    lemma_cumulative_ok_value(h, at);
    assert forall|n: int| 0 <= n <= h.len() implies secondary_sum_at(#[trigger] h.take(n), at) >= 0
        && in_i128(secondary_sum_at(h.take(n), at)) && in_i128(base_sum_at(h.take(n), at)) by {
        lemma_cumulative_ok_prefix(h, at, n);
        lemma_cumulative_ok_value(h.take(n), at);
    }
}

/// A cumulative position balance: signed base and secondary sums over the
/// entries at or before the evaluation instant.
#[derive(Clone, Copy, PartialEq, Eq, Structural, Debug)]
pub struct CumulativeBalance {
    pub base: i128,
    pub secondary: i128,
}

/// Computes the cumulative balance of one history as of `at`: the result is
/// exactly what the entry-by-entry scan `spec_cumulative` yields, including
/// which failure, if any, comes first.
pub fn cumulative_balance(history: &Vec<DebitEntry>, at: u64) -> (r: Result<
    CumulativeBalance,
    BalanceError,
>)
    ensures
        match r {
            Ok(c) => spec_cumulative(history@, at) == Ok::<(int, int), BalanceError>(
                (c.base as int, c.secondary as int),
            ) && c.base as int == base_sum_at(history@, at) && c.secondary as int
                == secondary_sum_at(history@, at) && c.secondary >= 0,
            Err(e) => spec_cumulative(history@, at) == Err::<(int, int), BalanceError>(e),
        },
{
    let mut base: i128 = 0;
    let mut sec: i128 = 0;
    let mut i: usize = 0;
    while i < history.len()
        invariant
            i <= history@.len(),
            spec_cumulative(history@.take(i as int), at) == Ok::<(int, int), BalanceError>(
                (base as int, sec as int),
            ),
            sec >= 0,
        decreases history@.len() - i,
    {
        let e = history[i];
        proof {
            assert(history@.take(i as int + 1).drop_last() =~= history@.take(i as int));
            assert(history@.take(i as int + 1).last() == history@[i as int]);
        }
        if e.timestamp <= at {
            if (e.base_amount > 0 && base > i128::MAX - e.base_amount) || (e.base_amount < 0
                && base < i128::MIN - e.base_amount) {
                proof {
                    lemma_cumulative_err_propagates(history@, at, i as int + 1);
                }
                return Err(BalanceError::Overflow);
            }
            let b2 = base + e.base_amount;
            if (e.secondary_amount > 0 && sec > i128::MAX - e.secondary_amount)
                || (e.secondary_amount < 0 && sec < i128::MIN - e.secondary_amount) {
                proof {
                    lemma_cumulative_err_propagates(history@, at, i as int + 1);
                }
                return Err(BalanceError::Overflow);
            }
            let s2 = sec + e.secondary_amount;
            if s2 < 0 {
                proof {
                    lemma_cumulative_err_propagates(history@, at, i as int + 1);
                }
                return Err(BalanceError::NegativeSecondary);
            }
            base = b2;
            sec = s2;
        }
        i = i + 1;
    }
    proof {
        assert(history@.take(history@.len() as int) =~= history@);
        lemma_cumulative_ok_value(history@, at);
    }
    Ok(CumulativeBalance { base, secondary: sec })
}

// ---------------------------------------------------------------------------
// Window activity
// ---------------------------------------------------------------------------

/// Whether an entry falls in the half-open window `[window_start, window_end)`.
pub open spec fn in_window(e: DebitEntry, window_start: u64, window_end: u64) -> bool {
    window_start <= e.timestamp < window_end
}

pub open spec fn abs_val(x: int) -> int {
    if x < 0 {
        -x
    } else {
        x
    }
}

/// How many entries of the history fall in the window.
pub open spec fn window_count(h: Seq<DebitEntry>, window_start: u64, window_end: u64) -> int
    decreases h.len(),
{
    if h.len() == 0 {
        0
    } else {
        window_count(h.drop_last(), window_start, window_end) + if in_window(
            h.last(),
            window_start,
            window_end,
        ) {
            1int
        } else {
            0int
        }
    }
}

/// The sum of the absolute base amounts of the entries in the window, as an
/// unbounded integer. Volume never rounds during accumulation.
pub open spec fn window_volume(h: Seq<DebitEntry>, window_start: u64, window_end: u64) -> int
    decreases h.len(),
{
    if h.len() == 0 {
        0
    } else {
        window_volume(h.drop_last(), window_start, window_end) + if in_window(
            h.last(),
            window_start,
            window_end,
        ) {
            abs_val(h.last().base_amount as int)
        } else {
            0
        }
    }
}

proof fn lemma_window_volume_nonneg(h: Seq<DebitEntry>, window_start: u64, window_end: u64)
    ensures
        window_volume(h, window_start, window_end) >= 0,
    decreases h.len(),
{
    if h.len() > 0 {
        lemma_window_volume_nonneg(h.drop_last(), window_start, window_end);
    }
}

proof fn lemma_window_volume_take_le(h: Seq<DebitEntry>, window_start: u64, window_end: u64, n: int)
    requires
        0 <= n <= h.len(),
    ensures
        window_volume(h.take(n), window_start, window_end) <= window_volume(
            h,
            window_start,
            window_end,
        ),
    decreases h.len() - n,
{
    if n == h.len() {
        assert(h.take(n) =~= h);
    } else {
        assert(h.take(n + 1).drop_last() =~= h.take(n));
        assert(h.take(n + 1).last() == h[n]);
        lemma_window_volume_take_le(h, window_start, window_end, n + 1);
    }
}

/// Adjacent half-open windows partition activity: the counts and volumes
/// over `[s, t1)` and `[t1, t2)` sum to those over `[s, t2)`. In particular
/// an entry timestamped exactly `t1` counts only in the second window.
pub proof fn lemma_window_partition(h: Seq<DebitEntry>, s: u64, t1: u64, t2: u64)
    requires
        s <= t1 <= t2,
    ensures
        window_count(h, s, t1) + window_count(h, t1, t2) == window_count(h, s, t2),
        window_volume(h, s, t1) + window_volume(h, t1, t2) == window_volume(h, s, t2),
    decreases h.len(),
{
    if h.len() > 0 {
        lemma_window_partition(h.drop_last(), s, t1, t2);
    }
}

/// The boundary instant itself: an entry timestamped exactly at `t1` lies
/// outside `[s, t1)` and, when `t1 < t2`, inside `[t1, t2)`.
pub proof fn lemma_window_boundary(e: DebitEntry, s: u64, t1: u64, t2: u64)
    requires
        s <= t1 < t2,
        e.timestamp == t1,
    ensures
        !in_window(e, s, t1),
        in_window(e, t1, t2),
{
}

/// Per-window activity of one history: how many entries fall in the window
/// and their unrounded absolute base-amount volume.
#[derive(Clone, Copy, PartialEq, Eq, Structural, Debug)]
pub struct WindowActivity {
    pub count: usize,
    pub volume: u128,
}

/// Tallies one history over the half-open window `[window_start,
/// window_end)`. Fails with `Overflow` exactly when the total volume does
/// not fit the accumulator.
pub fn window_activity(history: &Vec<DebitEntry>, window_start: u64, window_end: u64) -> (r: Result<
    WindowActivity,
    BalanceError,
>)
    requires
        history_wf(history@),
    ensures
        r is Ok <==> window_volume(history@, window_start, window_end) <= u128::MAX,
        r is Err ==> r == Err::<WindowActivity, BalanceError>(BalanceError::Overflow),
        r is Ok ==> r->Ok_0.count as int == window_count(history@, window_start, window_end)
            && r->Ok_0.volume as int == window_volume(history@, window_start, window_end),
{
    let mut count: usize = 0;
    let mut volume: u128 = 0;
    let mut i: usize = 0;
    while i < history.len()
        invariant
            i <= history@.len(),
            history_wf(history@),
            count as int == window_count(history@.take(i as int), window_start, window_end),
            volume as int == window_volume(history@.take(i as int), window_start, window_end),
            count <= i,
        decreases history@.len() - i,
    {
        let e = history[i];
        proof {
            assert(history@.take(i as int + 1).drop_last() =~= history@.take(i as int));
            assert(history@.take(i as int + 1).last() == history@[i as int]);
        }
        if window_start <= e.timestamp && e.timestamp < window_end {
            assert(entry_bounded(e));
            let a: u128 = if e.base_amount < 0 {
                (-e.base_amount) as u128
            } else {
                e.base_amount as u128
            };
            if a > u128::MAX - volume {
                proof {
                    lemma_window_volume_take_le(history@, window_start, window_end, i as int + 1);
                }
                return Err(BalanceError::Overflow);
            }
            volume = volume + a;
            count = count + 1;
        }
        i = i + 1;
    }
    proof {
        assert(history@.take(history@.len() as int) =~= history@);
    }
    Ok(WindowActivity { count, volume })
}

} // verus!
