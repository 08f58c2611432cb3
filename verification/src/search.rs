//! The time oracle: resolving a timestamp to the corresponding block height
//! by integer binary search over the chain's monotone block timestamps.
//!
//! Probing a height's timestamp is the chain link's work, so the search is a
//! step machine: the caller asks `next_probe` which height to look up, hands
//! the probed timestamp to `step`, and repeats until `done` holds an
//! outcome. Each step shrinks the interval, and the lemmas below show that,
//! over any strictly monotone timestamp assignment that answered the probes,
//! the outcome is the highest height in range whose timestamp lies at or
//! before the target — or `NotReached` when the target precedes the whole
//! range, in which case the caller skips valuation.

use vstd::prelude::*;

verus! {

/// How a search ends.
#[derive(Clone, Copy, PartialEq, Eq, Structural, Debug)]
pub enum SearchOutcome {
    /// The highest height in range whose timestamp is at or before the
    /// target.
    Height(u64),
    /// The target precedes the first height's timestamp: the chain had not
    /// reached the target instant yet.
    NotReached,
}

/// An in-flight binary search for `target` over the heights
/// `[lo_bound, hi_bound]`.
#[derive(Clone, Copy, PartialEq, Eq, Structural, Debug)]
pub struct TimeSearch {
    pub target: u64,
    pub lo_bound: u64,
    pub hi_bound: u64,
    pub low: u64,
    pub high: u64,
    pub done: Option<SearchOutcome>,
}

impl TimeSearch {
    pub open spec fn wf(self) -> bool {
        self.hi_bound < u64::MAX && self.lo_bound <= self.hi_bound && (self.done is None
            ==> self.lo_bound <= self.low && self.low <= self.high && self.high <= self.hi_bound)
    }

    /// The next height to probe.
    pub open spec fn spec_mid(self) -> u64 {
        (self.low + (self.high - self.low) / 2) as u64
    }

    /// How far the search still has to go; every step strictly shrinks it.
    pub open spec fn measure(self) -> int {
        if self.done is None {
            self.high - self.low + 1
        } else {
            0
        }
    }

    /// What one step does, as a function of the probed timestamp alone.
    pub open spec fn spec_step(self, probed_ts: u64) -> TimeSearch {
        let mid = self.spec_mid();
        if probed_ts == self.target {
            TimeSearch { done: Some(SearchOutcome::Height(mid)), ..self }
        } else if probed_ts < self.target {
            let low2 = (mid + 1) as u64;
            if low2 > self.high {
                TimeSearch { low: low2, done: Some(SearchOutcome::Height(self.high)), ..self }
            } else {
                TimeSearch { low: low2, ..self }
            }
        } else {
            if mid == self.lo_bound {
                TimeSearch { done: Some(SearchOutcome::NotReached), ..self }
            } else {
                let high2 = (mid - 1) as u64;
                if high2 < self.low {
                    TimeSearch { high: high2, done: Some(SearchOutcome::Height(high2)), ..self }
                } else {
                    TimeSearch { high: high2, ..self }
                }
            }
        }
    }

    /// Starts a search for the highest height in `[low, high]` whose
    /// timestamp is at or before `target`.
    pub fn new(target: u64, low: u64, high: u64) -> (r: TimeSearch)
        requires
            low <= high,
            high < u64::MAX,
        ensures
            r.wf(),
            r == (TimeSearch {
                target,
                lo_bound: low,
                hi_bound: high,
                low,
                high,
                done: None::<SearchOutcome>,
            }),
    {
        TimeSearch { target, lo_bound: low, hi_bound: high, low, high, done: None }
    }

    /// The height whose timestamp the caller must fetch next, or `None`
    /// once the search is done.
    pub fn next_probe(&self) -> (r: Option<u64>)
        requires
            self.wf(),
        ensures
            match r {
                Some(mid) => self.done is None && mid == self.spec_mid() && self.lo_bound <= mid
                    <= self.hi_bound,
                None => self.done is Some,
            },
    {
        match self.done {
            Some(_) => None,
            None => Some(self.low + (self.high - self.low) / 2),
        }
    }

    /// Feeds the probed timestamp back: exactly the transition `spec_step`
    /// prescribes, and the remaining interval strictly shrinks, so any
    /// caller's probe loop terminates.
    pub fn step(&mut self, probed_ts: u64)
        requires
            old(self).wf(),
            old(self).done is None,
        ensures
            final(self).wf(),
            *final(self) == old(self).spec_step(probed_ts),
            final(self).measure() < old(self).measure(),
    {
        let mid = self.low + (self.high - self.low) / 2;
        if probed_ts == self.target {
            self.done = Some(SearchOutcome::Height(mid));
        } else if probed_ts < self.target {
            let low2 = mid + 1;
            self.low = low2;
            if low2 > self.high {
                self.done = Some(SearchOutcome::Height(self.high));
            }
        } else {
            if mid == self.lo_bound {
                self.done = Some(SearchOutcome::NotReached);
            } else {
                let high2 = mid - 1;
                self.high = high2;
                if high2 < self.low {
                    self.done = Some(SearchOutcome::Height(high2));
                }
            }
        }
    }
}

/// A strictly monotone timestamp assignment over the heights `[lo, hi]`:
/// the trusted assumption the chain provides.
pub open spec fn timestamps_monotone(ts: Map<u64, u64>, lo: u64, hi: u64) -> bool {
    (forall|h: u64| lo <= h <= hi ==> ts.dom().contains(h)) && (forall|h1: u64, h2: u64|
        lo <= h1 && h1 < h2 && h2 <= hi ==> #[trigger] ts[h1] < #[trigger] ts[h2])
}

/// What the search knows at any instant, over the timestamp assignment that
/// answered its probes so far.
pub open spec fn search_inv(s: TimeSearch, ts: Map<u64, u64>) -> bool {
    match s.done {
        None => (forall|h: u64| s.lo_bound <= h < s.low ==> #[trigger] ts[h] <= s.target) && (
        forall|h: u64| s.high < h <= s.hi_bound ==> #[trigger] ts[h] > s.target),
        Some(SearchOutcome::Height(a)) => s.lo_bound <= a <= s.hi_bound && ts[a] <= s.target && (
        forall|h: u64| a < h <= s.hi_bound ==> #[trigger] ts[h] > s.target),
        Some(SearchOutcome::NotReached) => ts[s.lo_bound] > s.target,
    }
}

/// A fresh search satisfies the invariant: nothing is known yet.
pub proof fn lemma_search_init(s: TimeSearch, ts: Map<u64, u64>)
    requires
        s.wf(),
        s.done is None,
        s.low == s.lo_bound,
        s.high == s.hi_bound,
    ensures
        search_inv(s, ts),
{
}

/// One step preserves the invariant, provided the probe truthfully answered
/// the monotone timestamp assignment at the probed height.
pub proof fn lemma_step_preserves_inv(s: TimeSearch, ts: Map<u64, u64>, probed_ts: u64)
    requires
        s.wf(),
        s.done is None,
        search_inv(s, ts),
        timestamps_monotone(ts, s.lo_bound, s.hi_bound),
        probed_ts == ts[s.spec_mid()],
    ensures
        search_inv(s.spec_step(probed_ts), ts),
{
    let mid = s.spec_mid();
    let t = s.spec_step(probed_ts);
    assert(s.low <= mid <= s.high);
    if probed_ts == s.target {
        assert forall|h: u64| mid < h <= s.hi_bound implies #[trigger] ts[h] > s.target by {
            if h <= s.high {
                assert(ts[mid] < ts[h]);
            }
        }
    } else if probed_ts < s.target {
        assert forall|h: u64| s.lo_bound <= h < mid + 1 implies #[trigger] ts[h] <= s.target by {
            if h >= s.low {
                if h < mid {
                    assert(ts[h] < ts[mid]);
                }
            }
        }
        if mid + 1 > s.high {
            assert(s.high == mid);
            assert(ts[s.high] <= s.target);
        }
    } else {
        if mid == s.lo_bound {
            assert(ts[s.lo_bound] > s.target);
        } else {
            assert forall|h: u64| mid - 1 < h && h <= s.hi_bound implies #[trigger] ts[h]
                > s.target by {
                if h <= s.high {
                    if h > mid {
                        assert(ts[mid] < ts[h]);
                    }
                }
            }
            if mid - 1 < s.low {
                assert(mid == s.low);
                assert(s.lo_bound <= s.low - 1 < s.low);
                assert(ts[(s.low - 1) as u64] <= s.target);
            }
        }
    }
}

/// A finished search answers the resolution question exactly: `Height(a)`
/// is the highest height in range with a timestamp at or before the target,
/// and `NotReached` means the target precedes the whole range.
pub proof fn lemma_search_outcome(s: TimeSearch, ts: Map<u64, u64>)
    requires
        s.wf(),
        search_inv(s, ts),
        timestamps_monotone(ts, s.lo_bound, s.hi_bound),
        s.done is Some,
    ensures
        match s.done->Some_0 {
            SearchOutcome::Height(a) => s.lo_bound <= a <= s.hi_bound && ts[a] <= s.target && (
            forall|h: u64| a < h <= s.hi_bound ==> #[trigger] ts[h] > s.target),
            SearchOutcome::NotReached => ts[s.lo_bound] > s.target,
        },
{
}

} // verus!
