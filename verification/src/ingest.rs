//! The ingestion pipeline: classification of protocol events into ledger
//! entries, and page-at-a-time application with an atomically advancing
//! checkpoint, so that a crashed run can resume from the last committed
//! height without double-applying or losing a page.

use vstd::prelude::*;

use crate::ledger::{
    append_entry, entry_admissible, height_admissible, record_price, Ledger, LedgerModel,
};
use crate::types::{
    entry_bounded, open_checkpoint_time, Address, ClassifyError, DebitEntry, LpKey, Policy,
    PositionClass, PositionKey, SharePrice,
};

verus! {

/// One protocol event as the chain link hands it over: already paired with
/// its block height and that block's resolved timestamp. Amounts are
/// unsigned fixed-point values at a scale of 18 decimal digits; the sign of
/// the resulting ledger entry comes from the classification.
#[derive(Clone, Copy, PartialEq, Eq, Structural, Debug)]
pub enum RawEvent {
    OpenLong {
        trader: Address,
        maturity_time: u64,
        block_height: u64,
        timestamp: u64,
        base_amount: u128,
        bond_amount: u128,
    },
    CloseLong {
        trader: Address,
        maturity_time: u64,
        block_height: u64,
        timestamp: u64,
        base_amount: u128,
        bond_amount: u128,
    },
    OpenShort {
        trader: Address,
        maturity_time: u64,
        block_height: u64,
        timestamp: u64,
        base_amount: u128,
        bond_amount: u128,
    },
    CloseShort {
        trader: Address,
        maturity_time: u64,
        block_height: u64,
        timestamp: u64,
        base_amount: u128,
        bond_amount: u128,
    },
    Initialize {
        provider: Address,
        block_height: u64,
        timestamp: u64,
        lp_amount: u128,
        base_amount: u128,
    },
    AddLiquidity {
        provider: Address,
        block_height: u64,
        timestamp: u64,
        lp_amount: u128,
        base_amount: u128,
    },
    RemoveLiquidity {
        provider: Address,
        block_height: u64,
        timestamp: u64,
        lp_amount: u128,
        base_amount: u128,
    },
}

impl RawEvent {
    /// Event amounts must fit the signed fixed-point range, a machine limit.
    pub open spec fn amounts_bounded(self) -> bool {
        match self {
            RawEvent::OpenLong { base_amount, bond_amount, .. }
            | RawEvent::CloseLong { base_amount, bond_amount, .. }
            | RawEvent::OpenShort { base_amount, bond_amount, .. }
            | RawEvent::CloseShort { base_amount, bond_amount, .. } => base_amount
                <= i128::MAX as u128 && bond_amount <= i128::MAX as u128,
            RawEvent::Initialize { base_amount, lp_amount, .. }
            | RawEvent::AddLiquidity { base_amount, lp_amount, .. }
            | RawEvent::RemoveLiquidity { base_amount, lp_amount, .. } => base_amount
                <= i128::MAX as u128 && lp_amount <= i128::MAX as u128,
        }
    }
}

/// The ledger entry one event classifies into. Opens and adds are positive,
/// closes and removes negative; for a long or short the secondary amount is
/// the bond amount, for liquidity the LP-share amount.
pub open spec fn spec_entry_of(e: RawEvent) -> DebitEntry {
    match e {
        RawEvent::OpenLong { block_height, timestamp, base_amount, bond_amount, .. }
        | RawEvent::OpenShort { block_height, timestamp, base_amount, bond_amount, .. } => DebitEntry {
            block_height,
            timestamp,
            base_amount: base_amount as i128,
            secondary_amount: bond_amount as i128,
        },
        RawEvent::CloseLong { block_height, timestamp, base_amount, bond_amount, .. }
        | RawEvent::CloseShort { block_height, timestamp, base_amount, bond_amount, .. } => DebitEntry {
            block_height,
            timestamp,
            base_amount: (-(base_amount as int)) as i128,
            secondary_amount: (-(bond_amount as int)) as i128,
        },
        RawEvent::Initialize { block_height, timestamp, lp_amount, base_amount, .. }
        | RawEvent::AddLiquidity { block_height, timestamp, lp_amount, base_amount, .. } => DebitEntry {
            block_height,
            timestamp,
            base_amount: base_amount as i128,
            secondary_amount: lp_amount as i128,
        },
        RawEvent::RemoveLiquidity { block_height, timestamp, lp_amount, base_amount, .. } => DebitEntry {
            block_height,
            timestamp,
            base_amount: (-(base_amount as int)) as i128,
            secondary_amount: (-(lp_amount as int)) as i128,
        },
    }
}

/// What applying one classified event does to the ledger model: appends its
/// entry under its key, creating the history only on an open or an add.
/// A close or remove without a prior open fails with `UnknownPosition`; an
/// entry whose height does not lie strictly above its history fails with
/// `OutOfOrder`. Checkpoint prices are never touched by an event.
pub open spec fn spec_apply_event(m: LedgerModel, e: RawEvent) -> Result<LedgerModel, ClassifyError> {
    let entry = spec_entry_of(e);
    match e {
        RawEvent::OpenLong { trader, maturity_time, .. } => {
            let key = PositionKey { trader, maturity_time };
            if !entry_admissible(m.longs, key, entry) {
                Err(ClassifyError::OutOfOrder)
            } else {
                Ok(LedgerModel { longs: append_entry(m.longs, key, entry), ..m })
            }
        },
        RawEvent::CloseLong { trader, maturity_time, .. } => {
            let key = PositionKey { trader, maturity_time };
            if !m.longs.dom().contains(key) {
                Err(ClassifyError::UnknownPosition)
            } else if !entry_admissible(m.longs, key, entry) {
                Err(ClassifyError::OutOfOrder)
            } else {
                Ok(LedgerModel { longs: append_entry(m.longs, key, entry), ..m })
            }
        },
        RawEvent::OpenShort { trader, maturity_time, .. } => {
            let key = PositionKey { trader, maturity_time };
            if !entry_admissible(m.shorts, key, entry) {
                Err(ClassifyError::OutOfOrder)
            } else {
                Ok(LedgerModel { shorts: append_entry(m.shorts, key, entry), ..m })
            }
        },
        RawEvent::CloseShort { trader, maturity_time, .. } => {
            let key = PositionKey { trader, maturity_time };
            if !m.shorts.dom().contains(key) {
                Err(ClassifyError::UnknownPosition)
            } else if !entry_admissible(m.shorts, key, entry) {
                Err(ClassifyError::OutOfOrder)
            } else {
                Ok(LedgerModel { shorts: append_entry(m.shorts, key, entry), ..m })
            }
        },
        RawEvent::Initialize { provider, .. } | RawEvent::AddLiquidity { provider, .. } => {
            let key = LpKey { provider };
            if !entry_admissible(m.lps, key, entry) {
                Err(ClassifyError::OutOfOrder)
            } else {
                Ok(LedgerModel { lps: append_entry(m.lps, key, entry), ..m })
            }
        },
        RawEvent::RemoveLiquidity { provider, .. } => {
            let key = LpKey { provider };
            if !m.lps.dom().contains(key) {
                Err(ClassifyError::UnknownPosition)
            } else if !entry_admissible(m.lps, key, entry) {
                Err(ClassifyError::OutOfOrder)
            } else {
                Ok(LedgerModel { lps: append_entry(m.lps, key, entry), ..m })
            }
        },
    }
}

/// Applying a page of events in chronological order. Under the strict
/// policy the first classification failure aborts the fold; under the
/// lenient policy the failing event is skipped and the fold goes on.
pub open spec fn spec_apply_events(m: LedgerModel, evs: Seq<RawEvent>, policy: Policy) -> Result<
    LedgerModel,
    ClassifyError,
>
    decreases evs.len(),
{
    if evs.len() == 0 {
        Ok(m)
    } else {
        match spec_apply_events(m, evs.drop_last(), policy) {
            Err(e) => Err(e),
            Ok(m2) => match spec_apply_event(m2, evs.last()) {
                Ok(m3) => Ok(m3),
                Err(e) => if policy is Strict {
                    Err(e)
                } else {
                    Ok(m2)
                },
            },
        }
    }
}

/// How many events of the page the lenient fold skips.
pub open spec fn spec_skipped(m: LedgerModel, evs: Seq<RawEvent>) -> int
    decreases evs.len(),
{
    if evs.len() == 0 {
        0
    } else {
        spec_skipped(m, evs.drop_last()) + match spec_apply_events(m, evs.drop_last(), Policy::Lenient) {
            Ok(m2) => if spec_apply_event(m2, evs.last()) is Err {
                1int
            } else {
                0int
            },
            Err(_) => 0int,
        }
    }
}

/// The lenient fold never fails.
pub proof fn lemma_lenient_never_fails(m: LedgerModel, evs: Seq<RawEvent>)
    ensures
        spec_apply_events(m, evs, Policy::Lenient) is Ok,
    decreases evs.len(),
{
    if evs.len() > 0 {
        lemma_lenient_never_fails(m, evs.drop_last());
    }
}

/// Recording a page's fetched checkpoint prices, in order, each under the
/// first-writer-wins rule.
pub open spec fn spec_record_prices(m: LedgerModel, ps: Seq<(u64, SharePrice)>) -> LedgerModel
    decreases ps.len(),
{
    if ps.len() == 0 {
        m
    } else {
        let m2 = spec_record_prices(m, ps.drop_last());
        LedgerModel { prices: record_price(m2.prices, ps.last().0, ps.last().1), ..m2 }
    }
}

/// One whole page: classify and apply the events, then record the page's
/// checkpoint prices.
pub open spec fn spec_ingest_page(
    m: LedgerModel,
    evs: Seq<RawEvent>,
    ps: Seq<(u64, SharePrice)>,
    policy: Policy,
) -> Result<LedgerModel, ClassifyError> {
    match spec_apply_events(m, evs, policy) {
        Err(e) => Err(e),
        Ok(m2) => Ok(spec_record_prices(m2, ps)),
    }
}

// ---------------------------------------------------------------------------
// Exec classification
// ---------------------------------------------------------------------------

/// Classifies one event and applies it to the ledger: the ledger afterwards
/// is exactly what `spec_apply_event` prescribes, and on failure it is
/// untouched.
pub fn apply_event(ledger: &mut Ledger, e: &RawEvent) -> (r: Result<(), ClassifyError>)
    requires
        old(ledger).wf(),
        e.amounts_bounded(),
    ensures
        final(ledger).wf(),
        match r {
            Ok(()) => spec_apply_event(old(ledger).model(), *e) == Ok::<LedgerModel, ClassifyError>(
                final(ledger).model(),
            ),
            Err(er) => spec_apply_event(old(ledger).model(), *e) == Err::<
                LedgerModel,
                ClassifyError,
            >(er) && *final(ledger) == *old(ledger),
        },
{
    let ghost m0 = ledger.model();
    match *e {
        RawEvent::OpenLong { trader, maturity_time, block_height, timestamp, base_amount, bond_amount } => {
            let key = PositionKey { trader, maturity_time };
            let entry = DebitEntry {
                block_height,
                timestamp,
                base_amount: base_amount as i128,
                secondary_amount: bond_amount as i128,
            };
            if !admissible_position(ledger, PositionClass::Long, key, block_height) {
                return Err(ClassifyError::OutOfOrder);
            }
            ledger.apply_open(PositionClass::Long, key, entry);
            proof {
                assert(ledger.model() =~= spec_apply_event(m0, *e)->Ok_0);
            }
            Ok(())
        },
        RawEvent::CloseLong { trader, maturity_time, block_height, timestamp, base_amount, bond_amount } => {
            let key = PositionKey { trader, maturity_time };
            let entry = DebitEntry {
                block_height,
                timestamp,
                base_amount: -(base_amount as i128),
                secondary_amount: -(bond_amount as i128),
            };
            if !admissible_position(ledger, PositionClass::Long, key, block_height) {
                // An absent key is always admissible, so this is a height
                // out of chain order under an existing history.
                return Err(ClassifyError::OutOfOrder);
            }
            match ledger.apply_close(PositionClass::Long, key, entry) {
                Ok(()) => {
                    proof {
                        assert(ledger.model() =~= spec_apply_event(m0, *e)->Ok_0);
                    }
                    Ok(())
                },
                Err(er) => Err(er),
            }
        },
        RawEvent::OpenShort { trader, maturity_time, block_height, timestamp, base_amount, bond_amount } => {
            let key = PositionKey { trader, maturity_time };
            let entry = DebitEntry {
                block_height,
                timestamp,
                base_amount: base_amount as i128,
                secondary_amount: bond_amount as i128,
            };
            if !admissible_position(ledger, PositionClass::Short, key, block_height) {
                return Err(ClassifyError::OutOfOrder);
            }
            ledger.apply_open(PositionClass::Short, key, entry);
            proof {
                assert(ledger.model() =~= spec_apply_event(m0, *e)->Ok_0);
            }
            Ok(())
        },
        RawEvent::CloseShort { trader, maturity_time, block_height, timestamp, base_amount, bond_amount } => {
            let key = PositionKey { trader, maturity_time };
            let entry = DebitEntry {
                block_height,
                timestamp,
                base_amount: -(base_amount as i128),
                secondary_amount: -(bond_amount as i128),
            };
            if !admissible_position(ledger, PositionClass::Short, key, block_height) {
                // An absent key is always admissible, so this is a height
                // out of chain order under an existing history.
                return Err(ClassifyError::OutOfOrder);
            }
            match ledger.apply_close(PositionClass::Short, key, entry) {
                Ok(()) => {
                    proof {
                        assert(ledger.model() =~= spec_apply_event(m0, *e)->Ok_0);
                    }
                    Ok(())
                },
                Err(er) => Err(er),
            }
        },
        RawEvent::Initialize { provider, block_height, timestamp, lp_amount, base_amount }
        | RawEvent::AddLiquidity { provider, block_height, timestamp, lp_amount, base_amount } => {
            let key = LpKey { provider };
            let entry = DebitEntry {
                block_height,
                timestamp,
                base_amount: base_amount as i128,
                secondary_amount: lp_amount as i128,
            };
            if !admissible_lp(ledger, key, block_height) {
                return Err(ClassifyError::OutOfOrder);
            }
            ledger.apply_lp_open(key, entry);
            proof {
                assert(ledger.model() =~= spec_apply_event(m0, *e)->Ok_0);
            }
            Ok(())
        },
        RawEvent::RemoveLiquidity { provider, block_height, timestamp, lp_amount, base_amount } => {
            let key = LpKey { provider };
            let entry = DebitEntry {
                block_height,
                timestamp,
                base_amount: -(base_amount as i128),
                secondary_amount: -(lp_amount as i128),
            };
            if !admissible_lp(ledger, key, block_height) {
                // An absent key is always admissible, so this is a height
                // out of chain order under an existing history.
                return Err(ClassifyError::OutOfOrder);
            }
            match ledger.apply_lp_close(key, entry) {
                Ok(()) => {
                    proof {
                        assert(ledger.model() =~= spec_apply_event(m0, *e)->Ok_0);
                    }
                    Ok(())
                },
                Err(er) => Err(er),
            }
        },
    }
}

/// Whether an entry at `height` would respect chain order under `key`.
fn admissible_position(ledger: &Ledger, class: PositionClass, key: PositionKey, height: u64) -> (r:
    bool)
    requires
        ledger.wf(),
    ensures
        r == height_admissible(ledger.book_map(class), key, height),
{
    match ledger.last_entry_height(class, key) {
        Some(last) => height > last,
        None => true,
    }
}

fn admissible_lp(ledger: &Ledger, key: LpKey, height: u64) -> (r: bool)
    requires
        ledger.wf(),
    ensures
        r == height_admissible(ledger.lps_map(), key, height),
{
    match ledger.lp_last_entry_height(key) {
        Some(last) => height > last,
        None => true,
    }
}

// ---------------------------------------------------------------------------
// Checkpoint-price requests
// ---------------------------------------------------------------------------

/// Each open short references two checkpoints: its opening instant, one
/// position duration before maturity, and its maturity instant.
pub open spec fn spec_checkpoint_times(evs: Seq<RawEvent>, position_duration: u64) -> Seq<u64>
    decreases evs.len(),
{
    if evs.len() == 0 {
        Seq::empty()
    } else {
        spec_checkpoint_times(evs.drop_last(), position_duration) + match evs.last() {
            RawEvent::OpenShort { maturity_time, .. } => seq![
                open_checkpoint_time(maturity_time, position_duration),
                maturity_time,
            ],
            _ => Seq::<u64>::empty(),
        }
    }
}

/// The checkpoint instants whose prices this page needs: two per open short,
/// in page order. The caller resolves each to a block height and a price
/// sample and hands both to `ingest_page`.
pub fn checkpoint_requests(events: &Vec<RawEvent>, position_duration: u64) -> (r: Vec<u64>)
    ensures
        r@ == spec_checkpoint_times(events@, position_duration),
{
    let mut r: Vec<u64> = Vec::new();
    let mut i: usize = 0;
    while i < events.len()
        invariant
            i <= events@.len(),
            r@ == spec_checkpoint_times(events@.take(i as int), position_duration),
        decreases events@.len() - i,
    {
        proof {
            assert(events@.take(i as int + 1).drop_last() =~= events@.take(i as int));
            assert(events@.take(i as int + 1).last() == events@[i as int]);
        }
        match events[i] {
            RawEvent::OpenShort { maturity_time, .. } => {
                let open_time = if maturity_time >= position_duration {
                    maturity_time - position_duration
                } else {
                    0
                };
                r.push(open_time);
                r.push(maturity_time);
            },
            _ => {},
        }
        proof {
            assert(r@ =~= spec_checkpoint_times(events@.take(i as int + 1), position_duration));
        }
        i = i + 1;
    }
    proof {
        assert(events@.take(events@.len() as int) =~= events@);
    }
    r
}

// ---------------------------------------------------------------------------
// The pipeline state
// ---------------------------------------------------------------------------

/// What one page's ingestion did.
#[derive(Clone, Copy, PartialEq, Eq, Structural, Debug)]
pub struct PageStats {
    pub applied: usize,
    pub skipped: usize,
}

/// The resumable pipeline state: the ledger and the high-water mark. The
/// two advance together in one atomic step per page; a failed page leaves
/// both exactly as the last commit left them.
pub struct IngestionState {
    pub ledger: Ledger,
    pub last_committed_height: u64,
}

impl IngestionState {
    pub open spec fn wf(&self) -> bool {
        self.ledger.wf()
    }

    /// A fresh run starting at the protocol's deployment height with an
    /// empty ledger.
    pub fn start(deploy_height: u64) -> (r: IngestionState)
        ensures
            r.wf(),
            r.last_committed_height == deploy_height,
            r.ledger.model() =~= (LedgerModel {
                longs: Map::empty(),
                shorts: Map::empty(),
                lps: Map::empty(),
                prices: Map::empty(),
            }),
    {
        IngestionState { ledger: Ledger::new(), last_committed_height: deploy_height }
    }

    /// Restores the state a crashed or finished run persisted: ledger and
    /// checkpoint as they were committed together.
    pub fn resume(ledger: Ledger, last_committed_height: u64) -> (r: IngestionState)
        requires
            ledger.wf(),
        ensures
            r.wf(),
            r.ledger == ledger,
            r.last_committed_height == last_committed_height,
    {
        IngestionState { ledger, last_committed_height }
    }

    /// Ingests one page: applies the page's events in chronological order,
    /// records the page's checkpoint prices first-writer-wins, and advances
    /// the checkpoint to the page's end height — all in one atomic step on
    /// the in-memory state. Under the strict policy a classification failure
    /// aborts the whole page and leaves the state exactly as the last commit
    /// left it; under the lenient policy failing events are skipped and
    /// counted.
    #[verifier::loop_isolation(false)]
    pub fn ingest_page(
        &mut self,
        events: &Vec<RawEvent>,
        prices: &Vec<(u64, SharePrice)>,
        page_end: u64,
        policy: Policy,
    ) -> (r: Result<PageStats, ClassifyError>)
        requires
            old(self).wf(),
            forall|i: int| 0 <= i < events@.len() ==> (#[trigger] events@[i]).amounts_bounded(),
            old(self).last_committed_height <= page_end,
        ensures
            final(self).wf(),
            match r {
                Ok(stats) => {
                    &&& spec_ingest_page(old(self).ledger.model(), events@, prices@, policy)
                        == Ok::<LedgerModel, ClassifyError>(final(self).ledger.model())
                    &&& final(self).last_committed_height == page_end
                    &&& final(self).last_committed_height >= old(self).last_committed_height
                    &&& stats.applied + stats.skipped == events@.len()
                    &&& stats.skipped == spec_skipped(old(self).ledger.model(), events@)
                    &&& policy is Strict ==> stats.skipped == 0
                },
                Err(e) => {
                    &&& *final(self) == *old(self)
                    &&& policy is Strict
                    &&& spec_ingest_page(old(self).ledger.model(), events@, prices@, policy)
                        == Err::<LedgerModel, ClassifyError>(e)
                },
            },
    {
        let ghost m0 = self.ledger.model();
        let mut work = self.ledger.snapshot();
        proof {
            assert(work.model() =~= m0);
        }
        let mut applied: usize = 0;
        let mut skipped: usize = 0;
        let mut i: usize = 0;
        while i < events.len()
            invariant
                i <= events@.len(),
                work.wf(),
                forall|k: int| 0 <= k < events@.len() ==> (#[trigger] events@[k]).amounts_bounded(),
                spec_apply_events(m0, events@.take(i as int), policy) == Ok::<
                    LedgerModel,
                    ClassifyError,
                >(work.model()),
                applied + skipped == i,
                policy is Lenient ==> skipped == spec_skipped(m0, events@.take(i as int)),
                policy is Strict ==> skipped == 0,
            decreases events@.len() - i,
        {
            proof {
                assert(events@.take(i as int + 1).drop_last() =~= events@.take(i as int));
                assert(events@.take(i as int + 1).last() == events@[i as int]);
                if policy is Lenient {
                    lemma_lenient_never_fails(m0, events@.take(i as int));
                }
            }
            match apply_event(&mut work, &events[i]) {
                Ok(()) => {
                    applied = applied + 1;
                },
                Err(e) => {
                    match policy {
                        Policy::Strict => {
                            proof {
                                lemma_apply_events_err_propagates(m0, events@, policy, i as int + 1);
                            }
                            return Err(e);
                        },
                        Policy::Lenient => {
                            skipped = skipped + 1;
                        },
                    }
                },
            }
            i = i + 1;
        }
        proof {
            assert(events@.take(events@.len() as int) =~= events@);
            if policy is Strict {
                lemma_strict_ok_matches_lenient(m0, events@);
            }
        }
        let ghost m1 = work.model();
        let mut j: usize = 0;
        while j < prices.len()
            invariant
                j <= prices@.len(),
                work.wf(),
                work.model() == spec_record_prices(m1, prices@.take(j as int)),
            decreases prices@.len() - j,
        {
            proof {
                assert(prices@.take(j as int + 1).drop_last() =~= prices@.take(j as int));
                assert(prices@.take(j as int + 1).last() == prices@[j as int]);
            }
            work.record_checkpoint_price(prices[j].0, prices[j].1);
            proof {
                assert(work.model() =~= spec_record_prices(m1, prices@.take(j as int + 1)));
            }
            j = j + 1;
        }
        proof {
            assert(prices@.take(prices@.len() as int) =~= prices@);
        }
        self.ledger = work;
        self.last_committed_height = page_end;
        Ok(PageStats { applied, skipped })
    }
}

/// The histories of two models agree; only the checkpoint prices may differ.
pub open spec fn histories_equal(a: LedgerModel, b: LedgerModel) -> bool {
    a.longs == b.longs && a.shorts == b.shorts && a.lps == b.lps
}

proof fn lemma_apply_events_concat(m: LedgerModel, e1: Seq<RawEvent>, e2: Seq<RawEvent>, policy: Policy)
    ensures
        spec_apply_events(m, e1 + e2, policy) == (match spec_apply_events(m, e1, policy) {
            Err(e) => Err::<LedgerModel, ClassifyError>(e),
            Ok(m2) => spec_apply_events(m2, e2, policy),
        }),
    decreases e2.len(),
{
    if e2.len() == 0 {
        assert(e1 + e2 =~= e1);
    } else {
        assert((e1 + e2).drop_last() =~= e1 + e2.drop_last());
        assert((e1 + e2).last() == e2.last());
        lemma_apply_events_concat(m, e1, e2.drop_last(), policy);
    }
}

proof fn lemma_apply_event_prices_transparent(m1: LedgerModel, m2: LedgerModel, e: RawEvent)
    requires
        histories_equal(m1, m2),
    ensures
        spec_apply_event(m1, e) is Ok <==> spec_apply_event(m2, e) is Ok,
        spec_apply_event(m1, e) is Err ==> spec_apply_event(m1, e) == spec_apply_event(m2, e),
        spec_apply_event(m1, e) is Ok ==> histories_equal(
            spec_apply_event(m1, e)->Ok_0,
            spec_apply_event(m2, e)->Ok_0,
        ) && spec_apply_event(m1, e)->Ok_0.prices == m1.prices && spec_apply_event(
            m2,
            e,
        )->Ok_0.prices == m2.prices,
{
}

proof fn lemma_apply_events_prices_transparent(
    m1: LedgerModel,
    m2: LedgerModel,
    evs: Seq<RawEvent>,
    policy: Policy,
)
    requires
        histories_equal(m1, m2),
    ensures
        spec_apply_events(m1, evs, policy) is Ok <==> spec_apply_events(m2, evs, policy) is Ok,
        spec_apply_events(m1, evs, policy) is Err ==> spec_apply_events(m1, evs, policy)
            == spec_apply_events(m2, evs, policy),
        spec_apply_events(m1, evs, policy) is Ok ==> histories_equal(
            spec_apply_events(m1, evs, policy)->Ok_0,
            spec_apply_events(m2, evs, policy)->Ok_0,
        ) && spec_apply_events(m1, evs, policy)->Ok_0.prices == m1.prices && spec_apply_events(
            m2,
            evs,
            policy,
        )->Ok_0.prices == m2.prices,
    decreases evs.len(),
{
    if evs.len() > 0 {
        lemma_apply_events_prices_transparent(m1, m2, evs.drop_last(), policy);
        if spec_apply_events(m1, evs.drop_last(), policy) is Ok {
            lemma_apply_event_prices_transparent(
                spec_apply_events(m1, evs.drop_last(), policy)->Ok_0,
                spec_apply_events(m2, evs.drop_last(), policy)->Ok_0,
                evs.last(),
            );
        }
    }
}

proof fn lemma_record_prices_histories(m: LedgerModel, ps: Seq<(u64, SharePrice)>)
    ensures
        histories_equal(spec_record_prices(m, ps), m),
    decreases ps.len(),
{
    if ps.len() > 0 {
        lemma_record_prices_histories(m, ps.drop_last());
    }
}

proof fn lemma_record_prices_only_prices(a: LedgerModel, b: LedgerModel, ps: Seq<(u64, SharePrice)>)
    requires
        a.prices == b.prices,
    ensures
        spec_record_prices(a, ps).prices == spec_record_prices(b, ps).prices,
    decreases ps.len(),
{
    if ps.len() > 0 {
        lemma_record_prices_only_prices(a, b, ps.drop_last());
    }
}

proof fn lemma_record_prices_concat(m: LedgerModel, p1: Seq<(u64, SharePrice)>, p2: Seq<(u64, SharePrice)>)
    ensures
        spec_record_prices(m, p1 + p2) == spec_record_prices(spec_record_prices(m, p1), p2),
    decreases p2.len(),
{
    if p2.len() == 0 {
        assert(p1 + p2 =~= p1);
    } else {
        assert((p1 + p2).drop_last() =~= p1 + p2.drop_last());
        assert((p1 + p2).last() == p2.last());
        lemma_record_prices_concat(m, p1, p2.drop_last());
    }
}

/// Restart safety: for any page-aligned split, ingesting the events and
/// checkpoint prices of `[A, B)` as one committed page and then, after a
/// restart from that committed state, the events and prices of `[B, C)`,
/// leaves exactly the ledger that ingesting all of `[A, C)` in one run
/// leaves — failures included.
pub proof fn lemma_restart_safety(
    m: LedgerModel,
    e1: Seq<RawEvent>,
    e2: Seq<RawEvent>,
    p1: Seq<(u64, SharePrice)>,
    p2: Seq<(u64, SharePrice)>,
    policy: Policy,
)
    requires
        spec_ingest_page(m, e1, p1, policy) is Ok,
    ensures
        spec_ingest_page(spec_ingest_page(m, e1, p1, policy)->Ok_0, e2, p2, policy)
            == spec_ingest_page(m, e1 + e2, p1 + p2, policy),
{
    let m1 = spec_apply_events(m, e1, policy)->Ok_0;
    let mr = spec_record_prices(m1, p1);
    lemma_record_prices_histories(m1, p1);
    lemma_apply_events_concat(m, e1, e2, policy);
    lemma_apply_events_prices_transparent(mr, m1, e2, policy);
    if spec_apply_events(m1, e2, policy) is Ok {
        let m2p = spec_apply_events(mr, e2, policy)->Ok_0;
        let m2 = spec_apply_events(m1, e2, policy)->Ok_0;
        lemma_record_prices_histories(m2, p1);
        lemma_record_prices_only_prices(m2, m1, p1);
        assert(m2p =~= spec_record_prices(m2, p1));
        lemma_record_prices_concat(m2, p1, p2);
    }
}

/// A strict fold that succeeds skipped nothing: it agrees with the lenient
/// fold and no event failed along the way.
proof fn lemma_strict_ok_matches_lenient(m: LedgerModel, evs: Seq<RawEvent>)
    requires
        spec_apply_events(m, evs, Policy::Strict) is Ok,
    ensures
        spec_apply_events(m, evs, Policy::Lenient) == spec_apply_events(m, evs, Policy::Strict),
        spec_skipped(m, evs) == 0,
    decreases evs.len(),
{
    if evs.len() > 0 {
        lemma_strict_ok_matches_lenient(m, evs.drop_last());
    }
}

proof fn lemma_apply_events_err_propagates(
    m: LedgerModel,
    evs: Seq<RawEvent>,
    policy: Policy,
    n: int,
)
    requires
        0 <= n <= evs.len(),
        spec_apply_events(m, evs.take(n), policy) is Err,
    ensures
        spec_apply_events(m, evs, policy) == spec_apply_events(m, evs.take(n), policy),
    decreases evs.len() - n,
{
    if n == evs.len() {
        assert(evs.take(n) =~= evs);
    } else {
        assert(evs.take(n + 1).drop_last() =~= evs.take(n));
        assert(evs.take(n + 1).last() == evs[n]);
        lemma_apply_events_err_propagates(m, evs, policy, n + 1);
    }
}

// ---------------------------------------------------------------------------
// Exactly-once accounting
// ---------------------------------------------------------------------------

/// The classified entries a page holds for one long-book key, in page order.
pub open spec fn long_entries_of(evs: Seq<RawEvent>, key: PositionKey) -> Seq<DebitEntry>
    decreases evs.len(),
{
    if evs.len() == 0 {
        Seq::empty()
    } else {
        long_entries_of(evs.drop_last(), key) + match evs.last() {
            RawEvent::OpenLong { trader, maturity_time, .. }
            | RawEvent::CloseLong { trader, maturity_time, .. } => if (PositionKey {
                trader,
                maturity_time,
            }) == key {
                seq![spec_entry_of(evs.last())]
            } else {
                Seq::<DebitEntry>::empty()
            },
            _ => Seq::<DebitEntry>::empty(),
        }
    }
}

/// The classified entries a page holds for one short-book key, in page order.
pub open spec fn short_entries_of(evs: Seq<RawEvent>, key: PositionKey) -> Seq<DebitEntry>
    decreases evs.len(),
{
    if evs.len() == 0 {
        Seq::empty()
    } else {
        short_entries_of(evs.drop_last(), key) + match evs.last() {
            RawEvent::OpenShort { trader, maturity_time, .. }
            | RawEvent::CloseShort { trader, maturity_time, .. } => if (PositionKey {
                trader,
                maturity_time,
            }) == key {
                seq![spec_entry_of(evs.last())]
            } else {
                Seq::<DebitEntry>::empty()
            },
            _ => Seq::<DebitEntry>::empty(),
        }
    }
}

/// The classified entries a page holds for one liquidity key, in page order.
pub open spec fn lp_entries_of(evs: Seq<RawEvent>, key: LpKey) -> Seq<DebitEntry>
    decreases evs.len(),
{
    if evs.len() == 0 {
        Seq::empty()
    } else {
        lp_entries_of(evs.drop_last(), key) + match evs.last() {
            RawEvent::Initialize { provider, .. }
            | RawEvent::AddLiquidity { provider, .. }
            | RawEvent::RemoveLiquidity { provider, .. } => if (LpKey { provider }) == key {
                seq![spec_entry_of(evs.last())]
            } else {
                Seq::<DebitEntry>::empty()
            },
            _ => Seq::<DebitEntry>::empty(),
        }
    }
}

/// Exactly-once accounting, long book: when a strict page fold succeeds, the
/// history under each key afterwards is its history before plus exactly the
/// page's classified entries for that key, in page order — nothing lost and
/// nothing applied twice.
pub proof fn lemma_exactly_once_longs(m: LedgerModel, evs: Seq<RawEvent>, key: PositionKey)
    requires
        spec_apply_events(m, evs, Policy::Strict) is Ok,
    ensures
        ({
            let r = spec_apply_events(m, evs, Policy::Strict)->Ok_0;
            let added = long_entries_of(evs, key);
            let before = if m.longs.dom().contains(key) {
                m.longs[key]
            } else {
                Seq::<DebitEntry>::empty()
            };
            &&& (r.longs.dom().contains(key) <==> m.longs.dom().contains(key) || added.len() > 0)
            &&& r.longs.dom().contains(key) ==> r.longs[key] == before + added
        }),
    decreases evs.len(),
{
    let r = spec_apply_events(m, evs, Policy::Strict)->Ok_0;
    let added = long_entries_of(evs, key);
    let before = if m.longs.dom().contains(key) {
        m.longs[key]
    } else {
        Seq::<DebitEntry>::empty()
    };
    if evs.len() == 0 {
        if m.longs.dom().contains(key) {
            assert(r.longs[key] =~= before + added);
        }
    } else {
        lemma_exactly_once_longs(m, evs.drop_last(), key);
        let prev = spec_apply_events(m, evs.drop_last(), Policy::Strict)->Ok_0;
        let added0 = long_entries_of(evs.drop_last(), key);
        match evs.last() {
            RawEvent::OpenLong { trader, maturity_time, .. }
            | RawEvent::CloseLong { trader, maturity_time, .. } => {
                let ekey = PositionKey { trader, maturity_time };
                let entry = spec_entry_of(evs.last());
                if ekey == key {
                    assert(added =~= added0 + seq![entry]);
                    assert(r.longs[key] =~= before + added);
                } else {
                    assert(added =~= added0);
                    if r.longs.dom().contains(key) {
                        assert(r.longs[key] == prev.longs[key]);
                    }
                }
            },
            _ => {
                assert(added =~= added0);
                assert(r.longs == prev.longs);
            },
        }
    }
}

/// Exactly-once accounting, short book.
pub proof fn lemma_exactly_once_shorts(m: LedgerModel, evs: Seq<RawEvent>, key: PositionKey)
    requires
        spec_apply_events(m, evs, Policy::Strict) is Ok,
    ensures
        ({
            let r = spec_apply_events(m, evs, Policy::Strict)->Ok_0;
            let added = short_entries_of(evs, key);
            let before = if m.shorts.dom().contains(key) {
                m.shorts[key]
            } else {
                Seq::<DebitEntry>::empty()
            };
            &&& (r.shorts.dom().contains(key) <==> m.shorts.dom().contains(key) || added.len() > 0)
            &&& r.shorts.dom().contains(key) ==> r.shorts[key] == before + added
        }),
    decreases evs.len(),
{
    let r = spec_apply_events(m, evs, Policy::Strict)->Ok_0;
    let added = short_entries_of(evs, key);
    let before = if m.shorts.dom().contains(key) {
        m.shorts[key]
    } else {
        Seq::<DebitEntry>::empty()
    };
    if evs.len() == 0 {
        if m.shorts.dom().contains(key) {
            assert(r.shorts[key] =~= before + added);
        }
    } else {
        lemma_exactly_once_shorts(m, evs.drop_last(), key);
        let prev = spec_apply_events(m, evs.drop_last(), Policy::Strict)->Ok_0;
        let added0 = short_entries_of(evs.drop_last(), key);
        match evs.last() {
            RawEvent::OpenShort { trader, maturity_time, .. }
            | RawEvent::CloseShort { trader, maturity_time, .. } => {
                let ekey = PositionKey { trader, maturity_time };
                let entry = spec_entry_of(evs.last());
                if ekey == key {
                    assert(added =~= added0 + seq![entry]);
                    assert(r.shorts[key] =~= before + added);
                } else {
                    assert(added =~= added0);
                    if r.shorts.dom().contains(key) {
                        assert(r.shorts[key] == prev.shorts[key]);
                    }
                }
            },
            _ => {
                assert(added =~= added0);
                assert(r.shorts == prev.shorts);
            },
        }
    }
}

/// Exactly-once accounting, liquidity store.
pub proof fn lemma_exactly_once_lps(m: LedgerModel, evs: Seq<RawEvent>, key: LpKey)
    requires
        spec_apply_events(m, evs, Policy::Strict) is Ok,
    ensures
        ({
            let r = spec_apply_events(m, evs, Policy::Strict)->Ok_0;
            let added = lp_entries_of(evs, key);
            let before = if m.lps.dom().contains(key) {
                m.lps[key]
            } else {
                Seq::<DebitEntry>::empty()
            };
            &&& (r.lps.dom().contains(key) <==> m.lps.dom().contains(key) || added.len() > 0)
            &&& r.lps.dom().contains(key) ==> r.lps[key] == before + added
        }),
    decreases evs.len(),
{
    let r = spec_apply_events(m, evs, Policy::Strict)->Ok_0;
    let added = lp_entries_of(evs, key);
    let before = if m.lps.dom().contains(key) {
        m.lps[key]
    } else {
        Seq::<DebitEntry>::empty()
    };
    if evs.len() == 0 {
        if m.lps.dom().contains(key) {
            assert(r.lps[key] =~= before + added);
        }
    } else {
        lemma_exactly_once_lps(m, evs.drop_last(), key);
        let prev = spec_apply_events(m, evs.drop_last(), Policy::Strict)->Ok_0;
        let added0 = lp_entries_of(evs.drop_last(), key);
        match evs.last() {
            RawEvent::Initialize { provider, .. }
            | RawEvent::AddLiquidity { provider, .. }
            | RawEvent::RemoveLiquidity { provider, .. } => {
                let ekey = LpKey { provider };
                let entry = spec_entry_of(evs.last());
                if ekey == key {
                    assert(added =~= added0 + seq![entry]);
                    assert(r.lps[key] =~= before + added);
                } else {
                    assert(added =~= added0);
                    if r.lps.dom().contains(key) {
                        assert(r.lps[key] == prev.lps[key]);
                    }
                }
            },
            _ => {
                assert(added =~= added0);
                assert(r.lps == prev.lps);
            },
        }
    }
}

} // verus!
