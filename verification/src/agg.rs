//! The aggregation engine: replays a point-in-time ledger snapshot at a
//! window boundary into per-account statements.
//!
//! For the window `[window_start, window_end)` the engine tallies per-key
//! activity, computes cumulative balances as of `window_end`, asks the
//! pricing oracle — an external collaborator — for a base-unit valuation of
//! every non-zero secondary balance, and folds everything into one
//! `UserAgg` per account. The oracle's answers enter as plain values, so
//! the whole pass is a function of the snapshot, the window bounds and
//! those answers alone: rerunning it can only reproduce the same statements.
//!
//! A long's valuation horizon is its maturity; its as-of instant is the
//! window end, capped at maturity, so value locks at maturity instead of
//! marking to market past it. Shorts use the same cap and carry their
//! opening- and maturity-checkpoint prices; either price missing is fatal
//! for the pass, since it means ingestion never covered that checkpoint.

use vstd::prelude::*;

use crate::balance::{in_i128, spec_cumulative, window_count, window_volume};
use crate::ledger::{history_wf, Ledger};
use crate::types::{
    open_checkpoint_time, AggError, Address, BalanceError, DebitEntry, LpKey, PositionKey,
    SharePrice,
};

verus! {

/// Which book a per-key statement came from.
#[derive(Clone, Copy, PartialEq, Eq, Structural, Debug)]
pub enum StatementClass {
    Long { maturity_time: u64 },
    Short { maturity_time: u64 },
    Liquidity,
}

/// One key's share of a window statement, before valuation: its account,
/// book, window activity, and cumulative balances as of the window end.
#[derive(Clone, Copy, PartialEq, Eq, Structural, Debug)]
pub struct CoreStatement {
    pub account: Address,
    pub class: StatementClass,
    pub count: usize,
    pub volume: u128,
    pub base_debit: i128,
    pub secondary: i128,
}

/// One valuation the pricing oracle owes the engine, in base units.
#[derive(Clone, Copy, PartialEq, Eq, Structural, Debug)]
#[allow(inconsistent_fields)]
pub enum ValuationRequest {
    CloseLong { key: PositionKey, bond_amount: u128, maturity_time: u64, as_of: u64 },
    CloseShort {
        key: PositionKey,
        bond_amount: u128,
        open_checkpoint_price: u128,
        maturity_checkpoint_price: u128,
        maturity_time: u64,
        as_of: u64,
    },
    Liquidity { key: LpKey, lp_amount: u128 },
}

pub open spec fn agg_error_of(e: BalanceError) -> AggError {
    match e {
        BalanceError::Overflow => AggError::Overflow,
        BalanceError::NegativeSecondary => AggError::NegativeSecondary,
    }
}

pub open spec fn min_u64(a: u64, b: u64) -> u64 {
    if a < b {
        a
    } else {
        b
    }
}

/// The core statement of one key's history for the window
/// `[window_start, window_end)`, balances as of `window_end`.
pub open spec fn spec_core(
    account: Address,
    class: StatementClass,
    h: Seq<DebitEntry>,
    window_start: u64,
    window_end: u64,
) -> Result<CoreStatement, AggError> {
    match spec_cumulative(h, window_end) {
        Err(e) => Err(agg_error_of(e)),
        Ok((b, s)) => {
            if window_volume(h, window_start, window_end) > u128::MAX {
                Err(AggError::Overflow)
            } else {
                Ok(CoreStatement {
                    account,
                    class,
                    count: window_count(h, window_start, window_end) as usize,
                    volume: window_volume(h, window_start, window_end) as u128,
                    base_debit: b as i128,
                    secondary: s as i128,
                })
            }
        },
    }
}

/// Core statements of one position book, in the book's order.
pub open spec fn spec_position_cores(
    list: Seq<(PositionKey, Vec<DebitEntry>)>,
    long: bool,
    window_start: u64,
    window_end: u64,
) -> Result<Seq<CoreStatement>, AggError>
    decreases list.len(),
{
    if list.len() == 0 {
        Ok(Seq::empty())
    } else {
        match spec_position_cores(list.drop_last(), long, window_start, window_end) {
            Err(e) => Err(e),
            Ok(cs) => {
                let key = list.last().0;
                let class = if long {
                    StatementClass::Long { maturity_time: key.maturity_time }
                } else {
                    StatementClass::Short { maturity_time: key.maturity_time }
                };
                match spec_core(key.trader, class, list.last().1@, window_start, window_end) {
                    Err(e) => Err(e),
                    Ok(c) => Ok(cs.push(c)),
                }
            },
        }
    }
}

/// Core statements of the liquidity store, in its order.
pub open spec fn spec_lp_cores(
    list: Seq<(LpKey, Vec<DebitEntry>)>,
    window_start: u64,
    window_end: u64,
) -> Result<Seq<CoreStatement>, AggError>
    decreases list.len(),
{
    if list.len() == 0 {
        Ok(Seq::empty())
    } else {
        match spec_lp_cores(list.drop_last(), window_start, window_end) {
            Err(e) => Err(e),
            Ok(cs) => {
                match spec_core(
                    list.last().0.provider,
                    StatementClass::Liquidity,
                    list.last().1@,
                    window_start,
                    window_end,
                ) {
                    Err(e) => Err(e),
                    Ok(c) => Ok(cs.push(c)),
                }
            },
        }
    }
}

/// Every key's core statement: longs first, then shorts, then liquidity,
/// each store in its own order.
pub open spec fn spec_cores(snapshot: Ledger, window_start: u64, window_end: u64) -> Result<
    Seq<CoreStatement>,
    AggError,
> {
    match spec_position_cores(snapshot.longs@, true, window_start, window_end) {
        Err(e) => Err(e),
        Ok(a) => match spec_position_cores(snapshot.shorts@, false, window_start, window_end) {
            Err(e) => Err(e),
            Ok(b) => match spec_lp_cores(snapshot.lps@, window_start, window_end) {
                Err(e) => Err(e),
                Ok(c) => Ok(a + b + c),
            },
        },
    }
}

/// How many core statements carry a non-zero secondary balance: exactly the
/// valuations the oracle owes.
pub open spec fn count_nonzero(cores: Seq<CoreStatement>) -> int
    decreases cores.len(),
{
    if cores.len() == 0 {
        0
    } else {
        count_nonzero(cores.drop_last()) + if cores.last().secondary != 0 {
            1int
        } else {
            0int
        }
    }
}

/// The valuation request one core statement stands for, if its secondary
/// balance is non-zero. A short needs its two checkpoint prices recorded.
pub open spec fn spec_request_of(
    c: CoreStatement,
    prices: Map<u64, SharePrice>,
    position_duration: u64,
    window_end: u64,
) -> Result<Seq<ValuationRequest>, AggError> {
    if c.secondary == 0 {
        Ok(Seq::empty())
    } else {
        match c.class {
            StatementClass::Long { maturity_time } => Ok(
                seq![
                    ValuationRequest::CloseLong {
                        key: PositionKey { trader: c.account, maturity_time },
                        bond_amount: c.secondary as u128,
                        maturity_time,
                        as_of: min_u64(window_end, maturity_time),
                    },
                ],
            ),
            StatementClass::Short { maturity_time } => {
                let open_time = open_checkpoint_time(maturity_time, position_duration);
                if !prices.dom().contains(open_time) {
                    Err(AggError::MissingCheckpoint(open_time))
                } else if !prices.dom().contains(maturity_time) {
                    Err(AggError::MissingCheckpoint(maturity_time))
                } else {
                    Ok(
                        seq![
                            ValuationRequest::CloseShort {
                                key: PositionKey { trader: c.account, maturity_time },
                                bond_amount: c.secondary as u128,
                                open_checkpoint_price: prices[open_time].price,
                                maturity_checkpoint_price: prices[maturity_time].price,
                                maturity_time,
                                as_of: min_u64(window_end, maturity_time),
                            },
                        ],
                    )
                }
            },
            StatementClass::Liquidity => Ok(
                seq![
                    ValuationRequest::Liquidity {
                        key: LpKey { provider: c.account },
                        lp_amount: c.secondary as u128,
                    },
                ],
            ),
        }
    }
}

/// The valuation requests of a core-statement list, in order.
pub open spec fn spec_requests(
    cores: Seq<CoreStatement>,
    prices: Map<u64, SharePrice>,
    position_duration: u64,
    window_end: u64,
) -> Result<Seq<ValuationRequest>, AggError>
    decreases cores.len(),
{
    if cores.len() == 0 {
        Ok(Seq::empty())
    } else {
        match spec_requests(cores.drop_last(), prices, position_duration, window_end) {
            Err(e) => Err(e),
            Ok(rs) => match spec_request_of(cores.last(), prices, position_duration, window_end) {
                Err(e) => Err(e),
                Ok(r1) => Ok(rs + r1),
            },
        }
    }
}

// ---------------------------------------------------------------------------
// Exec: cores and requests
// ---------------------------------------------------------------------------

fn agg_err(e: BalanceError) -> (r: AggError)
    ensures
        r == agg_error_of(e),
{
    match e {
        BalanceError::Overflow => AggError::Overflow,
        BalanceError::NegativeSecondary => AggError::NegativeSecondary,
    }
}

fn core_statement(
    account: Address,
    class: StatementClass,
    history: &Vec<DebitEntry>,
    window_start: u64,
    window_end: u64,
) -> (r: Result<CoreStatement, AggError>)
    requires
        history_wf(history@),
    ensures
        match r {
            Ok(c) => spec_core(account, class, history@, window_start, window_end) == Ok::<
                CoreStatement,
                AggError,
            >(c),
            Err(e) => spec_core(account, class, history@, window_start, window_end) == Err::<
                CoreStatement,
                AggError,
            >(e),
        },
{
    let bal = match crate::balance::cumulative_balance(history, window_end) {
        Ok(b) => b,
        Err(e) => {
            return Err(agg_err(e));
        },
    };
    let act = match crate::balance::window_activity(history, window_start, window_end) {
        Ok(a) => a,
        Err(_) => {
            return Err(AggError::Overflow);
        },
    };
    Ok(
        CoreStatement {
            account,
            class,
            count: act.count,
            volume: act.volume,
            base_debit: bal.base,
            secondary: bal.secondary,
        },
    )
}

proof fn lemma_position_cores_err_propagates(
    list: Seq<(PositionKey, Vec<DebitEntry>)>,
    long: bool,
    window_start: u64,
    window_end: u64,
    n: int,
)
    requires
        0 <= n <= list.len(),
        spec_position_cores(list.take(n), long, window_start, window_end) is Err,
    ensures
        spec_position_cores(list, long, window_start, window_end) == spec_position_cores(
            list.take(n),
            long,
            window_start,
            window_end,
        ),
    decreases list.len() - n,
{
    if n == list.len() {
        assert(list.take(n) =~= list);
    } else {
        assert(list.take(n + 1).drop_last() =~= list.take(n));
        assert(list.take(n + 1).last() == list[n]);
        lemma_position_cores_err_propagates(list, long, window_start, window_end, n + 1);
    }
}

proof fn lemma_lp_cores_err_propagates(
    list: Seq<(LpKey, Vec<DebitEntry>)>,
    window_start: u64,
    window_end: u64,
    n: int,
)
    requires
        0 <= n <= list.len(),
        spec_lp_cores(list.take(n), window_start, window_end) is Err,
    ensures
        spec_lp_cores(list, window_start, window_end) == spec_lp_cores(
            list.take(n),
            window_start,
            window_end,
        ),
    decreases list.len() - n,
{
    if n == list.len() {
        assert(list.take(n) =~= list);
    } else {
        assert(list.take(n + 1).drop_last() =~= list.take(n));
        assert(list.take(n + 1).last() == list[n]);
        lemma_lp_cores_err_propagates(list, window_start, window_end, n + 1);
    }
}

fn position_cores(
    list: &Vec<(PositionKey, Vec<DebitEntry>)>,
    long: bool,
    window_start: u64,
    window_end: u64,
) -> (r: Result<Vec<CoreStatement>, AggError>)
    requires
        crate::ledger::list_hists_wf(list@),
    ensures
        match r {
            Ok(v) => spec_position_cores(list@, long, window_start, window_end) == Ok::<
                Seq<CoreStatement>,
                AggError,
            >(v@),
            Err(e) => spec_position_cores(list@, long, window_start, window_end) == Err::<
                Seq<CoreStatement>,
                AggError,
            >(e),
        },
{
    let mut out: Vec<CoreStatement> = Vec::new();
    let mut i: usize = 0;
    while i < list.len()
        invariant
            i <= list@.len(),
            crate::ledger::list_hists_wf(list@),
            spec_position_cores(list@.take(i as int), long, window_start, window_end) == Ok::<
                Seq<CoreStatement>,
                AggError,
            >(out@),
        decreases list@.len() - i,
    {
        proof {
            assert(list@.take(i as int + 1).drop_last() =~= list@.take(i as int));
            assert(list@.take(i as int + 1).last() == list@[i as int]);
        }
        let key = list[i].0;
        let class = if long {
            StatementClass::Long { maturity_time: key.maturity_time }
        } else {
            StatementClass::Short { maturity_time: key.maturity_time }
        };
        match core_statement(key.trader, class, &list[i].1, window_start, window_end) {
            Ok(c) => {
                out.push(c);
            },
            Err(e) => {
                proof {
                    lemma_position_cores_err_propagates(
                        list@,
                        long,
                        window_start,
                        window_end,
                        i as int + 1,
                    );
                }
                return Err(e);
            },
        }
        i = i + 1;
    }
    proof {
        assert(list@.take(list@.len() as int) =~= list@);
    }
    Ok(out)
}

fn lp_cores(list: &Vec<(LpKey, Vec<DebitEntry>)>, window_start: u64, window_end: u64) -> (r: Result<
    Vec<CoreStatement>,
    AggError,
>)
    requires
        crate::ledger::list_hists_wf(list@),
    ensures
        match r {
            Ok(v) => spec_lp_cores(list@, window_start, window_end) == Ok::<
                Seq<CoreStatement>,
                AggError,
            >(v@),
            Err(e) => spec_lp_cores(list@, window_start, window_end) == Err::<
                Seq<CoreStatement>,
                AggError,
            >(e),
        },
{
    let mut out: Vec<CoreStatement> = Vec::new();
    let mut i: usize = 0;
    while i < list.len()
        invariant
            i <= list@.len(),
            crate::ledger::list_hists_wf(list@),
            spec_lp_cores(list@.take(i as int), window_start, window_end) == Ok::<
                Seq<CoreStatement>,
                AggError,
            >(out@),
        decreases list@.len() - i,
    {
        proof {
            assert(list@.take(i as int + 1).drop_last() =~= list@.take(i as int));
            assert(list@.take(i as int + 1).last() == list@[i as int]);
        }
        let key = list[i].0;
        match core_statement(
            key.provider,
            StatementClass::Liquidity,
            &list[i].1,
            window_start,
            window_end,
        ) {
            Ok(c) => {
                out.push(c);
            },
            Err(e) => {
                proof {
                    lemma_lp_cores_err_propagates(list@, window_start, window_end, i as int + 1);
                }
                return Err(e);
            },
        }
        i = i + 1;
    }
    proof {
        assert(list@.take(list@.len() as int) =~= list@);
    }
    Ok(out)
}

/// Every key's core statement for the window, in the snapshot's order:
/// longs, then shorts, then liquidity.
pub fn collect_cores(snapshot: &Ledger, window_start: u64, window_end: u64) -> (r: Result<
    Vec<CoreStatement>,
    AggError,
>)
    requires
        snapshot.wf(),
    ensures
        match r {
            Ok(v) => spec_cores(*snapshot, window_start, window_end) == Ok::<
                Seq<CoreStatement>,
                AggError,
            >(v@),
            Err(e) => spec_cores(*snapshot, window_start, window_end) == Err::<
                Seq<CoreStatement>,
                AggError,
            >(e),
        },
{
    let mut a = match position_cores(&snapshot.longs, true, window_start, window_end) {
        Ok(v) => v,
        Err(e) => {
            return Err(e);
        },
    };
    let mut b = match position_cores(&snapshot.shorts, false, window_start, window_end) {
        Ok(v) => v,
        Err(e) => {
            return Err(e);
        },
    };
    let mut c = match lp_cores(&snapshot.lps, window_start, window_end) {
        Ok(v) => v,
        Err(e) => {
            return Err(e);
        },
    };
    a.append(&mut b);
    a.append(&mut c);
    Ok(a)
}

/// Secondary balances of core statements are never negative: the balance
/// scan rejects a negative committed prefix.
pub open spec fn cores_nonneg(cores: Seq<CoreStatement>) -> bool {
    forall|i: int| 0 <= i < cores.len() ==> (#[trigger] cores[i]).secondary >= 0
}

proof fn lemma_core_secondary_nonneg(
    account: Address,
    class: StatementClass,
    h: Seq<DebitEntry>,
    window_start: u64,
    window_end: u64,
)
    requires
        spec_core(account, class, h, window_start, window_end) is Ok,
    ensures
        spec_core(account, class, h, window_start, window_end)->Ok_0.secondary >= 0,
{
    crate::balance::lemma_cumulative_is_signed_sum(h, window_end);
    assert(h.take(h.len() as int) =~= h);
}

proof fn lemma_position_cores_nonneg(
    list: Seq<(PositionKey, Vec<DebitEntry>)>,
    long: bool,
    window_start: u64,
    window_end: u64,
)
    requires
        spec_position_cores(list, long, window_start, window_end) is Ok,
    ensures
        cores_nonneg(spec_position_cores(list, long, window_start, window_end)->Ok_0),
    decreases list.len(),
{
    if list.len() > 0 {
        lemma_position_cores_nonneg(list.drop_last(), long, window_start, window_end);
        let key = list.last().0;
        let class = if long {
            StatementClass::Long { maturity_time: key.maturity_time }
        } else {
            StatementClass::Short { maturity_time: key.maturity_time }
        };
        lemma_core_secondary_nonneg(key.trader, class, list.last().1@, window_start, window_end);
    }
}

proof fn lemma_lp_cores_nonneg(list: Seq<(LpKey, Vec<DebitEntry>)>, window_start: u64, window_end: u64)
    requires
        spec_lp_cores(list, window_start, window_end) is Ok,
    ensures
        cores_nonneg(spec_lp_cores(list, window_start, window_end)->Ok_0),
    decreases list.len(),
{
    if list.len() > 0 {
        lemma_lp_cores_nonneg(list.drop_last(), window_start, window_end);
        lemma_core_secondary_nonneg(
            list.last().0.provider,
            StatementClass::Liquidity,
            list.last().1@,
            window_start,
            window_end,
        );
    }
}

/// The cores of a whole snapshot carry non-negative secondary balances.
pub proof fn lemma_cores_nonneg(snapshot: Ledger, window_start: u64, window_end: u64)
    requires
        spec_cores(snapshot, window_start, window_end) is Ok,
    ensures
        cores_nonneg(spec_cores(snapshot, window_start, window_end)->Ok_0),
{
    lemma_position_cores_nonneg(snapshot.longs@, true, window_start, window_end);
    lemma_position_cores_nonneg(snapshot.shorts@, false, window_start, window_end);
    lemma_lp_cores_nonneg(snapshot.lps@, window_start, window_end);
}

/// When the requests exist, there is exactly one per non-zero secondary
/// balance, in core order.
pub proof fn lemma_requests_count(
    cores: Seq<CoreStatement>,
    prices: Map<u64, SharePrice>,
    position_duration: u64,
    window_end: u64,
)
    requires
        spec_requests(cores, prices, position_duration, window_end) is Ok,
    ensures
        spec_requests(cores, prices, position_duration, window_end)->Ok_0.len() == count_nonzero(
            cores,
        ),
    decreases cores.len(),
{
    if cores.len() > 0 {
        lemma_requests_count(cores.drop_last(), prices, position_duration, window_end);
    }
}

// ---------------------------------------------------------------------------
// Exec: valuation requests
// ---------------------------------------------------------------------------

/// The requests of a whole window pass: the snapshot's cores, then one
/// request per non-zero secondary balance.
pub open spec fn spec_window_requests(
    snapshot: Ledger,
    position_duration: u64,
    window_start: u64,
    window_end: u64,
) -> Result<Seq<ValuationRequest>, AggError> {
    match spec_cores(snapshot, window_start, window_end) {
        Err(e) => Err(e),
        Ok(cs) => spec_requests(cs, snapshot.prices_map(), position_duration, window_end),
    }
}

proof fn lemma_requests_err_propagates(
    cores: Seq<CoreStatement>,
    prices: Map<u64, SharePrice>,
    position_duration: u64,
    window_end: u64,
    n: int,
)
    requires
        0 <= n <= cores.len(),
        spec_requests(cores.take(n), prices, position_duration, window_end) is Err,
    ensures
        spec_requests(cores, prices, position_duration, window_end) == spec_requests(
            cores.take(n),
            prices,
            position_duration,
            window_end,
        ),
    decreases cores.len() - n,
{
    if n == cores.len() {
        assert(cores.take(n) =~= cores);
    } else {
        assert(cores.take(n + 1).drop_last() =~= cores.take(n));
        assert(cores.take(n + 1).last() == cores[n]);
        lemma_requests_err_propagates(cores, prices, position_duration, window_end, n + 1);
    }
}

/// The valuations the oracle owes for the window ending at `window_end`:
/// one request per key whose secondary balance as of `window_end` is not
/// zero, in snapshot order. A short's request carries its two recorded
/// checkpoint prices; a missing one is a fatal data-completeness error.
pub fn valuation_requests(
    snapshot: &Ledger,
    position_duration: u64,
    window_start: u64,
    window_end: u64,
) -> (r: Result<Vec<ValuationRequest>, AggError>)
    requires
        snapshot.wf(),
    ensures
        match r {
            Ok(v) => spec_window_requests(*snapshot, position_duration, window_start, window_end)
                == Ok::<Seq<ValuationRequest>, AggError>(v@),
            Err(e) => spec_window_requests(*snapshot, position_duration, window_start, window_end)
                == Err::<Seq<ValuationRequest>, AggError>(e),
        },
{
    let cores = match collect_cores(snapshot, window_start, window_end) {
        Ok(v) => v,
        Err(e) => {
            return Err(e);
        },
    };
    proof {
        lemma_cores_nonneg(*snapshot, window_start, window_end);
    }
    let ghost prices = snapshot.prices_map();
    let mut out: Vec<ValuationRequest> = Vec::new();
    let mut i: usize = 0;
    while i < cores.len()
        invariant
            i <= cores@.len(),
            snapshot.wf(),
            cores_nonneg(cores@),
            prices == snapshot.prices_map(),
            spec_cores(*snapshot, window_start, window_end) == Ok::<Seq<CoreStatement>, AggError>(
                cores@,
            ),
            spec_requests(cores@.take(i as int), prices, position_duration, window_end) == Ok::<
                Seq<ValuationRequest>,
                AggError,
            >(out@),
        decreases cores@.len() - i,
    {
        proof {
            assert(cores@.take(i as int + 1).drop_last() =~= cores@.take(i as int));
            assert(cores@.take(i as int + 1).last() == cores@[i as int]);
        }
        let c = cores[i];
        if c.secondary != 0 {
            let bond: u128 = c.secondary as u128;
            match c.class {
                StatementClass::Long { maturity_time } => {
                    let as_of = if window_end < maturity_time {
                        window_end
                    } else {
                        maturity_time
                    };
                    out.push(
                        ValuationRequest::CloseLong {
                            key: PositionKey { trader: c.account, maturity_time },
                            bond_amount: bond,
                            maturity_time,
                            as_of,
                        },
                    );
                    proof {
                        let rs = spec_requests(
                            cores@.take(i as int),
                            prices,
                            position_duration,
                            window_end,
                        )->Ok_0;
                        let r1 = spec_request_of(
                            cores@[i as int],
                            prices,
                            position_duration,
                            window_end,
                        )->Ok_0;
                        assert(out@ =~= rs + r1);
                    }
                },
                StatementClass::Short { maturity_time } => {
                    let open_time = if maturity_time >= position_duration {
                        maturity_time - position_duration
                    } else {
                        0
                    };
                    let open_price = match snapshot.get_checkpoint_price(open_time) {
                        Some(p) => p.price,
                        None => {
                            proof {
                                lemma_requests_err_propagates(
                                    cores@,
                                    prices,
                                    position_duration,
                                    window_end,
                                    i as int + 1,
                                );
                            }
                            return Err(AggError::MissingCheckpoint(open_time));
                        },
                    };
                    let maturity_price = match snapshot.get_checkpoint_price(maturity_time) {
                        Some(p) => p.price,
                        None => {
                            proof {
                                lemma_requests_err_propagates(
                                    cores@,
                                    prices,
                                    position_duration,
                                    window_end,
                                    i as int + 1,
                                );
                            }
                            return Err(AggError::MissingCheckpoint(maturity_time));
                        },
                    };
                    let as_of = if window_end < maturity_time {
                        window_end
                    } else {
                        maturity_time
                    };
                    out.push(
                        ValuationRequest::CloseShort {
                            key: PositionKey { trader: c.account, maturity_time },
                            bond_amount: bond,
                            open_checkpoint_price: open_price,
                            maturity_checkpoint_price: maturity_price,
                            maturity_time,
                            as_of,
                        },
                    );
                    proof {
                        let rs = spec_requests(
                            cores@.take(i as int),
                            prices,
                            position_duration,
                            window_end,
                        )->Ok_0;
                        let r1 = spec_request_of(
                            cores@[i as int],
                            prices,
                            position_duration,
                            window_end,
                        )->Ok_0;
                        assert(out@ =~= rs + r1);
                    }
                },
                StatementClass::Liquidity => {
                    out.push(
                        ValuationRequest::Liquidity {
                            key: LpKey { provider: c.account },
                            lp_amount: bond,
                        },
                    );
                    proof {
                        let rs = spec_requests(
                            cores@.take(i as int),
                            prices,
                            position_duration,
                            window_end,
                        )->Ok_0;
                        let r1 = spec_request_of(
                            cores@[i as int],
                            prices,
                            position_duration,
                            window_end,
                        )->Ok_0;
                        assert(out@ =~= rs + r1);
                    }
                },
            }
        } else {
            proof {
                let rs = spec_requests(
                    cores@.take(i as int),
                    prices,
                    position_duration,
                    window_end,
                )->Ok_0;
                assert(out@ =~= rs + Seq::<ValuationRequest>::empty());
            }
        }
        i = i + 1;
    }
    proof {
        assert(cores@.take(cores@.len() as int) =~= cores@);
    }
    Ok(out)
}

// ---------------------------------------------------------------------------
// Account aggregates
// ---------------------------------------------------------------------------

/// Per-class event counts of one account's window.
#[derive(Clone, Copy, PartialEq, Eq, Structural, Debug)]
pub struct ActionCount {
    pub long: usize,
    pub short: usize,
    pub lp: usize,
}

/// Per-class volumes: sums of absolute base amounts, never rounded during
/// accumulation.
#[derive(Clone, Copy, PartialEq, Eq, Structural, Debug)]
pub struct Volume {
    pub long: u128,
    pub short: u128,
    pub lp: u128,
}

/// Per-class profit and loss in base units at the fixed-point scale.
#[derive(Clone, Copy, PartialEq, Eq, Structural, Debug)]
pub struct PnL {
    pub long: i128,
    pub short: i128,
    pub lp: i128,
}

/// Per-class net base balances as of the window end, from the wallet's
/// point of view: an open debits the wallet, so it counts negatively here.
#[derive(Clone, Copy, PartialEq, Eq, Structural, Debug)]
pub struct NetBaseBalance {
    pub long: i128,
    pub short: i128,
    pub lp: i128,
}

/// One account's window statement, summed across all the account's keys,
/// long, short and liquidity kept apart.
#[derive(Clone, Copy, PartialEq, Eq, Structural, Debug)]
pub struct UserAgg {
    pub action_count: ActionCount,
    pub volume: Volume,
    pub pnl: PnL,
    pub net_base_balance: NetBaseBalance,
}

pub open spec fn zero_agg() -> UserAgg {
    UserAgg {
        action_count: ActionCount { long: 0, short: 0, lp: 0 },
        volume: Volume { long: 0, short: 0, lp: 0 },
        pnl: PnL { long: 0, short: 0, lp: 0 },
        net_base_balance: NetBaseBalance { long: 0, short: 0, lp: 0 },
    }
}

/// One key's profit and loss: the oracle's base-unit valuation of its
/// secondary balance minus its cumulative base debit. A zero secondary
/// balance is worth zero, so its profit is the negated base debit.
pub open spec fn spec_pnl(c: CoreStatement, values: Seq<u128>, vi: int) -> Result<int, AggError> {
    if c.secondary == 0 {
        if c.base_debit == i128::MIN {
            Err(AggError::Overflow)
        } else {
            Ok(0 - c.base_debit)
        }
    } else {
        let v = values[vi];
        if v > i128::MAX as u128 {
            Err(AggError::Overflow)
        } else if !in_i128(v - c.base_debit) {
            Err(AggError::Overflow)
        } else {
            Ok(v - c.base_debit)
        }
    }
}

/// Adds one key's contribution to its account's aggregate, in the key's
/// class, each sum checked against its range.
pub open spec fn spec_agg_add(a: UserAgg, c: CoreStatement, pnl: int) -> Result<UserAgg, AggError> {
    match c.class {
        StatementClass::Long { .. } => {
            if a.action_count.long + c.count > usize::MAX || a.volume.long + c.volume > u128::MAX
                || !in_i128(a.pnl.long + pnl) || !in_i128(
                a.net_base_balance.long - c.base_debit,
            ) {
                Err(AggError::Overflow)
            } else {
                Ok(UserAgg {
                    action_count: ActionCount {
                        long: (a.action_count.long + c.count) as usize,
                        ..a.action_count
                    },
                    volume: Volume { long: (a.volume.long + c.volume) as u128, ..a.volume },
                    pnl: PnL { long: (a.pnl.long + pnl) as i128, ..a.pnl },
                    net_base_balance: NetBaseBalance {
                        long: (a.net_base_balance.long - c.base_debit) as i128,
                        ..a.net_base_balance
                    },
                })
            }
        },
        StatementClass::Short { .. } => {
            if a.action_count.short + c.count > usize::MAX || a.volume.short + c.volume > u128::MAX
                || !in_i128(a.pnl.short + pnl) || !in_i128(
                a.net_base_balance.short - c.base_debit,
            ) {
                Err(AggError::Overflow)
            } else {
                Ok(UserAgg {
                    action_count: ActionCount {
                        short: (a.action_count.short + c.count) as usize,
                        ..a.action_count
                    },
                    volume: Volume { short: (a.volume.short + c.volume) as u128, ..a.volume },
                    pnl: PnL { short: (a.pnl.short + pnl) as i128, ..a.pnl },
                    net_base_balance: NetBaseBalance {
                        short: (a.net_base_balance.short - c.base_debit) as i128,
                        ..a.net_base_balance
                    },
                })
            }
        },
        StatementClass::Liquidity => {
            if a.action_count.lp + c.count > usize::MAX || a.volume.lp + c.volume > u128::MAX
                || !in_i128(a.pnl.lp + pnl) || !in_i128(a.net_base_balance.lp - c.base_debit) {
                Err(AggError::Overflow)
            } else {
                Ok(UserAgg {
                    action_count: ActionCount {
                        lp: (a.action_count.lp + c.count) as usize,
                        ..a.action_count
                    },
                    volume: Volume { lp: (a.volume.lp + c.volume) as u128, ..a.volume },
                    pnl: PnL { lp: (a.pnl.lp + pnl) as i128, ..a.pnl },
                    net_base_balance: NetBaseBalance {
                        lp: (a.net_base_balance.lp - c.base_debit) as i128,
                        ..a.net_base_balance
                    },
                })
            }
        },
    }
}

/// Adds one key's contribution under its account, keeping accounts in
/// first-appearance order.
pub open spec fn spec_upsert(
    accs: Seq<(Address, UserAgg)>,
    c: CoreStatement,
    pnl: int,
) -> Result<Seq<(Address, UserAgg)>, AggError>
    decreases accs.len(),
{
    if accs.len() == 0 {
        match spec_agg_add(zero_agg(), c, pnl) {
            Err(e) => Err(e),
            Ok(a) => Ok(seq![(c.account, a)]),
        }
    } else if accs.first().0 == c.account {
        match spec_agg_add(accs.first().1, c, pnl) {
            Err(e) => Err(e),
            Ok(a2) => Ok(seq![(c.account, a2)] + accs.drop_first()),
        }
    } else {
        match spec_upsert(accs.drop_first(), c, pnl) {
            Err(e) => Err(e),
            Ok(rest) => Ok(seq![accs.first()] + rest),
        }
    }
}

/// Folding every key's contribution into per-account aggregates, consuming
/// one oracle value per non-zero secondary balance, in core order.
pub open spec fn spec_fold_accounts(cores: Seq<CoreStatement>, values: Seq<u128>) -> Result<
    Seq<(Address, UserAgg)>,
    AggError,
>
    decreases cores.len(),
{
    if cores.len() == 0 {
        Ok(Seq::empty())
    } else {
        match spec_fold_accounts(cores.drop_last(), values) {
            Err(e) => Err(e),
            Ok(accs) => match spec_pnl(cores.last(), values, count_nonzero(cores.drop_last())) {
                Err(e) => Err(e),
                Ok(p) => spec_upsert(accs, cores.last(), p),
            },
        }
    }
}

/// Only accounts with non-trivial activity, balance or profit are emitted.
pub open spec fn spec_emit(accs: Seq<(Address, UserAgg)>) -> Seq<(Address, UserAgg)>
    decreases accs.len(),
{
    if accs.len() == 0 {
        Seq::empty()
    } else {
        spec_emit(accs.drop_last()) + if accs.last().1 != zero_agg() {
            seq![accs.last()]
        } else {
            Seq::<(Address, UserAgg)>::empty()
        }
    }
}

/// One whole statement pass over a snapshot: cores, the per-account fold
/// with the oracle's values, then the emission filter.
pub open spec fn spec_window_statements(
    snapshot: Ledger,
    window_start: u64,
    window_end: u64,
    values: Seq<u128>,
) -> Result<Seq<(Address, UserAgg)>, AggError> {
    match spec_cores(snapshot, window_start, window_end) {
        Err(e) => Err(e),
        Ok(cs) => match spec_fold_accounts(cs, values) {
            Err(e) => Err(e),
            Ok(accs) => Ok(spec_emit(accs)),
        },
    }
}

proof fn lemma_count_nonzero_take_le(cores: Seq<CoreStatement>, n: int)
    requires
        0 <= n <= cores.len(),
    ensures
        count_nonzero(cores.take(n)) <= count_nonzero(cores),
        count_nonzero(cores.take(n)) >= 0,
    decreases cores.len() - n,
{
    lemma_count_nonzero_nonneg(cores.take(n));
    if n == cores.len() {
        assert(cores.take(n) =~= cores);
    } else {
        assert(cores.take(n + 1).drop_last() =~= cores.take(n));
        assert(cores.take(n + 1).last() == cores[n]);
        lemma_count_nonzero_take_le(cores, n + 1);
    }
}

proof fn lemma_count_nonzero_nonneg(cores: Seq<CoreStatement>)
    ensures
        count_nonzero(cores) >= 0,
    decreases cores.len(),
{
    if cores.len() > 0 {
        lemma_count_nonzero_nonneg(cores.drop_last());
    }
}

proof fn lemma_fold_accounts_err_propagates(cores: Seq<CoreStatement>, values: Seq<u128>, n: int)
    requires
        0 <= n <= cores.len(),
        spec_fold_accounts(cores.take(n), values) is Err,
    ensures
        spec_fold_accounts(cores, values) == spec_fold_accounts(cores.take(n), values),
    decreases cores.len() - n,
{
    if n == cores.len() {
        assert(cores.take(n) =~= cores);
    } else {
        assert(cores.take(n + 1).drop_last() =~= cores.take(n));
        assert(cores.take(n + 1).last() == cores[n]);
        lemma_fold_accounts_err_propagates(cores, values, n + 1);
    }
}

proof fn lemma_upsert_found(accs: Seq<(Address, UserAgg)>, i: int, c: CoreStatement, pnl: int)
    requires
        0 <= i < accs.len(),
        accs[i].0 == c.account,
        forall|j: int| 0 <= j < i ==> (#[trigger] accs[j]).0 != c.account,
    ensures
        spec_upsert(accs, c, pnl) == (match spec_agg_add(accs[i].1, c, pnl) {
            Err(e) => Err::<Seq<(Address, UserAgg)>, AggError>(e),
            Ok(a2) => Ok(accs.update(i, (c.account, a2))),
        }),
    decreases i,
{
    if i == 0 {
        assert(accs.first() == accs[0]);
        match spec_agg_add(accs[0].1, c, pnl) {
            Err(_) => {},
            Ok(a2) => {
                assert(seq![(c.account, a2)] + accs.drop_first() =~= accs.update(
                    0,
                    (c.account, a2),
                ));
            },
        }
    } else {
        assert(accs.first().0 != c.account);
        assert forall|j: int| 0 <= j < i - 1 implies (#[trigger] accs.drop_first()[j]).0
            != c.account by {
            assert(accs.drop_first()[j] == accs[j + 1]);
        }
        assert(accs.drop_first()[i - 1] == accs[i]);
        lemma_upsert_found(accs.drop_first(), i - 1, c, pnl);
        match spec_agg_add(accs[i].1, c, pnl) {
            Err(_) => {},
            Ok(a2) => {
                assert(seq![accs.first()] + accs.drop_first().update(i - 1, (c.account, a2))
                    =~= accs.update(i, (c.account, a2)));
            },
        }
    }
}

proof fn lemma_upsert_absent(accs: Seq<(Address, UserAgg)>, c: CoreStatement, pnl: int)
    requires
        forall|j: int| 0 <= j < accs.len() ==> (#[trigger] accs[j]).0 != c.account,
    ensures
        spec_upsert(accs, c, pnl) == (match spec_agg_add(zero_agg(), c, pnl) {
            Err(e) => Err::<Seq<(Address, UserAgg)>, AggError>(e),
            Ok(a) => Ok(accs.push((c.account, a))),
        }),
    decreases accs.len(),
{
    if accs.len() == 0 {
        match spec_agg_add(zero_agg(), c, pnl) {
            Err(_) => {},
            Ok(a) => {
                assert(seq![(c.account, a)] =~= accs.push((c.account, a)));
            },
        }
    } else {
        assert(accs.first() == accs[0]);
        assert forall|j: int| 0 <= j < accs.drop_first().len() implies (#[trigger] accs.drop_first()[j]).0
            != c.account by {
            assert(accs.drop_first()[j] == accs[j + 1]);
        }
        lemma_upsert_absent(accs.drop_first(), c, pnl);
        match spec_agg_add(zero_agg(), c, pnl) {
            Err(_) => {},
            Ok(a) => {
                assert(seq![accs.first()] + accs.drop_first().push((c.account, a)) =~= accs.push(
                    (c.account, a),
                ));
            },
        }
    }
}

// ---------------------------------------------------------------------------
// Exec: the account fold
// ---------------------------------------------------------------------------

fn find_account(accs: &Vec<(Address, UserAgg)>, account: Address) -> (r: Option<usize>)
    ensures
        match r {
            Some(i) => i < accs@.len() && accs@[i as int].0 == account && (forall|j: int|
                0 <= j < i ==> (#[trigger] accs@[j]).0 != account),
            None => forall|i: int| 0 <= i < accs@.len() ==> (#[trigger] accs@[i]).0 != account,
        },
{
    let mut i: usize = 0;
    while i < accs.len()
        invariant
            i <= accs@.len(),
            forall|j: int| 0 <= j < i ==> (#[trigger] accs@[j]).0 != account,
        decreases accs@.len() - i,
    {
        if accs[i].0 == account {
            return Some(i);
        }
        i = i + 1;
    }
    None
}

fn add_agg(a: UserAgg, c: CoreStatement, pnl: i128) -> (r: Result<UserAgg, AggError>)
    ensures
        match r {
            Ok(a2) => spec_agg_add(a, c, pnl as int) == Ok::<UserAgg, AggError>(a2),
            Err(e) => spec_agg_add(a, c, pnl as int) == Err::<UserAgg, AggError>(e),
        },
{
    match c.class {
        StatementClass::Long { .. } => {
            if c.count > usize::MAX - a.action_count.long || c.volume > u128::MAX - a.volume.long
                || (pnl > 0 && a.pnl.long > i128::MAX - pnl) || (pnl < 0 && a.pnl.long < i128::MIN
                - pnl) || (c.base_debit > 0 && a.net_base_balance.long < i128::MIN
                + c.base_debit) || (c.base_debit < 0 && a.net_base_balance.long > i128::MAX
                + c.base_debit) {
                Err(AggError::Overflow)
            } else {
                Ok(UserAgg {
                    action_count: ActionCount {
                        long: a.action_count.long + c.count,
                        ..a.action_count
                    },
                    volume: Volume { long: a.volume.long + c.volume, ..a.volume },
                    pnl: PnL { long: a.pnl.long + pnl, ..a.pnl },
                    net_base_balance: NetBaseBalance {
                        long: a.net_base_balance.long - c.base_debit,
                        ..a.net_base_balance
                    },
                })
            }
        },
        StatementClass::Short { .. } => {
            if c.count > usize::MAX - a.action_count.short || c.volume > u128::MAX - a.volume.short
                || (pnl > 0 && a.pnl.short > i128::MAX - pnl) || (pnl < 0 && a.pnl.short
                < i128::MIN - pnl) || (c.base_debit > 0 && a.net_base_balance.short
                < i128::MIN + c.base_debit) || (c.base_debit < 0 && a.net_base_balance.short
                > i128::MAX + c.base_debit) {
                Err(AggError::Overflow)
            } else {
                Ok(UserAgg {
                    action_count: ActionCount {
                        short: a.action_count.short + c.count,
                        ..a.action_count
                    },
                    volume: Volume { short: a.volume.short + c.volume, ..a.volume },
                    pnl: PnL { short: a.pnl.short + pnl, ..a.pnl },
                    net_base_balance: NetBaseBalance {
                        short: a.net_base_balance.short - c.base_debit,
                        ..a.net_base_balance
                    },
                })
            }
        },
        StatementClass::Liquidity => {
            if c.count > usize::MAX - a.action_count.lp || c.volume > u128::MAX - a.volume.lp || (
            pnl > 0 && a.pnl.lp > i128::MAX - pnl) || (pnl < 0 && a.pnl.lp < i128::MIN - pnl) || (
            c.base_debit > 0 && a.net_base_balance.lp < i128::MIN + c.base_debit) || (
            c.base_debit < 0 && a.net_base_balance.lp > i128::MAX + c.base_debit) {
                Err(AggError::Overflow)
            } else {
                Ok(UserAgg {
                    action_count: ActionCount { lp: a.action_count.lp + c.count, ..a.action_count },
                    volume: Volume { lp: a.volume.lp + c.volume, ..a.volume },
                    pnl: PnL { lp: a.pnl.lp + pnl, ..a.pnl },
                    net_base_balance: NetBaseBalance {
                        lp: a.net_base_balance.lp - c.base_debit,
                        ..a.net_base_balance
                    },
                })
            }
        },
    }
}

fn upsert_account(accs: &mut Vec<(Address, UserAgg)>, c: CoreStatement, pnl: i128) -> (r: Result<
    (),
    AggError,
>)
    ensures
        match r {
            Ok(()) => spec_upsert(old(accs)@, c, pnl as int) == Ok::<
                Seq<(Address, UserAgg)>,
                AggError,
            >(final(accs)@),
            Err(e) => spec_upsert(old(accs)@, c, pnl as int) == Err::<
                Seq<(Address, UserAgg)>,
                AggError,
            >(e) && final(accs)@ == old(accs)@,
        },
{
    match find_account(accs, c.account) {
        Some(i) => {
            proof {
                lemma_upsert_found(accs@, i as int, c, pnl as int);
            }
            match add_agg(accs[i].1, c, pnl) {
                Ok(a2) => {
                    accs[i] = (c.account, a2);
                    Ok(())
                },
                Err(e) => Err(e),
            }
        },
        None => {
            proof {
                lemma_upsert_absent(accs@, c, pnl as int);
            }
            let zero = UserAgg {
                action_count: ActionCount { long: 0, short: 0, lp: 0 },
                volume: Volume { long: 0, short: 0, lp: 0 },
                pnl: PnL { long: 0, short: 0, lp: 0 },
                net_base_balance: NetBaseBalance { long: 0, short: 0, lp: 0 },
            };
            match add_agg(zero, c, pnl) {
                Ok(a) => {
                    accs.push((c.account, a));
                    Ok(())
                },
                Err(e) => Err(e),
            }
        },
    }
}

fn compute_pnl(c: CoreStatement, values: &Vec<u128>, idx: usize) -> (r: Result<i128, AggError>)
    requires
        c.secondary != 0 ==> idx < values@.len(),
    ensures
        match r {
            Ok(p) => spec_pnl(c, values@, idx as int) == Ok::<int, AggError>(p as int),
            Err(e) => spec_pnl(c, values@, idx as int) == Err::<int, AggError>(e),
        },
{
    if c.secondary == 0 {
        if c.base_debit == i128::MIN {
            return Err(AggError::Overflow);
        }
        Ok(-c.base_debit)
    } else {
        let v = values[idx];
        if v > i128::MAX as u128 {
            return Err(AggError::Overflow);
        }
        let vi = v as i128;
        if (c.base_debit > 0 && vi < i128::MIN + c.base_debit) || (c.base_debit < 0 && vi
            > i128::MAX + c.base_debit) {
            return Err(AggError::Overflow);
        }
        Ok(vi - c.base_debit)
    }
}

fn emit_rows(accs: &Vec<(Address, UserAgg)>) -> (r: Vec<(Address, UserAgg)>)
    ensures
        r@ == spec_emit(accs@),
{
    let zero = UserAgg {
        action_count: ActionCount { long: 0, short: 0, lp: 0 },
        volume: Volume { long: 0, short: 0, lp: 0 },
        pnl: PnL { long: 0, short: 0, lp: 0 },
        net_base_balance: NetBaseBalance { long: 0, short: 0, lp: 0 },
    };
    let mut rows: Vec<(Address, UserAgg)> = Vec::new();
    let mut k: usize = 0;
    while k < accs.len()
        invariant
            k <= accs@.len(),
            zero == zero_agg(),
            rows@ == spec_emit(accs@.take(k as int)),
        decreases accs@.len() - k,
    {
        proof {
            assert(accs@.take(k as int + 1).drop_last() =~= accs@.take(k as int));
            assert(accs@.take(k as int + 1).last() == accs@[k as int]);
        }
        if accs[k].1 != zero {
            rows.push(accs[k]);
            proof {
                assert(rows@ =~= spec_emit(accs@.take(k as int + 1)));
            }
        } else {
            proof {
                assert(rows@ =~= spec_emit(accs@.take(k as int + 1)));
            }
        }
        k = k + 1;
    }
    proof {
        assert(accs@.take(accs@.len() as int) =~= accs@);
    }
    rows
}

/// Replays one snapshot into per-account window statements: balances as of
/// `window_end`, activity over `[window_start, window_end)`, one oracle
/// value per non-zero secondary balance in request order, all folded per
/// account and filtered to the non-trivial rows. The result is exactly the
/// statement function of the snapshot, the window bounds and the values:
/// two runs over the same inputs can only agree.
#[verifier::loop_isolation(false)]
pub fn window_statements(
    snapshot: &Ledger,
    window_start: u64,
    window_end: u64,
    values: &Vec<u128>,
) -> (r: Result<Vec<(Address, UserAgg)>, AggError>)
    requires
        snapshot.wf(),
        spec_cores(*snapshot, window_start, window_end) matches Ok(cs) ==> values@.len()
            == count_nonzero(cs),
    ensures
        match r {
            Ok(v) => spec_window_statements(*snapshot, window_start, window_end, values@) == Ok::<
                Seq<(Address, UserAgg)>,
                AggError,
            >(v@),
            Err(e) => spec_window_statements(*snapshot, window_start, window_end, values@) == Err::<
                Seq<(Address, UserAgg)>,
                AggError,
            >(e),
        },
{
    let cores = match collect_cores(snapshot, window_start, window_end) {
        Ok(v) => v,
        Err(e) => {
            return Err(e);
        },
    };
    let mut accs: Vec<(Address, UserAgg)> = Vec::new();
    let mut idx: usize = 0;
    let mut i: usize = 0;
    while i < cores.len()
        invariant
            i <= cores@.len(),
            idx == count_nonzero(cores@.take(i as int)),
            spec_fold_accounts(cores@.take(i as int), values@) == Ok::<
                Seq<(Address, UserAgg)>,
                AggError,
            >(accs@),
        decreases cores@.len() - i,
    {
        proof {
            assert(cores@.take(i as int + 1).drop_last() =~= cores@.take(i as int));
            assert(cores@.take(i as int + 1).last() == cores@[i as int]);
            lemma_count_nonzero_take_le(cores@, i as int + 1);
        }
        let c = cores[i];
        let pnl = match compute_pnl(c, values, idx) {
            Ok(p) => p,
            Err(e) => {
                proof {
                    lemma_fold_accounts_err_propagates(cores@, values@, i as int + 1);
                }
                return Err(e);
            },
        };
        if c.secondary != 0 {
            let n = values.len();
            assert(idx < n);
            idx = idx + 1;
        }
        match upsert_account(&mut accs, c, pnl) {
            Ok(()) => {},
            Err(e) => {
                proof {
                    lemma_fold_accounts_err_propagates(cores@, values@, i as int + 1);
                }
                return Err(e);
            },
        }
        i = i + 1;
    }
    proof {
        assert(cores@.take(cores@.len() as int) =~= cores@);
    }
    Ok(emit_rows(&accs))
}

// ---------------------------------------------------------------------------
// Grouping across deployments
// ---------------------------------------------------------------------------

/// Sums two whole account aggregates, each sum checked against its range.
pub open spec fn spec_merge_agg(a: UserAgg, b: UserAgg) -> Result<UserAgg, AggError> {
    if a.action_count.long + b.action_count.long > usize::MAX || a.action_count.short
        + b.action_count.short > usize::MAX || a.action_count.lp + b.action_count.lp > usize::MAX
        || a.volume.long + b.volume.long > u128::MAX || a.volume.short + b.volume.short > u128::MAX
        || a.volume.lp + b.volume.lp > u128::MAX || !in_i128(a.pnl.long + b.pnl.long) || !in_i128(
        a.pnl.short + b.pnl.short,
    ) || !in_i128(a.pnl.lp + b.pnl.lp) || !in_i128(
        a.net_base_balance.long + b.net_base_balance.long,
    ) || !in_i128(a.net_base_balance.short + b.net_base_balance.short) || !in_i128(
        a.net_base_balance.lp + b.net_base_balance.lp,
    ) {
        Err(AggError::Overflow)
    } else {
        Ok(UserAgg {
            action_count: ActionCount {
                long: (a.action_count.long + b.action_count.long) as usize,
                short: (a.action_count.short + b.action_count.short) as usize,
                lp: (a.action_count.lp + b.action_count.lp) as usize,
            },
            volume: Volume {
                long: (a.volume.long + b.volume.long) as u128,
                short: (a.volume.short + b.volume.short) as u128,
                lp: (a.volume.lp + b.volume.lp) as u128,
            },
            pnl: PnL {
                long: (a.pnl.long + b.pnl.long) as i128,
                short: (a.pnl.short + b.pnl.short) as i128,
                lp: (a.pnl.lp + b.pnl.lp) as i128,
            },
            net_base_balance: NetBaseBalance {
                long: (a.net_base_balance.long + b.net_base_balance.long) as i128,
                short: (a.net_base_balance.short + b.net_base_balance.short) as i128,
                lp: (a.net_base_balance.lp + b.net_base_balance.lp) as i128,
            },
        })
    }
}

/// Adds one whole aggregate under its account, accounts in first-appearance
/// order.
pub open spec fn spec_merge_upsert(
    accs: Seq<(Address, UserAgg)>,
    account: Address,
    b: UserAgg,
) -> Result<Seq<(Address, UserAgg)>, AggError>
    decreases accs.len(),
{
    if accs.len() == 0 {
        Ok(seq![(account, b)])
    } else if accs.first().0 == account {
        match spec_merge_agg(accs.first().1, b) {
            Err(e) => Err(e),
            Ok(a2) => Ok(seq![(account, a2)] + accs.drop_first()),
        }
    } else {
        match spec_merge_upsert(accs.drop_first(), account, b) {
            Err(e) => Err(e),
            Ok(rest) => Ok(seq![accs.first()] + rest),
        }
    }
}

/// Folding one statement list into the running account aggregates.
pub open spec fn spec_group_one(
    accs: Seq<(Address, UserAgg)>,
    entries: Seq<(Address, UserAgg)>,
) -> Result<Seq<(Address, UserAgg)>, AggError>
    decreases entries.len(),
{
    if entries.len() == 0 {
        Ok(accs)
    } else {
        match spec_group_one(accs, entries.drop_last()) {
            Err(e) => Err(e),
            Ok(a2) => spec_merge_upsert(a2, entries.last().0, entries.last().1),
        }
    }
}

/// Folding every statement list, in order.
pub open spec fn spec_group(
    accs: Seq<(Address, UserAgg)>,
    lists: Seq<Vec<(Address, UserAgg)>>,
) -> Result<Seq<(Address, UserAgg)>, AggError>
    decreases lists.len(),
{
    if lists.len() == 0 {
        Ok(accs)
    } else {
        match spec_group(accs, lists.drop_last()) {
            Err(e) => Err(e),
            Ok(a2) => spec_group_one(a2, lists.last()@),
        }
    }
}

proof fn lemma_merge_upsert_found(accs: Seq<(Address, UserAgg)>, i: int, account: Address, b: UserAgg)
    requires
        0 <= i < accs.len(),
        accs[i].0 == account,
        forall|j: int| 0 <= j < i ==> (#[trigger] accs[j]).0 != account,
    ensures
        spec_merge_upsert(accs, account, b) == (match spec_merge_agg(accs[i].1, b) {
            Err(e) => Err::<Seq<(Address, UserAgg)>, AggError>(e),
            Ok(a2) => Ok(accs.update(i, (account, a2))),
        }),
    decreases i,
{
    if i == 0 {
        assert(accs.first() == accs[0]);
        match spec_merge_agg(accs[0].1, b) {
            Err(_) => {},
            Ok(a2) => {
                assert(seq![(account, a2)] + accs.drop_first() =~= accs.update(0, (account, a2)));
            },
        }
    } else {
        assert(accs.first().0 != account);
        assert forall|j: int| 0 <= j < i - 1 implies (#[trigger] accs.drop_first()[j]).0
            != account by {
            assert(accs.drop_first()[j] == accs[j + 1]);
        }
        assert(accs.drop_first()[i - 1] == accs[i]);
        lemma_merge_upsert_found(accs.drop_first(), i - 1, account, b);
        match spec_merge_agg(accs[i].1, b) {
            Err(_) => {},
            Ok(a2) => {
                assert(seq![accs.first()] + accs.drop_first().update(i - 1, (account, a2))
                    =~= accs.update(i, (account, a2)));
            },
        }
    }
}

proof fn lemma_merge_upsert_absent(accs: Seq<(Address, UserAgg)>, account: Address, b: UserAgg)
    requires
        forall|j: int| 0 <= j < accs.len() ==> (#[trigger] accs[j]).0 != account,
    ensures
        spec_merge_upsert(accs, account, b) == Ok::<Seq<(Address, UserAgg)>, AggError>(
            accs.push((account, b)),
        ),
    decreases accs.len(),
{
    if accs.len() == 0 {
        assert(seq![(account, b)] =~= accs.push((account, b)));
    } else {
        assert(accs.first() == accs[0]);
        assert forall|j: int| 0 <= j < accs.drop_first().len() implies (#[trigger] accs.drop_first()[j]).0
            != account by {
            assert(accs.drop_first()[j] == accs[j + 1]);
        }
        lemma_merge_upsert_absent(accs.drop_first(), account, b);
        assert(seq![accs.first()] + accs.drop_first().push((account, b)) =~= accs.push(
            (account, b),
        ));
    }
}

fn merge_upsert(accs: &mut Vec<(Address, UserAgg)>, account: Address, b: UserAgg) -> (r: Result<
    (),
    AggError,
>)
    ensures
        match r {
            Ok(()) => spec_merge_upsert(old(accs)@, account, b) == Ok::<
                Seq<(Address, UserAgg)>,
                AggError,
            >(final(accs)@),
            Err(e) => spec_merge_upsert(old(accs)@, account, b) == Err::<
                Seq<(Address, UserAgg)>,
                AggError,
            >(e) && final(accs)@ == old(accs)@,
        },
{
    match find_account(accs, account) {
        Some(i) => {
            proof {
                lemma_merge_upsert_found(accs@, i as int, account, b);
            }
            let a = accs[i].1;
            if b.action_count.long > usize::MAX - a.action_count.long || b.action_count.short
                > usize::MAX - a.action_count.short || b.action_count.lp > usize::MAX
                - a.action_count.lp || b.volume.long > u128::MAX - a.volume.long || b.volume.short
                > u128::MAX - a.volume.short || b.volume.lp > u128::MAX - a.volume.lp {
                return Err(AggError::Overflow);
            }
            if (b.pnl.long > 0 && a.pnl.long > i128::MAX - b.pnl.long) || (b.pnl.long < 0
                && a.pnl.long < i128::MIN - b.pnl.long) || (b.pnl.short > 0 && a.pnl.short
                > i128::MAX - b.pnl.short) || (b.pnl.short < 0 && a.pnl.short < i128::MIN
                - b.pnl.short) || (b.pnl.lp > 0 && a.pnl.lp > i128::MAX - b.pnl.lp) || (b.pnl.lp
                < 0 && a.pnl.lp < i128::MIN - b.pnl.lp) {
                return Err(AggError::Overflow);
            }
            if (b.net_base_balance.long > 0 && a.net_base_balance.long > i128::MAX
                - b.net_base_balance.long) || (b.net_base_balance.long < 0
                && a.net_base_balance.long < i128::MIN - b.net_base_balance.long) || (
            b.net_base_balance.short > 0 && a.net_base_balance.short > i128::MAX
                - b.net_base_balance.short) || (b.net_base_balance.short < 0
                && a.net_base_balance.short < i128::MIN - b.net_base_balance.short) || (
            b.net_base_balance.lp > 0 && a.net_base_balance.lp > i128::MAX
                - b.net_base_balance.lp) || (b.net_base_balance.lp < 0
                && a.net_base_balance.lp < i128::MIN - b.net_base_balance.lp) {
                return Err(AggError::Overflow);
            }
            let merged = UserAgg {
                action_count: ActionCount {
                    long: a.action_count.long + b.action_count.long,
                    short: a.action_count.short + b.action_count.short,
                    lp: a.action_count.lp + b.action_count.lp,
                },
                volume: Volume {
                    long: a.volume.long + b.volume.long,
                    short: a.volume.short + b.volume.short,
                    lp: a.volume.lp + b.volume.lp,
                },
                pnl: PnL {
                    long: a.pnl.long + b.pnl.long,
                    short: a.pnl.short + b.pnl.short,
                    lp: a.pnl.lp + b.pnl.lp,
                },
                net_base_balance: NetBaseBalance {
                    long: a.net_base_balance.long + b.net_base_balance.long,
                    short: a.net_base_balance.short + b.net_base_balance.short,
                    lp: a.net_base_balance.lp + b.net_base_balance.lp,
                },
            };
            accs[i] = (account, merged);
            Ok(())
        },
        None => {
            proof {
                lemma_merge_upsert_absent(accs@, account, b);
            }
            accs.push((account, b));
            Ok(())
        },
    }
}

/// Groups the per-deployment statement lists of one window by account,
/// summing each account's aggregates across the lists in order.
#[verifier::loop_isolation(false)]
pub fn group_users_aggs(lists: &Vec<Vec<(Address, UserAgg)>>) -> (r: Result<
    Vec<(Address, UserAgg)>,
    AggError,
>)
    ensures
        match r {
            Ok(v) => spec_group(Seq::empty(), lists@) == Ok::<Seq<(Address, UserAgg)>, AggError>(
                v@,
            ),
            Err(e) => spec_group(Seq::empty(), lists@) == Err::<Seq<(Address, UserAgg)>, AggError>(
                e,
            ),
        },
{
    let mut accs: Vec<(Address, UserAgg)> = Vec::new();
    let mut i: usize = 0;
    while i < lists.len()
        invariant
            i <= lists@.len(),
            spec_group(Seq::empty(), lists@.take(i as int)) == Ok::<
                Seq<(Address, UserAgg)>,
                AggError,
            >(accs@),
        decreases lists@.len() - i,
    {
        proof {
            assert(lists@.take(i as int + 1).drop_last() =~= lists@.take(i as int));
            assert(lists@.take(i as int + 1).last() == lists@[i as int]);
        }
        let entries = &lists[i];
        let ghost accs0 = accs@;
        let mut j: usize = 0;
        while j < entries.len()
            invariant
                j <= entries@.len(),
                spec_group_one(accs0, entries@.take(j as int)) == Ok::<
                    Seq<(Address, UserAgg)>,
                    AggError,
                >(accs@),
            decreases entries@.len() - j,
        {
            proof {
                assert(entries@.take(j as int + 1).drop_last() =~= entries@.take(j as int));
                assert(entries@.take(j as int + 1).last() == entries@[j as int]);
            }
            let (account, b) = entries[j];
            match merge_upsert(&mut accs, account, b) {
                Ok(()) => {},
                Err(e) => {
                    proof {
                        lemma_group_one_err_propagates(accs0, entries@, j as int + 1);
                        lemma_group_err_propagates(lists@, i as int + 1);
                    }
                    return Err(e);
                },
            }
            j = j + 1;
        }
        proof {
            assert(entries@.take(entries@.len() as int) =~= entries@);
        }
        i = i + 1;
    }
    proof {
        assert(lists@.take(lists@.len() as int) =~= lists@);
    }
    Ok(accs)
}

proof fn lemma_group_one_err_propagates(
    accs: Seq<(Address, UserAgg)>,
    entries: Seq<(Address, UserAgg)>,
    n: int,
)
    requires
        0 <= n <= entries.len(),
        spec_group_one(accs, entries.take(n)) is Err,
    ensures
        spec_group_one(accs, entries) == spec_group_one(accs, entries.take(n)),
    decreases entries.len() - n,
{
    if n == entries.len() {
        assert(entries.take(n) =~= entries);
    } else {
        assert(entries.take(n + 1).drop_last() =~= entries.take(n));
        assert(entries.take(n + 1).last() == entries[n]);
        lemma_group_one_err_propagates(accs, entries, n + 1);
    }
}

proof fn lemma_group_err_propagates(lists: Seq<Vec<(Address, UserAgg)>>, n: int)
    requires
        0 <= n <= lists.len(),
        spec_group(Seq::empty(), lists.take(n)) is Err,
    ensures
        spec_group(Seq::empty(), lists) == spec_group(Seq::empty(), lists.take(n)),
    decreases lists.len() - n,
{
    if n == lists.len() {
        assert(lists.take(n) =~= lists);
    } else {
        assert(lists.take(n + 1).drop_last() =~= lists.take(n));
        assert(lists.take(n + 1).last() == lists[n]);
        lemma_group_err_propagates(lists, n + 1);
    }
}

// ---------------------------------------------------------------------------
// The window schedule
// ---------------------------------------------------------------------------

/// The first window boundary strictly after `start_ts` on the fixed grid of
/// width `width`.
pub open spec fn first_window_end(start_ts: u64, width: u64) -> int {
    (start_ts / width + 1) * width
}

/// The window-end instants of an aggregation run: every grid boundary
/// strictly after `start_ts` and at or before `end_ts`, in order, advancing
/// by the fixed window width.
pub fn window_ends(start_ts: u64, end_ts: u64, width: u64) -> (r: Vec<u64>)
    requires
        width > 0,
        start_ts <= end_ts,
        end_ts <= u64::MAX - width,
    ensures
        forall|i: int| 0 <= i < r@.len() ==> r@[i] == first_window_end(start_ts, width) + i * width,
        forall|i: int| 0 <= i < r@.len() ==> r@[i] <= end_ts,
        first_window_end(start_ts, width) + r@.len() * width > end_ts,
{
    let q = start_ts / width;
    proof {
        vstd::arithmetic::div_mod::lemma_fundamental_div_mod(start_ts as int, width as int);
        assert((q as int + 1) * (width as int) == (width as int) * (q as int) + (width as int))
            by (nonlinear_arith);
        assert(q as int <= (width as int) * (q as int)) by (nonlinear_arith)
            requires
                width as int >= 1,
                q as int >= 0,
        ;
    }
    let first = (q + 1) * width;
    let mut r: Vec<u64> = Vec::new();
    let mut t = first;
    proof {
        assert(r@.len() * width == 0) by (nonlinear_arith)
            requires
                r@.len() == 0,
        ;
    }
    while t <= end_ts
        invariant
            width > 0,
            end_ts <= u64::MAX - width,
            t as int == first_window_end(start_ts, width) + r@.len() * width,
            t <= end_ts + width,
            forall|i: int| 0 <= i < r@.len() ==> r@[i] == first_window_end(start_ts, width) + i
                * width,
            forall|i: int| 0 <= i < r@.len() ==> r@[i] <= end_ts,
        decreases end_ts + width - t,
    {
        r.push(t);
        proof {
            let n = r@.len() as int;
            assert(n * width == (n - 1) * width + width) by (nonlinear_arith);
        }
        t = t + width;
    }
    r
}

// ---------------------------------------------------------------------------
// Determinism
// ---------------------------------------------------------------------------

proof fn lemma_position_cores_congruent(
    a: Seq<(PositionKey, Vec<DebitEntry>)>,
    b: Seq<(PositionKey, Vec<DebitEntry>)>,
    long: bool,
    window_start: u64,
    window_end: u64,
)
    requires
        a.len() == b.len(),
        forall|i: int| 0 <= i < a.len() ==> (#[trigger] a[i]).0 == b[i].0 && a[i].1@ == b[i].1@,
    ensures
        spec_position_cores(a, long, window_start, window_end) == spec_position_cores(
            b,
            long,
            window_start,
            window_end,
        ),
    decreases a.len(),
{
    if a.len() > 0 {
        assert forall|i: int| 0 <= i < a.drop_last().len() implies (#[trigger] a.drop_last()[i]).0
            == b.drop_last()[i].0 && a.drop_last()[i].1@ == b.drop_last()[i].1@ by {
            assert(a.drop_last()[i] == a[i]);
            assert(b.drop_last()[i] == b[i]);
        }
        lemma_position_cores_congruent(a.drop_last(), b.drop_last(), long, window_start, window_end);
        assert(a[a.len() - 1].0 == b[a.len() - 1].0 && a[a.len() - 1].1@ == b[a.len() - 1].1@);
    }
}

proof fn lemma_lp_cores_congruent(
    a: Seq<(LpKey, Vec<DebitEntry>)>,
    b: Seq<(LpKey, Vec<DebitEntry>)>,
    window_start: u64,
    window_end: u64,
)
    requires
        a.len() == b.len(),
        forall|i: int| 0 <= i < a.len() ==> (#[trigger] a[i]).0 == b[i].0 && a[i].1@ == b[i].1@,
    ensures
        spec_lp_cores(a, window_start, window_end) == spec_lp_cores(b, window_start, window_end),
    decreases a.len(),
{
    if a.len() > 0 {
        assert forall|i: int| 0 <= i < a.drop_last().len() implies (#[trigger] a.drop_last()[i]).0
            == b.drop_last()[i].0 && a.drop_last()[i].1@ == b.drop_last()[i].1@ by {
            assert(a.drop_last()[i] == a[i]);
            assert(b.drop_last()[i] == b[i]);
        }
        lemma_lp_cores_congruent(a.drop_last(), b.drop_last(), window_start, window_end);
        assert(a[a.len() - 1].0 == b[a.len() - 1].0 && a[a.len() - 1].1@ == b[a.len() - 1].1@);
    }
}

/// Determinism: the aggregation pass is a function of the snapshot's
/// contents, the window bounds and the oracle's answers alone. Two runs
/// over ledgers with the same contents — two snapshots of one ledger, or
/// one rerun after a failure — owe the oracle the same valuations and
/// produce identical statements.
pub proof fn lemma_aggregation_deterministic(
    a: Ledger,
    b: Ledger,
    position_duration: u64,
    window_start: u64,
    window_end: u64,
    values: Seq<u128>,
)
    requires
        crate::ledger::same_contents(a, b),
    ensures
        spec_window_requests(a, position_duration, window_start, window_end)
            == spec_window_requests(b, position_duration, window_start, window_end),
        spec_window_statements(a, window_start, window_end, values) == spec_window_statements(
            b,
            window_start,
            window_end,
            values,
        ),
{
    lemma_position_cores_congruent(a.longs@, b.longs@, true, window_start, window_end);
    lemma_position_cores_congruent(a.shorts@, b.shorts@, false, window_start, window_end);
    lemma_lp_cores_congruent(a.lps@, b.lps@, window_start, window_end);
}

/// One whole engine pass with the oracle's answers checked against what was
/// requested: a wrong-length answer list is rejected instead of assumed
/// away.
pub open spec fn spec_aggregate_window(
    snapshot: Ledger,
    position_duration: u64,
    window_start: u64,
    window_end: u64,
    values: Seq<u128>,
) -> Result<Seq<(Address, UserAgg)>, AggError> {
    match spec_window_requests(snapshot, position_duration, window_start, window_end) {
        Err(e) => Err(e),
        Ok(reqs) => if values.len() != reqs.len() {
            Err(AggError::ValuationMismatch)
        } else {
            spec_window_statements(snapshot, window_start, window_end, values)
        },
    }
}

/// The engine's safe entry point: it requests the window's valuations
/// itself, rejects an answer list of the wrong length, and otherwise
/// produces the window's statements. Callers that cannot establish the
/// alignment precondition of `window_statements` call this one.
pub fn aggregate_window(
    snapshot: &Ledger,
    position_duration: u64,
    window_start: u64,
    window_end: u64,
    values: &Vec<u128>,
) -> (r: Result<Vec<(Address, UserAgg)>, AggError>)
    requires
        snapshot.wf(),
    ensures
        match r {
            Ok(v) => spec_aggregate_window(
                *snapshot,
                position_duration,
                window_start,
                window_end,
                values@,
            ) == Ok::<Seq<(Address, UserAgg)>, AggError>(v@),
            Err(e) => spec_aggregate_window(
                *snapshot,
                position_duration,
                window_start,
                window_end,
                values@,
            ) == Err::<Seq<(Address, UserAgg)>, AggError>(e),
        },
{
    let requests = match valuation_requests(snapshot, position_duration, window_start, window_end) {
        Ok(v) => v,
        Err(e) => {
            return Err(e);
        },
    };
    if values.len() != requests.len() {
        return Err(AggError::ValuationMismatch);
    }
    proof {
        lemma_requests_count(
            spec_cores(*snapshot, window_start, window_end)->Ok_0,
            snapshot.prices_map(),
            position_duration,
            window_end,
        );
    }
    window_statements(snapshot, window_start, window_end, values)
}

} // verus!
