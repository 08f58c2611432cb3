use hyperdrive_tracker::agg::{
    aggregate_window, group_users_aggs, valuation_requests, window_ends, window_statements,
    ValuationRequest,
};
use hyperdrive_tracker::balance::{cumulative_balance, window_activity, CumulativeBalance};
use hyperdrive_tracker::ingest::{IngestionState, RawEvent};
use hyperdrive_tracker::ledger::Ledger;
use hyperdrive_tracker::types::{
    Address, AggError, BalanceError, DebitEntry, Policy, PositionClass, PositionKey, SharePrice,
};

fn addr(n: u32) -> Address {
    Address { hi: n, lo: n as u128 }
}

fn entry(height: u64, timestamp: u64, base: i128, secondary: i128) -> DebitEntry {
    DebitEntry { block_height: height, timestamp, base_amount: base, secondary_amount: secondary }
}

#[test]
fn cumulative_balance_is_the_signed_sum() {
    let history = vec![
        entry(10, 1000, 100, 110),
        entry(12, 1200, -40, -44),
        entry(14, 1400, 7, 8),
    ];
    let c = cumulative_balance(&history, 1300).unwrap();
    assert_eq!(c, CumulativeBalance { base: 60, secondary: 66 });
    let all = cumulative_balance(&history, 2000).unwrap();
    assert_eq!(all, CumulativeBalance { base: 67, secondary: 74 });
    let none = cumulative_balance(&history, 500).unwrap();
    assert_eq!(none, CumulativeBalance { base: 0, secondary: 0 });
}

#[test]
fn negative_secondary_prefix_is_fatal() {
    let history = vec![entry(10, 1000, -5, -5), entry(12, 1200, 10, 10)];
    assert_eq!(cumulative_balance(&history, 2000), Err(BalanceError::NegativeSecondary));
}

#[test]
fn cumulative_overflow_is_reported() {
    let history = vec![entry(10, 1000, i128::MAX, 1), entry(12, 1200, 1, 1)];
    assert_eq!(cumulative_balance(&history, 2000), Err(BalanceError::Overflow));
}

#[test]
fn window_boundary_entry_counts_only_in_second_window() {
    let history = vec![entry(10, 1000, 100, 1), entry(12, 2000, -30, -1)];
    let first = window_activity(&history, 1000, 2000).unwrap();
    assert_eq!(first.count, 1);
    assert_eq!(first.volume, 100);
    let second = window_activity(&history, 2000, 3000).unwrap();
    assert_eq!(second.count, 1);
    assert_eq!(second.volume, 30);
    let whole = window_activity(&history, 1000, 3000).unwrap();
    assert_eq!(whole.count, 2);
    assert_eq!(whole.volume, 130);
}

#[test]
fn long_statement_scenario() {
    let mut state = IngestionState::start(0);
    let events = vec![RawEvent::OpenLong {
        trader: addr(1),
        maturity_time: 5000,
        block_height: 10,
        timestamp: 1000,
        base_amount: 100,
        bond_amount: 110,
    }];
    state.ingest_page(&events, &vec![], 20, Policy::Strict).unwrap();
    let snap = state.ledger.snapshot();

    let requests = valuation_requests(&snap, 400, 0, 2000).unwrap();
    assert_eq!(requests.len(), 1);
    match requests[0] {
        ValuationRequest::CloseLong { key, bond_amount, maturity_time, as_of } => {
            assert_eq!(key, PositionKey { trader: addr(1), maturity_time: 5000 });
            assert_eq!(bond_amount, 110);
            assert_eq!(maturity_time, 5000);
            assert_eq!(as_of, 2000);
        },
        _ => panic!("expected a long valuation request"),
    }

    let rows = window_statements(&snap, 0, 2000, &vec![130]).unwrap();
    assert_eq!(rows.len(), 1);
    let (account, agg) = rows[0];
    assert_eq!(account, addr(1));
    assert_eq!(agg.action_count.long, 1);
    assert_eq!(agg.volume.long, 100);
    assert_eq!(agg.net_base_balance.long, -100);
    assert_eq!(agg.pnl.long, 130 - 100);
    assert_eq!(agg.action_count.short, 0);
    assert_eq!(agg.pnl.lp, 0);
}

#[test]
fn short_requests_use_recorded_checkpoint_prices() {
    let mut state = IngestionState::start(0);
    let events = vec![
        RawEvent::OpenShort {
            trader: addr(1),
            maturity_time: 1000,
            block_height: 10,
            timestamp: 500,
            base_amount: 10,
            bond_amount: 12,
        },
        RawEvent::OpenShort {
            trader: addr(2),
            maturity_time: 1000,
            block_height: 12,
            timestamp: 600,
            base_amount: 20,
            bond_amount: 24,
        },
    ];
    let pa = SharePrice { block_num: 6, price: 11 };
    let pb = SharePrice { block_num: 10, price: 13 };
    let prices = vec![(600u64, pa), (1000u64, pb), (600u64, SharePrice { block_num: 7, price: 99 })];
    state.ingest_page(&events, &prices, 20, Policy::Strict).unwrap();
    let snap = state.ledger.snapshot();

    let requests = valuation_requests(&snap, 400, 0, 2000).unwrap();
    assert_eq!(requests.len(), 2);
    for req in &requests {
        match req {
            ValuationRequest::CloseShort {
                open_checkpoint_price,
                maturity_checkpoint_price,
                maturity_time,
                as_of,
                ..
            } => {
                assert_eq!(*open_checkpoint_price, 11);
                assert_eq!(*maturity_checkpoint_price, 13);
                assert_eq!(*maturity_time, 1000);
                assert_eq!(*as_of, 1000);
            },
            _ => panic!("expected a short valuation request"),
        }
    }
}

#[test]
fn missing_checkpoint_is_fatal() {
    let mut ledger = Ledger::new();
    let key = PositionKey { trader: addr(1), maturity_time: 1000 };
    ledger.apply_open(PositionClass::Short, key, entry(10, 500, 10, 12));
    let r = valuation_requests(&ledger, 400, 0, 2000);
    assert_eq!(r, Err(AggError::MissingCheckpoint(600)));
}

#[test]
fn zero_secondary_balance_needs_no_valuation() {
    let mut ledger = Ledger::new();
    let key = PositionKey { trader: addr(1), maturity_time: 5000 };
    ledger.apply_open(PositionClass::Long, key, entry(10, 1000, 100, 110));
    let _ = ledger.apply_close(PositionClass::Long, key, entry(12, 1200, -90, -110));
    let requests = valuation_requests(&ledger, 400, 0, 2000).unwrap();
    assert!(requests.is_empty());
    let rows = window_statements(&ledger, 0, 2000, &vec![]).unwrap();
    assert_eq!(rows.len(), 1);
    let (_, agg) = rows[0];
    assert_eq!(agg.action_count.long, 2);
    assert_eq!(agg.volume.long, 190);
    assert_eq!(agg.net_base_balance.long, -10);
    assert_eq!(agg.pnl.long, -10);
}

#[test]
fn statements_are_deterministic_across_snapshots() {
    let mut state = IngestionState::start(0);
    let events = vec![
        RawEvent::OpenLong {
            trader: addr(1),
            maturity_time: 5000,
            block_height: 10,
            timestamp: 1000,
            base_amount: 100,
            bond_amount: 110,
        },
        RawEvent::Initialize {
            provider: addr(2),
            block_height: 11,
            timestamp: 1100,
            lp_amount: 50,
            base_amount: 60,
        },
    ];
    state.ingest_page(&events, &vec![], 20, Policy::Strict).unwrap();
    let snap1 = state.ledger.snapshot();
    let snap2 = state.ledger.snapshot();
    let values = vec![130u128, 70u128];
    let rows1 = window_statements(&snap1, 0, 2000, &values).unwrap();
    let rows2 = window_statements(&snap2, 0, 2000, &values).unwrap();
    assert_eq!(rows1, rows2);
}

#[test]
fn grouping_sums_accounts_across_lists() {
    let mut state = IngestionState::start(0);
    let events = vec![RawEvent::Initialize {
        provider: addr(7),
        block_height: 11,
        timestamp: 1100,
        lp_amount: 50,
        base_amount: 60,
    }];
    state.ingest_page(&events, &vec![], 20, Policy::Strict).unwrap();
    let rows = window_statements(&state.ledger, 0, 2000, &vec![75]).unwrap();
    let merged = group_users_aggs(&vec![rows.clone(), rows.clone()]).unwrap();
    assert_eq!(merged.len(), 1);
    let (account, agg) = merged[0];
    assert_eq!(account, addr(7));
    assert_eq!(agg.action_count.lp, 2);
    assert_eq!(agg.volume.lp, 120);
    assert_eq!(agg.net_base_balance.lp, -120);
    assert_eq!(agg.pnl.lp, 2 * (75 - 60));
}

#[test]
fn window_ends_walk_the_grid() {
    assert_eq!(window_ends(1000, 90000, 86400), vec![86400]);
    assert_eq!(window_ends(0, 11000, 3600), vec![3600, 7200, 10800]);
    assert_eq!(window_ends(7200, 7200, 3600), Vec::<u64>::new());
    assert_eq!(window_ends(7100, 10800, 3600), vec![7200, 10800]);
}

#[test]
fn aggregation_rejects_negative_secondary_history() {
    let mut ledger = Ledger::new();
    let key = PositionKey { trader: addr(1), maturity_time: 5000 };
    ledger.apply_open(PositionClass::Long, key, entry(10, 1000, 100, 110));
    // A close larger than every prior open drives the running secondary
    // balance below zero, which aggregation must refuse.
    let _ = ledger.apply_close(PositionClass::Long, key, entry(12, 1200, -100, -200));
    assert_eq!(valuation_requests(&ledger, 400, 0, 2000), Err(AggError::NegativeSecondary));
    assert_eq!(window_statements(&ledger, 0, 2000, &vec![]), Err(AggError::NegativeSecondary));
}

#[test]
fn oversized_oracle_value_is_an_overflow() {
    let mut ledger = Ledger::new();
    let key = PositionKey { trader: addr(1), maturity_time: 5000 };
    ledger.apply_open(PositionClass::Long, key, entry(10, 1000, 100, 110));
    let r = window_statements(&ledger, 0, 2000, &vec![u128::MAX]);
    assert_eq!(r, Err(AggError::Overflow));
}

#[test]
fn wrong_valuation_count_is_rejected() {
    let mut ledger = Ledger::new();
    let key = PositionKey { trader: addr(1), maturity_time: 5000 };
    ledger.apply_open(PositionClass::Long, key, entry(10, 1000, 100, 110));
    let r = aggregate_window(&ledger, 400, 0, 2000, &vec![]);
    assert_eq!(r, Err(AggError::ValuationMismatch));
    let ok = aggregate_window(&ledger, 400, 0, 2000, &vec![130]).unwrap();
    assert_eq!(ok.len(), 1);
    assert_eq!(ok[0].1.pnl.long, 30);
}

#[test]
fn validation_accepts_library_built_ledgers() {
    let mut ledger = Ledger::new();
    assert!(ledger.is_well_formed());
    let key = PositionKey { trader: addr(1), maturity_time: 5000 };
    ledger.apply_open(PositionClass::Long, key, entry(10, 1000, 100, 110));
    assert!(ledger.is_well_formed());
    // A hand-built ledger with duplicate keys or out-of-order heights is
    // refused.
    let mut broken = Ledger::new();
    broken.longs.push((key, vec![entry(10, 1000, 1, 1)]));
    broken.longs.push((key, vec![entry(11, 1100, 2, 2)]));
    assert!(!broken.is_well_formed());
    let mut unsorted = Ledger::new();
    unsorted.longs.push((key, vec![entry(10, 1000, 1, 1), entry(10, 1000, 2, 2)]));
    assert!(!unsorted.is_well_formed());
}
