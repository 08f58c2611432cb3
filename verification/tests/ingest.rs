use hyperdrive_tracker::ingest::{checkpoint_requests, IngestionState, RawEvent};
use hyperdrive_tracker::types::{Address, ClassifyError, Policy, PositionClass, PositionKey, SharePrice};

fn addr(n: u32) -> Address {
    Address { hi: n, lo: n as u128 }
}

fn open_long(trader: Address, maturity: u64, height: u64, ts: u64, base: u128, bond: u128) -> RawEvent {
    RawEvent::OpenLong {
        trader,
        maturity_time: maturity,
        block_height: height,
        timestamp: ts,
        base_amount: base,
        bond_amount: bond,
    }
}

fn close_long(trader: Address, maturity: u64, height: u64, ts: u64, base: u128, bond: u128) -> RawEvent {
    RawEvent::CloseLong {
        trader,
        maturity_time: maturity,
        block_height: height,
        timestamp: ts,
        base_amount: base,
        bond_amount: bond,
    }
}

fn open_short(trader: Address, maturity: u64, height: u64, ts: u64, base: u128, bond: u128) -> RawEvent {
    RawEvent::OpenShort {
        trader,
        maturity_time: maturity,
        block_height: height,
        timestamp: ts,
        base_amount: base,
        bond_amount: bond,
    }
}

#[test]
fn one_page_applies_and_advances_checkpoint() {
    let mut state = IngestionState::start(0);
    let events = vec![
        open_long(addr(1), 5000, 10, 1000, 100, 110),
        close_long(addr(1), 5000, 12, 1200, 40, 44),
    ];
    let stats = state.ingest_page(&events, &vec![], 100, Policy::Strict).unwrap();
    assert_eq!(stats.applied, 2);
    assert_eq!(stats.skipped, 0);
    assert_eq!(state.last_committed_height, 100);
    let key = PositionKey { trader: addr(1), maturity_time: 5000 };
    assert!(state.ledger.contains_key(PositionClass::Long, key));
    let history = &state.ledger.longs[0].1;
    assert_eq!(history.len(), 2);
    assert_eq!(history[0].base_amount, 100);
    assert_eq!(history[0].secondary_amount, 110);
    assert_eq!(history[1].base_amount, -40);
    assert_eq!(history[1].secondary_amount, -44);
}

#[test]
fn strict_abort_leaves_state_exactly_as_committed() {
    let mut state = IngestionState::start(41);
    let events = vec![
        open_long(addr(1), 5000, 10, 1000, 100, 110),
        close_long(addr(2), 5000, 11, 1100, 40, 44),
    ];
    let r = state.ingest_page(&events, &vec![], 100, Policy::Strict);
    assert_eq!(r, Err(ClassifyError::UnknownPosition));
    assert_eq!(state.last_committed_height, 41);
    assert!(state.ledger.longs.is_empty());
    assert!(state.ledger.shorts.is_empty());
    assert!(state.ledger.lps.is_empty());
}

#[test]
fn lenient_skips_and_counts() {
    let mut state = IngestionState::start(0);
    let events = vec![
        open_long(addr(1), 5000, 10, 1000, 100, 110),
        close_long(addr(2), 5000, 11, 1100, 40, 44),
        close_long(addr(1), 5000, 12, 1200, 30, 33),
    ];
    let stats = state.ingest_page(&events, &vec![], 100, Policy::Lenient).unwrap();
    assert_eq!(stats.applied, 2);
    assert_eq!(stats.skipped, 1);
    assert_eq!(state.last_committed_height, 100);
}

#[test]
fn out_of_order_event_is_rejected() {
    let mut state = IngestionState::start(0);
    let events = vec![
        open_long(addr(1), 5000, 10, 1000, 100, 110),
        close_long(addr(1), 5000, 10, 1000, 40, 44),
    ];
    let r = state.ingest_page(&events, &vec![], 100, Policy::Strict);
    assert_eq!(r, Err(ClassifyError::OutOfOrder));
    let stats = state.ingest_page(&events, &vec![], 100, Policy::Lenient).unwrap();
    assert_eq!(stats.applied, 1);
    assert_eq!(stats.skipped, 1);
}

#[test]
fn restart_equals_one_run() {
    let e1 = vec![
        open_long(addr(1), 5000, 10, 1000, 100, 110),
        open_short(addr(2), 5000, 11, 1100, 10, 12),
    ];
    let e2 = vec![close_long(addr(1), 5000, 20, 2000, 40, 44)];
    let p1 = vec![(600u64, SharePrice { block_num: 5, price: 7 })];
    let p2 = vec![(5000u64, SharePrice { block_num: 11, price: 9 })];

    let mut one = IngestionState::start(0);
    let all: Vec<_> = e1.iter().chain(e2.iter()).cloned().collect();
    let ps: Vec<_> = p1.iter().chain(p2.iter()).cloned().collect();
    one.ingest_page(&all, &ps, 30, Policy::Strict).unwrap();

    let mut first = IngestionState::start(0);
    first.ingest_page(&e1, &p1, 20, Policy::Strict).unwrap();
    let mut resumed = IngestionState::resume(first.ledger, first.last_committed_height);
    resumed.ingest_page(&e2, &p2, 30, Policy::Strict).unwrap();

    assert_eq!(one.ledger.longs, resumed.ledger.longs);
    assert_eq!(one.ledger.shorts, resumed.ledger.shorts);
    assert_eq!(one.ledger.lps, resumed.ledger.lps);
    assert_eq!(one.ledger.share_prices, resumed.ledger.share_prices);
    assert_eq!(one.last_committed_height, resumed.last_committed_height);
}

#[test]
fn checkpoint_requests_two_per_open_short() {
    let events = vec![
        open_short(addr(1), 1000, 10, 500, 10, 12),
        open_long(addr(1), 1000, 11, 550, 5, 6),
        open_short(addr(2), 1000, 12, 600, 20, 24),
    ];
    let times = checkpoint_requests(&events, 400);
    assert_eq!(times, vec![600, 1000, 600, 1000]);
}

#[test]
fn shared_maturity_checkpoint_recorded_once() {
    let mut state = IngestionState::start(0);
    let events = vec![
        open_short(addr(1), 1000, 10, 500, 10, 12),
        open_short(addr(2), 1000, 12, 600, 20, 24),
    ];
    let pa = SharePrice { block_num: 6, price: 11 };
    let pb = SharePrice { block_num: 10, price: 13 };
    let pc = SharePrice { block_num: 6, price: 99 };
    let pd = SharePrice { block_num: 10, price: 98 };
    let prices = vec![(600u64, pa), (1000u64, pb), (600u64, pc), (1000u64, pd)];
    state.ingest_page(&events, &prices, 20, Policy::Strict).unwrap();
    assert_eq!(state.ledger.share_prices.len(), 2);
    assert_eq!(state.ledger.get_checkpoint_price(600), Some(pa));
    assert_eq!(state.ledger.get_checkpoint_price(1000), Some(pb));
}
