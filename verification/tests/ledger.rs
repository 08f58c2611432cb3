use hyperdrive_tracker::ledger::Ledger;
use hyperdrive_tracker::types::{
    Address, ClassifyError, DebitEntry, LpKey, PositionClass, PositionKey, SharePrice,
};

fn addr(n: u32) -> Address {
    Address { hi: n, lo: n as u128 }
}

fn entry(height: u64, timestamp: u64, base: i128, secondary: i128) -> DebitEntry {
    DebitEntry { block_height: height, timestamp, base_amount: base, secondary_amount: secondary }
}

#[test]
fn open_creates_history_and_appends() {
    let mut ledger = Ledger::new();
    let key = PositionKey { trader: addr(1), maturity_time: 5000 };
    assert!(!ledger.contains_key(PositionClass::Long, key));
    ledger.apply_open(PositionClass::Long, key, entry(10, 1000, 100, 110));
    assert!(ledger.contains_key(PositionClass::Long, key));
    assert!(!ledger.contains_key(PositionClass::Short, key));
    assert_eq!(ledger.last_entry_height(PositionClass::Long, key), Some(10));
    ledger.apply_open(PositionClass::Long, key, entry(12, 1200, 50, 55));
    assert_eq!(ledger.last_entry_height(PositionClass::Long, key), Some(12));
    assert_eq!(ledger.longs.len(), 1);
    assert_eq!(ledger.longs[0].1.len(), 2);
}

#[test]
fn close_without_open_is_unknown_position() {
    let mut ledger = Ledger::new();
    let key = PositionKey { trader: addr(1), maturity_time: 5000 };
    let r = ledger.apply_close(PositionClass::Long, key, entry(10, 1000, -100, -110));
    assert_eq!(r, Err(ClassifyError::UnknownPosition));
    assert!(ledger.longs.is_empty());
}

#[test]
fn close_after_open_succeeds() {
    let mut ledger = Ledger::new();
    let key = PositionKey { trader: addr(2), maturity_time: 5000 };
    ledger.apply_open(PositionClass::Short, key, entry(10, 1000, 100, 110));
    let r = ledger.apply_close(PositionClass::Short, key, entry(11, 1100, -100, -110));
    assert_eq!(r, Ok(()));
    assert_eq!(ledger.shorts[0].1.len(), 2);
}

#[test]
fn lp_open_and_close() {
    let mut ledger = Ledger::new();
    let key = LpKey { provider: addr(3) };
    assert_eq!(
        ledger.apply_lp_close(key, entry(9, 900, -10, -10)),
        Err(ClassifyError::UnknownPosition)
    );
    ledger.apply_lp_open(key, entry(10, 1000, 10, 10));
    assert!(ledger.contains_lp_key(key));
    assert_eq!(ledger.lp_last_entry_height(key), Some(10));
    assert_eq!(ledger.apply_lp_close(key, entry(11, 1100, -10, -10)), Ok(()));
}

#[test]
fn checkpoint_price_first_writer_wins() {
    let mut ledger = Ledger::new();
    let first = SharePrice { block_num: 10, price: 1_000_000 };
    let second = SharePrice { block_num: 11, price: 2_000_000 };
    assert_eq!(ledger.get_checkpoint_price(600), None);
    ledger.record_checkpoint_price(600, first);
    ledger.record_checkpoint_price(600, second);
    assert_eq!(ledger.get_checkpoint_price(600), Some(first));
    assert_eq!(ledger.share_prices.len(), 1);
}

#[test]
fn snapshot_is_a_point_in_time_copy() {
    let mut ledger = Ledger::new();
    let key = PositionKey { trader: addr(4), maturity_time: 5000 };
    ledger.apply_open(PositionClass::Long, key, entry(10, 1000, 100, 110));
    let snap = ledger.snapshot();
    ledger.apply_open(PositionClass::Long, key, entry(12, 1200, 7, 8));
    ledger.record_checkpoint_price(600, SharePrice { block_num: 10, price: 5 });
    assert_eq!(snap.longs[0].1.len(), 1);
    assert_eq!(ledger.longs[0].1.len(), 2);
    assert_eq!(snap.share_prices.len(), 0);
}
