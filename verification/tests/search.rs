use hyperdrive_tracker::search::{SearchOutcome, TimeSearch};

fn timestamp_of(height: u64) -> u64 {
    height * 100
}

fn resolve(target: u64, low: u64, high: u64) -> SearchOutcome {
    let mut search = TimeSearch::new(target, low, high);
    while let Some(mid) = search.next_probe() {
        search.step(timestamp_of(mid));
    }
    search.done.unwrap()
}

#[test]
fn resolves_highest_height_at_or_before_target() {
    assert_eq!(resolve(1550, 10, 20), SearchOutcome::Height(15));
    assert_eq!(resolve(1999, 10, 20), SearchOutcome::Height(19));
    assert_eq!(resolve(5000, 10, 20), SearchOutcome::Height(20));
}

#[test]
fn resolves_exact_hit() {
    assert_eq!(resolve(1200, 10, 20), SearchOutcome::Height(12));
    assert_eq!(resolve(1000, 10, 20), SearchOutcome::Height(10));
}

#[test]
fn target_before_range_is_not_reached() {
    assert_eq!(resolve(50, 10, 20), SearchOutcome::NotReached);
    assert_eq!(resolve(999, 10, 20), SearchOutcome::NotReached);
}

#[test]
fn search_terminates_quickly() {
    let mut search = TimeSearch::new(123_456, 0, 1_000_000);
    let mut probes: u32 = 0;
    while let Some(mid) = search.next_probe() {
        search.step(timestamp_of(mid));
        probes += 1;
        assert!(probes <= 64);
    }
    assert_eq!(search.done.unwrap(), SearchOutcome::Height(1234));
}
