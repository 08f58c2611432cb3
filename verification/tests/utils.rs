use std::collections::HashMap;

use hyperdrive_tracker::utils::{timestamp_to_string, DashMapToHashMap};

#[test]
fn timestamps_render_as_rfc3339() {
    assert_eq!(timestamp_to_string(0), "1970-01-01T00:00:00+00:00");
    assert_eq!(timestamp_to_string(1_700_000_000), "2023-11-14T22:13:20+00:00");
}

#[test]
fn dashmap_drains_to_hashmap() {
    let m: dashmap::DashMap<u64, u64> = dashmap::DashMap::new();
    m.insert(1, 10);
    m.insert(2, 20);
    m.insert(3, 30);
    let h = m.to_hashmap();
    let mut expected: HashMap<u64, u64> = HashMap::new();
    expected.insert(1, 10);
    expected.insert(2, 20);
    expected.insert(3, 30);
    assert_eq!(h, expected);
}
