//! Conversions at the library's edge: rendering timestamps for report rows
//! and draining a concurrent map into a plain one for serialization. Both
//! lean on outside crates and are trusted, not verified.

use std::collections::HashMap;
use std::hash::Hash;

use vstd::prelude::*;

verus! {

/// The RFC 3339 rendering of a unix timestamp in UTC, or the fixed error
/// text for an instant outside the calendar's range: a function of the
/// timestamp alone, the same in every process.
pub uninterp spec fn rfc3339_of(timestamp: u64) -> Seq<char>;

/// Relies on chrono's `DateTime::from_timestamp` and
/// `DateTime::to_rfc3339`: rendering an instant in UTC depends on the
/// timestamp alone, and an instant outside chrono's range yields `None`.
#[verifier::external_body]
pub fn timestamp_to_string(timestamp: u64) -> (r: String)
    ensures
        r@ == rfc3339_of(timestamp),
{
    match chrono::DateTime::from_timestamp(timestamp as i64, 0) {
        Some(datetime) => datetime.to_rfc3339(),
        None => "Invalid timestamp".to_string(),
    }
}

#[verifier::external_type_specification]
#[verifier::external_body]
#[verifier::reject_recursive_types(K)]
#[verifier::reject_recursive_types(V)]
#[verifier::reject_recursive_types(S)]
pub struct ExDashMap<K, V, S>(dashmap::DashMap<K, V, S>);

/// Relies on dashmap's `iter`: it visits each entry of the map exactly
/// once. Nothing is proved of the result.
#[verifier::external_body]
fn drain_dashmap<K: Eq + Hash + Clone, V: Clone>(m: &dashmap::DashMap<K, V>) -> HashMap<K, V> {
    m.iter().map(|entry| (entry.key().clone(), entry.value().clone())).collect()
}

/// Draining a concurrent map into a plain `HashMap`, for serialization at
/// the persistence edge.
pub trait DashMapToHashMap<K: Eq + Hash + Clone, V: Clone> {
    fn to_hashmap(&self) -> HashMap<K, V>;
}

impl<K: Eq + Hash + Clone, V: Clone> DashMapToHashMap<K, V> for dashmap::DashMap<K, V> {
    fn to_hashmap(&self) -> HashMap<K, V> {
        drain_dashmap(self)
    }
}

} // verus!
