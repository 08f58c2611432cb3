//! Verified core of a resumable event indexer and financial aggregation
//! engine for a margin-trading liquidity protocol.
//!
//! The library keeps a durable per-account ledger of position debits implied
//! by a stream of position-lifecycle events, ingests that stream in atomically
//! committed pages so that a restart can resume from the last committed block
//! height, and replays ledger snapshots at fixed window boundaries into
//! per-account profit-and-loss statements. The physical chain link, the
//! pricing oracle's valuation formulas and the report encoding are external
//! collaborators: the library speaks to them through plain values.

pub mod agg;
pub mod balance;
pub mod ingest;
pub mod ledger;
pub mod search;
pub mod types;
pub mod utils;
