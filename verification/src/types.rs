//! Plain value types shared by the ledger, the ingestion pipeline and the
//! aggregation engine.

use vstd::prelude::*;

verus! {

/// A 160-bit account address held as plain integers: `hi` carries the top
/// 4 bytes, `lo` the bottom 16.
#[derive(Clone, Copy, PartialEq, Eq, Structural, Debug)]
pub struct Address {
    pub hi: u32,
    pub lo: u128,
}

/// Identifies one long or short lineage: one trader and one maturity instant.
#[derive(Clone, Copy, PartialEq, Eq, Structural, Debug)]
pub struct PositionKey {
    pub trader: Address,
    pub maturity_time: u64,
}

/// Identifies one liquidity-provider lineage.
#[derive(Clone, Copy, PartialEq, Eq, Structural, Debug)]
pub struct LpKey {
    pub provider: Address,
}

/// One signed ledger entry for one event's flows, in fixed-point base units
/// at a scale of 18 decimal digits. `secondary_amount` is bond units for a
/// long or short lineage and LP-share units for a liquidity lineage.
/// Opens and adds are positive, closes and removes negative.
#[derive(Clone, Copy, PartialEq, Eq, Structural, Debug)]
pub struct DebitEntry {
    pub block_height: u64,
    pub timestamp: u64,
    pub base_amount: i128,
    pub secondary_amount: i128,
}

/// A vault share price sampled at one checkpoint instant, with the block
/// height the sample was taken at.
#[derive(Clone, Copy, PartialEq, Eq, Structural, Debug)]
pub struct SharePrice {
    pub block_num: u64,
    pub price: u128,
}

/// Whether a position event belongs to the long or the short book.
#[derive(Clone, Copy, PartialEq, Eq, Structural, Debug)]
pub enum PositionClass {
    Long,
    Short,
}

impl PositionClass {
    /// The other book.
    pub open spec fn flip(self) -> PositionClass {
        match self {
            PositionClass::Long => PositionClass::Short,
            PositionClass::Short => PositionClass::Long,
        }
    }
}

/// How the ingestion pipeline treats an event that cannot be classified:
/// `Strict` aborts the page without committing, `Lenient` skips the event.
#[derive(Clone, Copy, PartialEq, Eq, Structural, Debug)]
pub enum Policy {
    Strict,
    Lenient,
}

/// Why one event could not be classified into a ledger entry.
#[derive(Clone, Copy, PartialEq, Eq, Structural, Debug)]
pub enum ClassifyError {
    /// A close or remove was observed for a key with no prior open in the
    /// replayed range.
    UnknownPosition,
    /// The event's block height does not lie strictly above the entries
    /// already recorded under its key: chain order was violated.
    OutOfOrder,
}

/// Why a derived cumulative balance or window tally could not be produced.
#[derive(Clone, Copy, PartialEq, Eq, Structural, Debug)]
pub enum BalanceError {
    /// A running sum left the representable fixed-point range.
    Overflow,
    /// A committed prefix drove the secondary balance below zero, which
    /// signals a classification bug or out-of-order entries.
    NegativeSecondary,
}

/// Why an aggregation pass over a ledger snapshot failed.
#[derive(Clone, Copy, PartialEq, Eq, Structural, Debug)]
pub enum AggError {
    /// A running sum left the representable fixed-point range.
    Overflow,
    /// A committed prefix drove a secondary balance below zero.
    NegativeSecondary,
    /// A short's valuation needed a checkpoint price for this timestamp that
    /// ingestion never recorded: a data-completeness failure, not transient.
    MissingCheckpoint(u64),
    /// The oracle answered a different number of valuations than the engine
    /// requested for the window.
    ValuationMismatch,
}

/// Amounts enter the ledger strictly above `i128::MIN`, so that taking an
/// absolute value can never overflow.
pub open spec fn entry_bounded(e: DebitEntry) -> bool {
    e.base_amount > i128::MIN && e.secondary_amount > i128::MIN
}

/// The opening checkpoint of a short lies one position duration before its
/// maturity instant, never before the origin.
pub open spec fn open_checkpoint_time(maturity_time: u64, position_duration: u64) -> u64 {
    if maturity_time >= position_duration {
        (maturity_time - position_duration) as u64
    } else {
        0
    }
}

} // verus!
