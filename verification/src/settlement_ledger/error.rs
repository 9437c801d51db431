use vstd::prelude::*;

use crate::tick_math::MathError;

verus! {

/// Why the settlement ledger refused a record or a settlement.
#[derive(Debug, Clone, Copy, PartialEq, Eq, Structural)]
pub enum LedgerError {
    /// The market was never registered.
    UnknownMarket(u32),
    /// A sub-period boundary has no index record.
    MissingFIndexRecord(u32),
    /// A different record is already known at this tag.
    ConflictingFIndexRecord(u32),
    /// The target lies before the checkpoint.
    NonMonotonicSettlement { checkpoint: u32, upto: u32 },
    /// The fill belongs to a window that is already settled.
    FillBeforeCheckpoint(u32),
    /// The record belongs to a window that is already settled.
    FIndexRecordBeforeCheckpoint(u32),
    /// The fee index fell between two records.
    FeeIndexDecreased { last_f_tag: u32, current_f_tag: u32 },
    /// A payment or fee is not representable.
    Math(MathError),
}

impl From<MathError> for LedgerError {
    fn from(e: MathError) -> (r: Self) {
        LedgerError::Math(e)
    }
}

impl vstd::std_specs::convert::FromSpecImpl<MathError> for LedgerError {
    open spec fn obeys_from_spec() -> bool {
        true
    }

    open spec fn from_spec(e: MathError) -> Self {
        LedgerError::Math(e)
    }
}

} // verus!
