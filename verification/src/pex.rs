//! Parasitic-extraction vocabulary shared with the checks: the kinds of
//! outlier a parasitic report can flag. The extraction arithmetic itself works
//! on real-valued resistances and capacitances and is not part of this
//! library.
use vstd::prelude::*;

verus! {

/// The kind of parasitic-extraction outlier.
#[derive(Debug, Clone, Copy, PartialEq, Eq, Structural)]
pub enum OutlierKind {
    /// Total wire resistance exceeds threshold.
    HighResistance,
    /// Total coupling capacitance exceeds threshold.
    HighCoupling,
    /// Ground capacitance exceeds threshold.
    HighGroundCap,
    /// Via resistance exceeds threshold.
    HighViaResistance,
    /// Delta between matched-group members exceeds budget.
    MatchedGroupDelta,
}

} // verus!
