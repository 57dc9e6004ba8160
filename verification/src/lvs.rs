//! LVS (layout versus schematic) result types and net identifiers.
use vstd::prelude::*;

verus! {

/// Opaque net identifier from the schematic.
#[derive(Debug, Clone, Copy, PartialEq, Eq, Hash, Structural)]
pub struct NetId(pub u32);

/// Result of a union operation.
#[derive(Debug, Clone, PartialEq, Eq, Structural)]
pub enum UnionResult {
    /// Both elements were already in the same component.
    AlreadySame,
    /// Merged two components with compatible labels (or at least one unlabeled).
    Merged,
    /// Merged two components with conflicting labels: a short.
    Short { net_a: NetId, net_b: NetId },
}

/// An open circuit: a net whose labeled elements span several components
/// that should have been connected.
#[derive(Debug, Clone)]
pub struct LvsOpen {
    /// The net that is split across components.
    pub net: NetId,
    /// The distinct components that should have been one.
    pub components: Vec<Vec<u32>>,
}

/// A short circuit: elements with different net labels ended up in the same
/// component.
#[derive(Debug, Clone)]
pub struct LvsShort {
    /// The nets that were incorrectly merged.
    pub nets: Vec<NetId>,
    /// The component representative where they merged.
    pub component: u32,
}

/// The kind of LVS port/device mismatch.
#[derive(Debug, Clone, Copy, PartialEq, Eq, Structural)]
pub enum MismatchKind {
    /// A port expected by the schematic was not found in the layout.
    MissingPort,
    /// The layout has a port not present in the schematic.
    ExtraPort,
    /// The number of devices on this net differs between layout and schematic.
    DeviceCountMismatch,
    /// A device's type differs between layout and schematic.
    DeviceTypeMismatch,
}

/// A port or device mismatch between the layout and the schematic.
#[derive(Debug, Clone)]
pub struct LvsMismatch {
    /// The kind of mismatch.
    pub kind: MismatchKind,
    /// The net the mismatch pertains to.
    pub net: NetId,
    /// Human-readable detail about the mismatch.
    pub detail: String,
}

/// A connectivity invariant violation found by
/// `ConnectivityTracker::invariant_check`.
#[derive(Debug, Clone)]
pub enum LvsError {
    /// A net's labeled elements span several disconnected components.
    Open(LvsOpen),
    /// Elements with different net labels ended up in the same component.
    Short(LvsShort),
}

/// Summary of LVS checking results.
#[derive(Debug, Clone)]
pub struct LvsResult {
    /// Open circuits: net labels that span several disconnected components.
    pub opens: Vec<LvsOpen>,
    /// Short circuits: different net labels merged into one component.
    pub shorts: Vec<LvsShort>,
    /// Port mismatches: expected ports not found in the layout, or extra ports.
    pub mismatches: Vec<LvsMismatch>,
}

impl LvsResult {
    /// An empty result: no opens, shorts or mismatches.
    pub fn new() -> (r: LvsResult)
        ensures
            r.opens@.len() == 0,
            r.shorts@.len() == 0,
            r.mismatches@.len() == 0,
    {
        LvsResult { opens: Vec::new(), shorts: Vec::new(), mismatches: Vec::new() }
    }

    /// True if there are no opens, shorts, or mismatches.
    pub fn is_clean(&self) -> (b: bool)
        ensures
            b == (self.opens@.len() == 0 && self.shorts@.len() == 0 && self.mismatches@.len() == 0),
    {
        self.opens.len() == 0 && self.shorts.len() == 0 && self.mismatches.len() == 0
    }

    /// Total number of errors.
    pub fn error_count(&self) -> (c: usize)
        requires
            self.opens@.len() + self.shorts@.len() + self.mismatches@.len() <= usize::MAX,
        ensures
            c == self.opens@.len() + self.shorts@.len() + self.mismatches@.len(),
    {
        self.opens.len() + self.shorts.len() + self.mismatches.len()
    }
}

impl Default for LvsResult {
    fn default() -> (r: LvsResult)
        ensures
            r.opens@.len() == 0,
            r.shorts@.len() == 0,
            r.mismatches@.len() == 0,
    {
        LvsResult::new()
    }
}

} // verus!
