//! DRC violation types, check regions and violation deltas.
use vstd::prelude::*;

use crate::geom::{fits_i64, spec_rect_new, Rect};

verus! {

/// Closed taxonomy of all DRC violation categories.
#[derive(Debug, Clone, Copy, PartialEq, Eq, Hash, Structural)]
pub enum ViolationKind {
    /// Two shapes on the same layer overlap when they should not.
    Overlap,
    /// Distance between two shapes is less than the required spacing.
    Spacing,
    /// A shape's width (or height) is below the layer's minimum width.
    Width,
    /// An enclosing shape does not extend far enough beyond the enclosed shape.
    Enclosure,
    /// A shape's area is below the layer's minimum area.
    Area,
    /// End-of-line spacing rule violated.
    EOL,
    /// Parallel run length (PRL) dependent spacing rule violated.
    PRL,
    /// Spacing between via cuts is below the minimum.
    CutSpacing,
    /// Same-net notch: a narrow channel between shapes on the same net.
    SameNetNotch,
    /// Shape edge does not land on the manufacturing grid.
    GridSnap,
    /// Shape extends beyond the outline / boundary of the cell.
    OutlineExceed,
    /// Well-to-well spacing violation.
    WellSpacing,
    /// Well enclosure of diffusion or implant is insufficient.
    WellEnclosure,
    /// Implant-to-implant spacing violation.
    ImplantSpacing,
}

/// Opaque reference to a shape in the caller's geometry store.
#[derive(Debug, Clone, Copy, PartialEq, Eq, Hash, Structural)]
pub struct ShapeRef(pub u64);

/// Opaque rule identifier from the tech model (e.g. "M1.S.1").
#[derive(Debug, Clone, PartialEq, Eq, Hash)]
pub struct RuleId(pub String);

/// Opaque layer identifier.
#[derive(Debug, Clone, Copy, PartialEq, Eq, Hash, Structural)]
pub struct LayerId(pub u32);

/// A single DRC violation with full metadata for diagnosis and repair.
#[derive(Debug, PartialEq)]
pub struct DrcViolation {
    /// Which rule predicate was violated.
    pub kind: ViolationKind,
    /// The rule identifier from the tech model.
    pub rule: RuleId,
    /// Layer on which the violation occurs.
    pub layer: LayerId,
    /// The two shapes (or shape alone) involved. The second is `None` for
    /// single-shape violations (Width, Area, GridSnap, OutlineExceed).
    pub shapes: (ShapeRef, Option<ShapeRef>),
    /// Bounding box of the violation region.
    pub region: Rect,
    /// The rule's required value (e.g. minimum spacing in nm).
    pub required: i64,
    /// The actual measured value.
    pub actual: i64,
    /// Whether the two shapes belong to the same net.
    pub same_net: bool,
}

impl Clone for DrcViolation {
    fn clone(&self) -> (c: DrcViolation)
        ensures
            c.kind == self.kind,
            c.layer == self.layer,
            c.shapes == self.shapes,
            c.region == self.region,
            c.required == self.required,
            c.actual == self.actual,
            c.same_net == self.same_net,
    {
        DrcViolation {
            kind: self.kind,
            rule: self.rule.clone(),
            layer: self.layer,
            shapes: (self.shapes.0, self.shapes.1),
            region: self.region,
            required: self.required,
            actual: self.actual,
            same_net: self.same_net,
        }
    }
}

/// A dilated check region: the bounding box of a modified shape expanded by
/// `r_max`. Any shape whose bounding box intersects this region is a candidate
/// for narrow-phase DRC checking against the modified shape.
#[derive(Debug, Clone)]
pub struct DrcRegion {
    /// The original shape's bounding box before dilation.
    pub origin: Rect,
    /// The dilated bounding box (origin expanded by `r_max` on all sides).
    pub dilated: Rect,
    /// The influence radius used for dilation.
    pub r_max: i64,
}

/// Dilating `origin` by `r` stays in range and yields a valid rectangle.
pub open spec fn dilation_ok(origin: Rect, r: int) -> bool {
    &&& fits_i64(origin.x_lo - r)
    &&& fits_i64(origin.y_lo - r)
    &&& fits_i64(origin.x_hi + r)
    &&& fits_i64(origin.y_hi + r)
    &&& spec_rect_new(origin.x_lo - r, origin.y_lo - r, origin.x_hi + r, origin.y_hi + r) is Ok
}

impl DrcRegion {
    /// Create a new `DrcRegion` by dilating `origin` by `r_max` on all sides.
    ///
    /// The dilation must leave a valid rectangle (`r_max` is expected to be
    /// non-negative in practice).
    pub fn new(origin: Rect, r_max: i64) -> (region: DrcRegion)
        requires
            dilation_ok(origin, r_max as int),
        ensures
            region.origin == origin,
            region.r_max == r_max,
            Ok::<Rect, crate::geom::InvalidRect>(region.dilated) == spec_rect_new(
                origin.x_lo - r_max,
                origin.y_lo - r_max,
                origin.x_hi + r_max,
                origin.y_hi + r_max,
            ),
            region.dilated.wf(),
    {
        let dilated = match origin.expand(r_max) {
            Ok(r) => r,
            Err(_) => {
                proof {
                    assert(false);
                }
                origin
            },
        };
        DrcRegion { origin, dilated, r_max }
    }
}

/// Diff of DRC violations between two states, used by incremental checking.
#[derive(Debug, Clone)]
pub struct DrcDelta {
    /// Violations that appeared.
    pub added: Vec<DrcViolation>,
    /// Violations that disappeared.
    pub removed: Vec<DrcViolation>,
}

impl DrcDelta {
    /// An empty delta.
    pub fn new() -> (d: DrcDelta)
        ensures
            d.added@ == Seq::<DrcViolation>::empty(),
            d.removed@ == Seq::<DrcViolation>::empty(),
    {
        DrcDelta { added: Vec::new(), removed: Vec::new() }
    }

    /// Merge another delta into this one, appending its `added` and `removed`
    /// violations to this delta's.
    pub fn merge(&mut self, other: DrcDelta)
        ensures
            final(self).added@ == old(self).added@ + other.added@,
            final(self).removed@ == old(self).removed@ + other.removed@,
    {
        let mut other = other;
        self.added.append(&mut other.added);
        self.removed.append(&mut other.removed);
    }

    /// Net change in violation count: `added.len() - removed.len()`.
    pub fn net_change(&self) -> (c: i64)
        requires
            self.added@.len() <= i64::MAX,
            self.removed@.len() <= i64::MAX,
        ensures
            c == self.added@.len() - self.removed@.len(),
    {
        self.added.len() as i64 - self.removed.len() as i64
    }

    /// True if this delta introduces no new violations.
    pub fn is_clean(&self) -> (b: bool)
        ensures
            b == (self.added@.len() == 0),
    {
        self.added.len() == 0
    }
}

impl Default for DrcDelta {
    fn default() -> (d: DrcDelta)
        ensures
            d.added@ == Seq::<DrcViolation>::empty(),
            d.removed@ == Seq::<DrcViolation>::empty(),
    {
        DrcDelta::new()
    }
}

/// Merging is associative: merging `b` then `c` into `a` gives the same delta
/// as merging the merge of `b` and `c` into `a`.
pub proof fn lemma_merge_associative(
    a: Seq<DrcViolation>,
    b: Seq<DrcViolation>,
    c: Seq<DrcViolation>,
)
    ensures
        (a + b) + c == a + (b + c),
{
    assert((a + b) + c =~= a + (b + c));
}

} // verus!
