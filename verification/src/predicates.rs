//! Pure DRC rule predicates.
//!
//! Each predicate is a stateless function over geometry and rule parameters.
//! Callers own broad-phase candidate generation; these predicates only decide
//! whether a given candidate pair (or single shape) violates a rule.
use vstd::prelude::*;

use crate::drc::{DrcViolation, LayerId, RuleId, ShapeRef, ViolationKind};
use crate::geom::{fits_i64, max_i64, max_int, min_i64, min_int, Rect};

verus! {

/// The bounding box of `a` and `b` together.
pub open spec fn spec_bbox(a: Rect, b: Rect) -> Rect {
    Rect {
        x_lo: min_int(a.x_lo as int, b.x_lo as int) as i64,
        y_lo: min_int(a.y_lo as int, b.y_lo as int) as i64,
        x_hi: max_int(a.x_hi as int, b.x_hi as int) as i64,
        y_hi: max_int(a.y_hi as int, b.y_hi as int) as i64,
    }
}

/// The bounding box of `a` and `b` together, used as a violation's `region`.
fn bbox(a: &Rect, b: &Rect) -> (r: Rect)
    requires
        a.wf(),
        b.wf(),
    ensures
        r == spec_bbox(*a, *b),
        r.wf(),
{
    Rect {
        x_lo: min_i64(a.x_lo, b.x_lo),
        y_lo: min_i64(a.y_lo, b.y_lo),
        x_hi: max_i64(a.x_hi, b.x_hi),
        y_hi: max_i64(a.y_hi, b.y_hi),
    }
}

/// The overlap of the projections of `a` and `b` on the x axis (zero if none).
pub open spec fn x_overlap(a: Rect, b: Rect) -> int {
    max_int(min_int(a.x_hi as int, b.x_hi as int) - max_int(a.x_lo as int, b.x_lo as int), 0)
}

/// The overlap of the projections of `a` and `b` on the y axis (zero if none).
pub open spec fn y_overlap(a: Rect, b: Rect) -> int {
    max_int(min_int(a.y_hi as int, b.y_hi as int) - max_int(a.y_lo as int, b.y_lo as int), 0)
}

/// When `a` and `b` face each other along exactly one axis (a gap on that axis,
/// overlapping projections on the other), the gap and the parallel run length.
pub open spec fn spec_facing(a: Rect, b: Rect) -> Option<(int, int)> {
    let xg = a.spec_x_gap(b);
    let yg = a.spec_y_gap(b);
    if xg > 0 && !(yg > 0) && y_overlap(a, b) > 0 {
        Some((xg, y_overlap(a, b)))
    } else if !(xg > 0) && yg > 0 && x_overlap(a, b) > 0 {
        Some((yg, x_overlap(a, b)))
    } else {
        None
    }
}

/// The arithmetic of [`spec_facing`] stays within `i64`.
pub open spec fn facing_fits(a: Rect, b: Rect) -> bool {
    &&& fits_i64(a.spec_manhattan(b))
    &&& fits_i64(min_int(a.spec_width(), b.spec_width()))
    &&& fits_i64(min_int(a.spec_height(), b.spec_height()))
}

fn facing_overlap(a: &Rect, b: &Rect) -> (res: Option<(i64, i64)>)
    requires
        a.wf(),
        b.wf(),
        facing_fits(*a, *b),
    ensures
        match spec_facing(*a, *b) {
            Some((g, l)) => res == Some((g as i64, l as i64)) && g == res->Some_0.0 && l
                == res->Some_0.1,
            None => res is None,
        },
{
    let x_gap = if a.x_hi <= b.x_lo {
        b.x_lo - a.x_hi
    } else if b.x_hi <= a.x_lo {
        a.x_lo - b.x_hi
    } else {
        0
    };
    let y_gap = if a.y_hi <= b.y_lo {
        b.y_lo - a.y_hi
    } else if b.y_hi <= a.y_lo {
        a.y_lo - b.y_hi
    } else {
        0
    };
    let x_overlap = max_i64(min_i64(a.x_hi, b.x_hi) - max_i64(a.x_lo, b.x_lo), 0);
    let y_overlap = max_i64(min_i64(a.y_hi, b.y_hi) - max_i64(a.y_lo, b.y_lo), 0);
    if x_gap > 0 && !(y_gap > 0) && y_overlap > 0 {
        Some((x_gap, y_overlap))
    } else if !(x_gap > 0) && y_gap > 0 && x_overlap > 0 {
        Some((y_gap, x_overlap))
    } else {
        None
    }
}

/// The shared spacing-style rule: fires when `a` and `b` do not overlap and
/// their Manhattan gap is below `min_spacing`.
pub open spec fn spec_spacing_like(
    a: Rect,
    b: Rect,
    a_ref: ShapeRef,
    b_ref: ShapeRef,
    layer: LayerId,
    rule: RuleId,
    min_spacing: i64,
    same_net: bool,
    kind: ViolationKind,
) -> Option<DrcViolation> {
    if a.spec_overlaps(b) {
        None
    } else if a.spec_manhattan(b) < min_spacing {
        Some(
            DrcViolation {
                kind,
                rule,
                layer,
                shapes: (a_ref, Some(b_ref)),
                region: spec_bbox(a, b),
                required: min_spacing,
                actual: a.spec_manhattan(b) as i64,
                same_net,
            },
        )
    } else {
        None
    }
}

/// The inputs of a spacing-style rule are in range.
pub open spec fn spacing_inputs_ok(a: Rect, b: Rect) -> bool {
    &&& a.wf()
    &&& b.wf()
    &&& !a.spec_overlaps(b) ==> fits_i64(a.spec_manhattan(b))
}

fn check_spacing_like(
    a: &Rect,
    b: &Rect,
    a_ref: ShapeRef,
    b_ref: ShapeRef,
    layer: LayerId,
    rule: RuleId,
    min_spacing: i64,
    same_net: bool,
    kind: ViolationKind,
) -> (res: Option<DrcViolation>)
    requires
        spacing_inputs_ok(*a, *b),
    ensures
        res == spec_spacing_like(*a, *b, a_ref, b_ref, layer, rule, min_spacing, same_net, kind),
{
    if a.overlaps(b) {
        return None;
    }
    let actual = a.manhattan_distance(b);
    if actual < min_spacing {
        Some(
            DrcViolation {
                kind,
                rule,
                layer,
                shapes: (a_ref, Some(b_ref)),
                region: bbox(a, b),
                required: min_spacing,
                actual,
                same_net,
            },
        )
    } else {
        None
    }
}

/// Basic spacing check between two rectangles on the same layer.
///
/// Fires if the edge-to-edge (Manhattan) distance between `a` and `b` is less
/// than `min_spacing` and they do not overlap. Symmetric in `a`, `b`.
pub fn check_spacing(
    a: &Rect,
    b: &Rect,
    a_ref: ShapeRef,
    b_ref: ShapeRef,
    layer: LayerId,
    rule: RuleId,
    min_spacing: i64,
    same_net: bool,
) -> (res: Option<DrcViolation>)
    requires
        spacing_inputs_ok(*a, *b),
    ensures
        res == spec_spacing_like(
            *a,
            *b,
            a_ref,
            b_ref,
            layer,
            rule,
            min_spacing,
            same_net,
            ViolationKind::Spacing,
        ),
{
    check_spacing_like(a, b, a_ref, b_ref, layer, rule, min_spacing, same_net, ViolationKind::Spacing)
}

/// Minimum-width rule for one shape: its narrower side is below `min_width`.
pub open spec fn spec_check_width(
    shape: Rect,
    shape_ref: ShapeRef,
    layer: LayerId,
    rule: RuleId,
    min_width: i64,
) -> Option<DrcViolation> {
    let actual = min_int(shape.spec_width(), shape.spec_height());
    if actual < min_width {
        Some(
            DrcViolation {
                kind: ViolationKind::Width,
                rule,
                layer,
                shapes: (shape_ref, None),
                region: shape,
                required: min_width,
                actual: actual as i64,
                same_net: false,
            },
        )
    } else {
        None
    }
}

/// Minimum width check for a single rectangle.
///
/// Fires if `min(width, height) < min_width`; width is the smaller dimension,
/// so a square with side `== min_width` passes.
pub fn check_width(
    shape: &Rect,
    shape_ref: ShapeRef,
    layer: LayerId,
    rule: RuleId,
    min_width: i64,
) -> (res: Option<DrcViolation>)
    requires
        fits_i64(shape.spec_width()),
        fits_i64(shape.spec_height()),
    ensures
        res == spec_check_width(*shape, shape_ref, layer, rule, min_width),
{
    let actual = min_i64(shape.width(), shape.height());
    if actual < min_width {
        Some(
            DrcViolation {
                kind: ViolationKind::Width,
                rule,
                layer,
                shapes: (shape_ref, None),
                region: *shape,
                required: min_width,
                actual,
                same_net: false,
            },
        )
    } else {
        None
    }
}

/// Minimum-area rule for one shape.
pub open spec fn spec_check_area(
    shape: Rect,
    shape_ref: ShapeRef,
    layer: LayerId,
    rule: RuleId,
    min_area: i64,
) -> Option<DrcViolation> {
    if shape.spec_area() < min_area {
        Some(
            DrcViolation {
                kind: ViolationKind::Area,
                rule,
                layer,
                shapes: (shape_ref, None),
                region: shape,
                required: min_area,
                actual: shape.spec_area() as i64,
                same_net: false,
            },
        )
    } else {
        None
    }
}

/// Minimum area check for a single rectangle. A shape with
/// `area == min_area` passes.
pub fn check_area(
    shape: &Rect,
    shape_ref: ShapeRef,
    layer: LayerId,
    rule: RuleId,
    min_area: i64,
) -> (res: Option<DrcViolation>)
    requires
        fits_i64(shape.spec_width()),
        fits_i64(shape.spec_height()),
        fits_i64(shape.spec_area()),
    ensures
        res == spec_check_area(*shape, shape_ref, layer, rule, min_area),
{
    let actual = shape.area();
    if actual < min_area {
        Some(
            DrcViolation {
                kind: ViolationKind::Area,
                rule,
                layer,
                shapes: (shape_ref, None),
                region: *shape,
                required: min_area,
                actual,
                same_net: false,
            },
        )
    } else {
        None
    }
}

/// Overlap rule: shapes of different nets must not overlap with positive area.
pub open spec fn spec_check_overlap(
    a: Rect,
    b: Rect,
    a_ref: ShapeRef,
    b_ref: ShapeRef,
    layer: LayerId,
    rule: RuleId,
    same_net: bool,
) -> Option<DrcViolation> {
    if same_net {
        None
    } else {
        match a.spec_intersection(b) {
            None => None,
            Some(ov) => Some(
                DrcViolation {
                    kind: ViolationKind::Overlap,
                    rule,
                    layer,
                    shapes: (a_ref, Some(b_ref)),
                    region: ov,
                    required: 0,
                    actual: min_int(ov.spec_width(), ov.spec_height()) as i64,
                    same_net,
                },
            ),
        }
    }
}

/// Overlap check: two shapes on the same layer must not overlap unless they
/// belong to the same net. `actual` is the smaller extent of the overlap.
pub fn check_overlap(
    a: &Rect,
    b: &Rect,
    a_ref: ShapeRef,
    b_ref: ShapeRef,
    layer: LayerId,
    rule: RuleId,
    same_net: bool,
) -> (res: Option<DrcViolation>)
    requires
        a.spec_intersection(*b) is Some ==> fits_i64(a.spec_intersection(*b)->Some_0.spec_width())
            && fits_i64(a.spec_intersection(*b)->Some_0.spec_height()),
    ensures
        res == spec_check_overlap(*a, *b, a_ref, b_ref, layer, rule, same_net),
{
    if same_net {
        return None;
    }
    match a.intersection(b) {
        None => None,
        Some(overlap) => Some(
            DrcViolation {
                kind: ViolationKind::Overlap,
                rule,
                layer,
                shapes: (a_ref, Some(b_ref)),
                region: overlap,
                required: 0,
                actual: min_i64(overlap.width(), overlap.height()),
                same_net,
            },
        ),
    }
}

/// The distance from `c` to the nearest multiple of `pitch`.
pub open spec fn grid_offset(c: int, pitch: int) -> int {
    min_int(c % pitch, pitch - c % pitch)
}

/// The worst grid offset over the four edges of `shape`.
pub open spec fn spec_grid_worst(shape: Rect, pitch: int) -> int {
    max_int(
        max_int(
            max_int(grid_offset(shape.x_lo as int, pitch), grid_offset(shape.y_lo as int, pitch)),
            grid_offset(shape.x_hi as int, pitch),
        ),
        grid_offset(shape.y_hi as int, pitch),
    )
}

/// Grid-snap rule: every edge lies on a multiple of `grid_pitch`.
pub open spec fn spec_check_grid_snap(
    shape: Rect,
    shape_ref: ShapeRef,
    layer: LayerId,
    rule: RuleId,
    grid_pitch: i64,
) -> Option<DrcViolation> {
    let actual = spec_grid_worst(shape, grid_pitch as int);
    if actual != 0 {
        Some(
            DrcViolation {
                kind: ViolationKind::GridSnap,
                rule,
                layer,
                shapes: (shape_ref, None),
                region: shape,
                required: 0,
                actual: actual as i64,
                same_net: false,
            },
        )
    } else {
        None
    }
}

fn grid_offset_exec(coord: i64, pitch: i64) -> (r: i64)
    requires
        pitch > 0,
    ensures
        r == grid_offset(coord as int, pitch as int),
        0 <= r < pitch,
{
    let rem: i64 = match coord.checked_rem_euclid(pitch) {
        Some(r) => r,
        None => 0,
    };
    assert(rem as int == (coord as int) % (pitch as int));
    min_i64(rem, pitch - rem)
}

/// Grid snap check: all shape edges must land on the manufacturing grid.
/// `actual` is the worst-case offset from the nearest grid line.
pub fn check_grid_snap(
    shape: &Rect,
    shape_ref: ShapeRef,
    layer: LayerId,
    rule: RuleId,
    grid_pitch: i64,
) -> (res: Option<DrcViolation>)
    requires
        grid_pitch > 0,
    ensures
        res == spec_check_grid_snap(*shape, shape_ref, layer, rule, grid_pitch),
{
    let actual = max_i64(
        max_i64(
            max_i64(grid_offset_exec(shape.x_lo, grid_pitch), grid_offset_exec(shape.y_lo, grid_pitch)),
            grid_offset_exec(shape.x_hi, grid_pitch),
        ),
        grid_offset_exec(shape.y_hi, grid_pitch),
    );
    if actual != 0 {
        Some(
            DrcViolation {
                kind: ViolationKind::GridSnap,
                rule,
                layer,
                shapes: (shape_ref, None),
                region: *shape,
                required: 0,
                actual,
                same_net: false,
            },
        )
    } else {
        None
    }
}

/// The largest distance by which `shape` exceeds `boundary` on any side (zero if inside).
pub open spec fn spec_exceedance(shape: Rect, boundary: Rect) -> int {
    max_int(
        max_int(
            max_int(
                max_int(boundary.x_lo - shape.x_lo, shape.x_hi - boundary.x_hi),
                boundary.y_lo - shape.y_lo,
            ),
            shape.y_hi - boundary.y_hi,
        ),
        0,
    )
}

/// The side differences compared by the outline rule are in range.
pub open spec fn outline_fits(shape: Rect, boundary: Rect) -> bool {
    &&& fits_i64(boundary.x_lo - shape.x_lo)
    &&& fits_i64(shape.x_hi - boundary.x_hi)
    &&& fits_i64(boundary.y_lo - shape.y_lo)
    &&& fits_i64(shape.y_hi - boundary.y_hi)
}

/// Outline rule: a shape must lie within the cell boundary.
pub open spec fn spec_check_outline_exceed(
    shape: Rect,
    shape_ref: ShapeRef,
    boundary: Rect,
    layer: LayerId,
    rule: RuleId,
) -> Option<DrcViolation> {
    let actual = spec_exceedance(shape, boundary);
    if actual > 0 {
        Some(
            DrcViolation {
                kind: ViolationKind::OutlineExceed,
                rule,
                layer,
                shapes: (shape_ref, None),
                region: spec_bbox(shape, boundary),
                required: 0,
                actual: actual as i64,
                same_net: false,
            },
        )
    } else {
        None
    }
}

/// Outline exceedance check. `actual` is the maximum exceedance distance on
/// any side; a shape touching the boundary edge passes.
pub fn check_outline_exceed(
    shape: &Rect,
    shape_ref: ShapeRef,
    boundary: &Rect,
    layer: LayerId,
    rule: RuleId,
) -> (res: Option<DrcViolation>)
    requires
        shape.wf(),
        boundary.wf(),
        outline_fits(*shape, *boundary),
    ensures
        res == spec_check_outline_exceed(*shape, shape_ref, *boundary, layer, rule),
{
    let actual = max_i64(
        max_i64(
            max_i64(
                max_i64(boundary.x_lo - shape.x_lo, shape.x_hi - boundary.x_hi),
                boundary.y_lo - shape.y_lo,
            ),
            shape.y_hi - boundary.y_hi,
        ),
        0,
    );
    if actual > 0 {
        Some(
            DrcViolation {
                kind: ViolationKind::OutlineExceed,
                rule,
                layer,
                shapes: (shape_ref, None),
                region: bbox(shape, boundary),
                required: 0,
                actual,
                same_net: false,
            },
        )
    } else {
        None
    }
}

/// The smallest of the four per-side enclosures of `inner` within `outer`.
pub open spec fn spec_min_enclosure(outer: Rect, inner: Rect) -> int {
    min_int(
        min_int(
            min_int(inner.x_lo - outer.x_lo, outer.x_hi - inner.x_hi),
            inner.y_lo - outer.y_lo,
        ),
        outer.y_hi - inner.y_hi,
    )
}

/// The per-side enclosure differences are in range.
pub open spec fn enclosure_fits(outer: Rect, inner: Rect) -> bool {
    &&& fits_i64(inner.x_lo - outer.x_lo)
    &&& fits_i64(outer.x_hi - inner.x_hi)
    &&& fits_i64(inner.y_lo - outer.y_lo)
    &&& fits_i64(outer.y_hi - inner.y_hi)
}

/// Enclosure rule reported with the given kind.
pub open spec fn spec_enclosure_as(
    outer: Rect,
    inner: Rect,
    outer_ref: ShapeRef,
    inner_ref: ShapeRef,
    layer: LayerId,
    rule: RuleId,
    min_enclosure: i64,
    kind: ViolationKind,
) -> Option<DrcViolation> {
    let actual = spec_min_enclosure(outer, inner);
    if actual < min_enclosure {
        Some(
            DrcViolation {
                kind,
                rule,
                layer,
                shapes: (outer_ref, Some(inner_ref)),
                region: spec_bbox(outer, inner),
                required: min_enclosure,
                actual: actual as i64,
                same_net: false,
            },
        )
    } else {
        None
    }
}

/// The per-side enclosure of `inner` within `outer`: (left, right, bottom, top).
fn enclosure_sides(outer: &Rect, inner: &Rect) -> (res: (i64, i64, i64, i64))
    requires
        enclosure_fits(*outer, *inner),
    ensures
        res.0 == inner.x_lo - outer.x_lo,
        res.1 == outer.x_hi - inner.x_hi,
        res.2 == inner.y_lo - outer.y_lo,
        res.3 == outer.y_hi - inner.y_hi,
{
    let left = inner.x_lo - outer.x_lo;
    let right = outer.x_hi - inner.x_hi;
    let bottom = inner.y_lo - outer.y_lo;
    let top = outer.y_hi - inner.y_hi;
    (left, right, bottom, top)
}

/// Enclosure check: `outer` must enclose `inner` by at least `min_enclosure`
/// on all four sides. Fires (with a negative `actual`) also when `inner`
/// sticks out of `outer`.
pub fn check_enclosure(
    outer: &Rect,
    inner: &Rect,
    outer_ref: ShapeRef,
    inner_ref: ShapeRef,
    layer: LayerId,
    rule: RuleId,
    min_enclosure: i64,
) -> (res: Option<DrcViolation>)
    requires
        outer.wf(),
        inner.wf(),
        enclosure_fits(*outer, *inner),
    ensures
        res == spec_enclosure_as(
            *outer,
            *inner,
            outer_ref,
            inner_ref,
            layer,
            rule,
            min_enclosure,
            ViolationKind::Enclosure,
        ),
{
    let (left, right, bottom, top) = enclosure_sides(outer, inner);
    let actual = min_i64(min_i64(min_i64(left, right), bottom), top);
    if actual < min_enclosure {
        Some(
            DrcViolation {
                kind: ViolationKind::Enclosure,
                rule,
                layer,
                shapes: (outer_ref, Some(inner_ref)),
                region: bbox(outer, inner),
                required: min_enclosure,
                actual,
                same_net: false,
            },
        )
    } else {
        None
    }
}

/// A shape has an end-of-line edge when its narrower side is at most `eol_width`.
pub open spec fn has_eol(s: Rect, eol_width: i64) -> bool {
    min_int(s.spec_width(), s.spec_height()) <= eol_width
}

/// End-of-line spacing rule.
pub open spec fn spec_check_eol_spacing(
    a: Rect,
    b: Rect,
    a_ref: ShapeRef,
    b_ref: ShapeRef,
    layer: LayerId,
    rule: RuleId,
    eol_width: i64,
    eol_space: i64,
    eol_within: i64,
    same_net: bool,
) -> Option<DrcViolation> {
    if !has_eol(a, eol_width) && !has_eol(b, eol_width) {
        None
    } else {
        match spec_facing(a, b) {
            None => None,
            Some((gap, _run)) => if gap <= eol_within && gap < eol_space {
                Some(
                    DrcViolation {
                        kind: ViolationKind::EOL,
                        rule,
                        layer,
                        shapes: (a_ref, Some(b_ref)),
                        region: spec_bbox(a, b),
                        required: eol_space,
                        actual: gap as i64,
                        same_net,
                    },
                )
            } else {
                None
            },
        }
    }
}

/// The end-of-line rule applies when either shape has a narrow side: for two
/// shapes that face each other across a gap `g` (side by side with
/// overlapping spans, or one above the other), when one of them is at most
/// `eol_width` wide or high, the rule fires exactly when `g <= eol_within`
/// and `g < eol_space`, reporting `g` against `eol_space`; when neither shape
/// has such a side, the rule never fires.
pub proof fn lemma_eol_either_edge(
    a: Rect,
    b: Rect,
    a_ref: ShapeRef,
    b_ref: ShapeRef,
    layer: LayerId,
    rule: RuleId,
    eol_width: i64,
    eol_space: i64,
    eol_within: i64,
    same_net: bool,
)
    requires
        a.wf(),
        b.wf(),
    ensures
        ({
            let narrow = a.x_hi - a.x_lo <= eol_width || a.y_hi - a.y_lo <= eol_width || b.x_hi
                - b.x_lo <= eol_width || b.y_hi - b.y_lo <= eol_width;
            let res = spec_check_eol_spacing(
                a,
                b,
                a_ref,
                b_ref,
                layer,
                rule,
                eol_width,
                eol_space,
                eol_within,
                same_net,
            );
            let y_run = a.y_lo < b.y_hi && b.y_lo < a.y_hi;
            let x_run = a.x_lo < b.x_hi && b.x_lo < a.x_hi;
            &&& !narrow ==> res is None
            &&& narrow && a.x_hi < b.x_lo && y_run ==> (res is Some <==> (b.x_lo - a.x_hi <= eol_within
                && b.x_lo - a.x_hi < eol_space))
            &&& narrow && a.x_hi < b.x_lo && y_run && res is Some ==> res->Some_0.kind == ViolationKind::EOL
                && res->Some_0.actual == b.x_lo - a.x_hi && res->Some_0.required == eol_space
            &&& narrow && b.x_hi < a.x_lo && y_run ==> (res is Some <==> (a.x_lo - b.x_hi <= eol_within
                && a.x_lo - b.x_hi < eol_space))
            &&& narrow && b.x_hi < a.x_lo && y_run && res is Some ==> res->Some_0.kind == ViolationKind::EOL
                && res->Some_0.actual == a.x_lo - b.x_hi && res->Some_0.required == eol_space
            &&& narrow && a.y_hi < b.y_lo && x_run ==> (res is Some <==> (b.y_lo - a.y_hi <= eol_within
                && b.y_lo - a.y_hi < eol_space))
            &&& narrow && a.y_hi < b.y_lo && x_run && res is Some ==> res->Some_0.kind == ViolationKind::EOL
                && res->Some_0.actual == b.y_lo - a.y_hi && res->Some_0.required == eol_space
            &&& narrow && b.y_hi < a.y_lo && x_run ==> (res is Some <==> (a.y_lo - b.y_hi <= eol_within
                && a.y_lo - b.y_hi < eol_space))
            &&& narrow && b.y_hi < a.y_lo && x_run && res is Some ==> res->Some_0.kind == ViolationKind::EOL
                && res->Some_0.actual == a.y_lo - b.y_hi && res->Some_0.required == eol_space
        }),
{
}

/// The inputs of the end-of-line rule are in range.
pub open spec fn eol_inputs_ok(a: Rect, b: Rect, eol_width: i64) -> bool {
    &&& a.wf()
    &&& b.wf()
    &&& fits_i64(a.spec_width())
    &&& fits_i64(a.spec_height())
    &&& !has_eol(a, eol_width) ==> fits_i64(b.spec_width()) && fits_i64(b.spec_height())
    &&& has_eol(a, eol_width) || has_eol(b, eol_width) ==> facing_fits(a, b)
}

fn has_eol_exec(s: &Rect, eol_width: i64) -> (b: bool)
    requires
        fits_i64(s.spec_width()),
        fits_i64(s.spec_height()),
    ensures
        b == has_eol(*s, eol_width),
{
    min_i64(s.width(), s.height()) <= eol_width
}

/// End-of-line (EOL) spacing check. If neither shape has an EOL edge, the
/// rule does not apply. Otherwise, if `a` and `b` face each other with a gap
/// `<= eol_within`, fires if that gap is less than `eol_space`.
pub fn check_eol_spacing(
    a: &Rect,
    b: &Rect,
    a_ref: ShapeRef,
    b_ref: ShapeRef,
    layer: LayerId,
    rule: RuleId,
    eol_width: i64,
    eol_space: i64,
    eol_within: i64,
    same_net: bool,
) -> (res: Option<DrcViolation>)
    requires
        eol_inputs_ok(*a, *b, eol_width),
    ensures
        res == spec_check_eol_spacing(
            *a,
            *b,
            a_ref,
            b_ref,
            layer,
            rule,
            eol_width,
            eol_space,
            eol_within,
            same_net,
        ),
{
    if !has_eol_exec(a, eol_width) && !has_eol_exec(b, eol_width) {
        return None;
    }
    match facing_overlap(a, b) {
        None => None,
        Some((gap, _run_length)) => {
            if gap <= eol_within && gap < eol_space {
                Some(
                    DrcViolation {
                        kind: ViolationKind::EOL,
                        rule,
                        layer,
                        shapes: (a_ref, Some(b_ref)),
                        region: bbox(a, b),
                        required: eol_space,
                        actual: gap,
                        same_net,
                    },
                )
            } else {
                None
            }
        },
    }
}

/// Parallel-run-length dependent spacing rule.
pub open spec fn spec_check_prl_spacing(
    a: Rect,
    b: Rect,
    a_ref: ShapeRef,
    b_ref: ShapeRef,
    layer: LayerId,
    rule: RuleId,
    prl_threshold: i64,
    prl_spacing: i64,
    same_net: bool,
) -> Option<DrcViolation> {
    match spec_facing(a, b) {
        None => None,
        Some((gap, run)) => if run < prl_threshold {
            None
        } else if gap < prl_spacing {
            Some(
                DrcViolation {
                    kind: ViolationKind::PRL,
                    rule,
                    layer,
                    shapes: (a_ref, Some(b_ref)),
                    region: spec_bbox(a, b),
                    required: prl_spacing,
                    actual: gap as i64,
                    same_net,
                },
            )
        } else {
            None
        },
    }
}

/// Parallel run length (PRL) dependent spacing check. `a` and `b` must face
/// each other along exactly one axis; if the run length reaches
/// `prl_threshold`, fires when the gap is less than `prl_spacing`.
pub fn check_prl_spacing(
    a: &Rect,
    b: &Rect,
    a_ref: ShapeRef,
    b_ref: ShapeRef,
    layer: LayerId,
    rule: RuleId,
    prl_threshold: i64,
    prl_spacing: i64,
    same_net: bool,
) -> (res: Option<DrcViolation>)
    requires
        a.wf(),
        b.wf(),
        facing_fits(*a, *b),
    ensures
        res == spec_check_prl_spacing(
            *a,
            *b,
            a_ref,
            b_ref,
            layer,
            rule,
            prl_threshold,
            prl_spacing,
            same_net,
        ),
{
    match facing_overlap(a, b) {
        None => None,
        Some((gap, run_length)) => {
            if run_length < prl_threshold {
                return None;
            }
            if gap < prl_spacing {
                Some(
                    DrcViolation {
                        kind: ViolationKind::PRL,
                        rule,
                        layer,
                        shapes: (a_ref, Some(b_ref)),
                        region: bbox(a, b),
                        required: prl_spacing,
                        actual: gap,
                        same_net,
                    },
                )
            } else {
                None
            }
        },
    }
}

/// Via cut spacing check: the spacing rule reported as `CutSpacing`.
pub fn check_cut_spacing(
    a: &Rect,
    b: &Rect,
    a_ref: ShapeRef,
    b_ref: ShapeRef,
    layer: LayerId,
    rule: RuleId,
    min_cut_spacing: i64,
    same_net: bool,
) -> (res: Option<DrcViolation>)
    requires
        spacing_inputs_ok(*a, *b),
    ensures
        res == spec_spacing_like(
            *a,
            *b,
            a_ref,
            b_ref,
            layer,
            rule,
            min_cut_spacing,
            same_net,
            ViolationKind::CutSpacing,
        ),
{
    check_spacing_like(
        a,
        b,
        a_ref,
        b_ref,
        layer,
        rule,
        min_cut_spacing,
        same_net,
        ViolationKind::CutSpacing,
    )
}

/// Same-net notch rule.
pub open spec fn spec_check_same_net_notch(
    a: Rect,
    b: Rect,
    a_ref: ShapeRef,
    b_ref: ShapeRef,
    layer: LayerId,
    rule: RuleId,
    min_notch_width: i64,
    max_notch_length: i64,
) -> Option<DrcViolation> {
    match spec_facing(a, b) {
        None => None,
        Some((gap, run)) => if gap < min_notch_width && run < max_notch_length {
            Some(
                DrcViolation {
                    kind: ViolationKind::SameNetNotch,
                    rule,
                    layer,
                    shapes: (a_ref, Some(b_ref)),
                    region: spec_bbox(a, b),
                    required: min_notch_width,
                    actual: gap as i64,
                    same_net: true,
                },
            )
        } else {
            None
        },
    }
}

/// Same-net notch check. `a` and `b` must face each other along exactly one
/// axis; fires if the notch width (gap) is less than `min_notch_width` and its
/// length (parallel run) is less than `max_notch_length`. The violation's
/// `same_net` is always `true`.
pub fn check_same_net_notch(
    a: &Rect,
    b: &Rect,
    a_ref: ShapeRef,
    b_ref: ShapeRef,
    layer: LayerId,
    rule: RuleId,
    min_notch_width: i64,
    max_notch_length: i64,
) -> (res: Option<DrcViolation>)
    requires
        a.wf(),
        b.wf(),
        facing_fits(*a, *b),
    ensures
        res == spec_check_same_net_notch(
            *a,
            *b,
            a_ref,
            b_ref,
            layer,
            rule,
            min_notch_width,
            max_notch_length,
        ),
{
    match facing_overlap(a, b) {
        None => None,
        Some((gap, run_length)) => {
            if gap < min_notch_width && run_length < max_notch_length {
                Some(
                    DrcViolation {
                        kind: ViolationKind::SameNetNotch,
                        rule,
                        layer,
                        shapes: (a_ref, Some(b_ref)),
                        region: bbox(a, b),
                        required: min_notch_width,
                        actual: gap,
                        same_net: true,
                    },
                )
            } else {
                None
            }
        },
    }
}

/// Well-to-well spacing check: the spacing rule reported as `WellSpacing`,
/// with `same_net` always `false`.
pub fn check_well_spacing(
    a: &Rect,
    b: &Rect,
    a_ref: ShapeRef,
    b_ref: ShapeRef,
    layer: LayerId,
    rule: RuleId,
    min_well_spacing: i64,
) -> (res: Option<DrcViolation>)
    requires
        spacing_inputs_ok(*a, *b),
    ensures
        res == spec_spacing_like(
            *a,
            *b,
            a_ref,
            b_ref,
            layer,
            rule,
            min_well_spacing,
            false,
            ViolationKind::WellSpacing,
        ),
{
    check_spacing_like(
        a,
        b,
        a_ref,
        b_ref,
        layer,
        rule,
        min_well_spacing,
        false,
        ViolationKind::WellSpacing,
    )
}

/// Well enclosure of diffusion: the enclosure rule reported as `WellEnclosure`.
pub fn check_well_enclosure(
    well: &Rect,
    diffusion: &Rect,
    well_ref: ShapeRef,
    diff_ref: ShapeRef,
    layer: LayerId,
    rule: RuleId,
    min_well_enc: i64,
) -> (res: Option<DrcViolation>)
    requires
        well.wf(),
        diffusion.wf(),
        enclosure_fits(*well, *diffusion),
    ensures
        res == spec_enclosure_as(
            *well,
            *diffusion,
            well_ref,
            diff_ref,
            layer,
            rule,
            min_well_enc,
            ViolationKind::WellEnclosure,
        ),
{
    match check_enclosure(well, diffusion, well_ref, diff_ref, layer, rule, min_well_enc) {
        Some(v) => {
            let mut v = v;
            v.kind = ViolationKind::WellEnclosure;
            Some(v)
        },
        None => None,
    }
}

/// Implant-to-implant spacing check: the spacing rule reported as
/// `ImplantSpacing`, with `same_net` always `false`.
pub fn check_implant_spacing(
    a: &Rect,
    b: &Rect,
    a_ref: ShapeRef,
    b_ref: ShapeRef,
    layer: LayerId,
    rule: RuleId,
    min_implant_spacing: i64,
) -> (res: Option<DrcViolation>)
    requires
        spacing_inputs_ok(*a, *b),
    ensures
        res == spec_spacing_like(
            *a,
            *b,
            a_ref,
            b_ref,
            layer,
            rule,
            min_implant_spacing,
            false,
            ViolationKind::ImplantSpacing,
        ),
{
    check_spacing_like(
        a,
        b,
        a_ref,
        b_ref,
        layer,
        rule,
        min_implant_spacing,
        false,
        ViolationKind::ImplantSpacing,
    )
}

/// The spacing-style rules are symmetric: swapping the shapes (and their
/// references) changes only the order of the shape references, not whether
/// the rule fires or what is measured.
pub proof fn lemma_spacing_symmetric(
    a: Rect,
    b: Rect,
    a_ref: ShapeRef,
    b_ref: ShapeRef,
    layer: LayerId,
    rule: RuleId,
    min_spacing: i64,
    same_net: bool,
    kind: ViolationKind,
)
    requires
        a.wf(),
        b.wf(),
    ensures
        spec_spacing_like(a, b, a_ref, b_ref, layer, rule, min_spacing, same_net, kind) is Some
            <==> spec_spacing_like(b, a, b_ref, a_ref, layer, rule, min_spacing, same_net, kind) is Some,
        spec_spacing_like(a, b, a_ref, b_ref, layer, rule, min_spacing, same_net, kind) is Some
            ==> spec_spacing_like(a, b, a_ref, b_ref, layer, rule, min_spacing, same_net, kind)->Some_0.actual
            == spec_spacing_like(b, a, b_ref, a_ref, layer, rule, min_spacing, same_net, kind)->Some_0.actual
            && spec_spacing_like(a, b, a_ref, b_ref, layer, rule, min_spacing, same_net, kind)->Some_0.region
            == spec_spacing_like(b, a, b_ref, a_ref, layer, rule, min_spacing, same_net, kind)->Some_0.region,
{
}

/// Facing geometry is symmetric, so the PRL, EOL and notch rules are too.
pub proof fn lemma_facing_symmetric(a: Rect, b: Rect)
    requires
        a.wf(),
        b.wf(),
    ensures
        spec_facing(a, b) == spec_facing(b, a),
        spec_bbox(a, b) == spec_bbox(b, a),
{
}

/// The overlap rule is symmetric in region and depth.
pub proof fn lemma_overlap_rule_symmetric(
    a: Rect,
    b: Rect,
    a_ref: ShapeRef,
    b_ref: ShapeRef,
    layer: LayerId,
    rule: RuleId,
    same_net: bool,
)
    requires
        a.wf(),
        b.wf(),
    ensures
        spec_check_overlap(a, b, a_ref, b_ref, layer, rule, same_net) is Some <==> spec_check_overlap(
            b,
            a,
            b_ref,
            a_ref,
            layer,
            rule,
            same_net,
        ) is Some,
        spec_check_overlap(a, b, a_ref, b_ref, layer, rule, same_net) is Some ==> spec_check_overlap(
            a,
            b,
            a_ref,
            b_ref,
            layer,
            rule,
            same_net,
        )->Some_0.region == spec_check_overlap(b, a, b_ref, a_ref, layer, rule, same_net)->Some_0.region
            && spec_check_overlap(a, b, a_ref, b_ref, layer, rule, same_net)->Some_0.actual
            == spec_check_overlap(b, a, b_ref, a_ref, layer, rule, same_net)->Some_0.actual,
{
}

/// The width rule does not depend on orientation: a shape and its transpose
/// are judged alike.
pub proof fn lemma_width_orientation_independent(
    s: Rect,
    shape_ref: ShapeRef,
    layer: LayerId,
    rule: RuleId,
    min_width: i64,
)
    ensures
        ({
            let t = Rect { x_lo: s.y_lo, y_lo: s.x_lo, x_hi: s.y_hi, y_hi: s.x_hi };
            &&& spec_check_width(s, shape_ref, layer, rule, min_width) is Some <==> spec_check_width(
                t,
                shape_ref,
                layer,
                rule,
                min_width,
            ) is Some
            &&& spec_check_width(s, shape_ref, layer, rule, min_width) is Some ==> spec_check_width(
                s,
                shape_ref,
                layer,
                rule,
                min_width,
            )->Some_0.actual == spec_check_width(t, shape_ref, layer, rule, min_width)->Some_0.actual
        }),
{
}

} // verus!
