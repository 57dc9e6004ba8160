//! Integer geometry kernel: axis-aligned rectangles in integer nanometers.
//!
//! All coordinates are `i64` nanometers. A [`Rect`] is valid when
//! `x_lo < x_hi` and `y_lo < y_hi`; [`Rect::new`] enforces this.
use vstd::prelude::*;

verus! {

/// An absolute coordinate in integer nanometers.
pub type Coord = i64;

/// A relative distance in integer nanometers.
pub type Distance = i64;

/// An area in square nanometers.
pub type Area = i64;

/// True when the mathematical integer `x` is representable as an `i64`.
pub open spec fn fits_i64(x: int) -> bool {
    i64::MIN <= x <= i64::MAX
}

/// The smaller of two integers.
pub open spec fn min_int(a: int, b: int) -> int {
    if a <= b { a } else { b }
}

/// The larger of two integers.
pub open spec fn max_int(a: int, b: int) -> int {
    if a >= b { a } else { b }
}

/// The gap between the intervals `[lo1, hi1]` and `[lo2, hi2]` on one axis:
/// zero when they overlap or touch.
pub open spec fn axis_gap(lo1: int, hi1: int, lo2: int, hi2: int) -> int {
    if hi1 <= lo2 {
        lo2 - hi1
    } else if hi2 <= lo1 {
        lo1 - hi2
    } else {
        0
    }
}

/// The smaller of two `i64` values.
pub fn min_i64(a: i64, b: i64) -> (r: i64)
    ensures
        r == min_int(a as int, b as int),
{
    if a <= b {
        a
    } else {
        b
    }
}

/// The larger of two `i64` values.
pub fn max_i64(a: i64, b: i64) -> (r: i64)
    ensures
        r == max_int(a as int, b as int),
{
    if a >= b {
        a
    } else {
        b
    }
}

/// An axis-aligned rectangle in integer nanometer coordinates.
///
/// Invariant of a valid rectangle: `x_lo < x_hi` and `y_lo < y_hi`
/// (see [`Rect::wf`]). Construct via [`Rect::new`], which enforces it.
#[derive(Debug, Clone, Copy, PartialEq, Eq, Hash, Structural)]
pub struct Rect {
    pub x_lo: Coord,
    pub y_lo: Coord,
    pub x_hi: Coord,
    pub y_hi: Coord,
}

/// The coordinates given to [`Rect::new`] did not satisfy `x_lo < x_hi` and
/// `y_lo < y_hi`.
#[derive(Debug, Clone, Copy, PartialEq, Eq, Structural)]
pub struct InvalidRect {
    pub x_lo: Coord,
    pub y_lo: Coord,
    pub x_hi: Coord,
    pub y_hi: Coord,
}

/// What [`Rect::new`] returns for the given corners.
pub open spec fn spec_rect_new(x_lo: int, y_lo: int, x_hi: int, y_hi: int) -> Result<Rect, InvalidRect>
    recommends
        fits_i64(x_lo),
        fits_i64(y_lo),
        fits_i64(x_hi),
        fits_i64(y_hi),
{
    if x_lo < x_hi && y_lo < y_hi {
        Ok(Rect { x_lo: x_lo as i64, y_lo: y_lo as i64, x_hi: x_hi as i64, y_hi: y_hi as i64 })
    } else {
        Err(InvalidRect { x_lo: x_lo as i64, y_lo: y_lo as i64, x_hi: x_hi as i64, y_hi: y_hi as i64 })
    }
}

impl Rect {
    /// The rectangle is non-degenerate: `x_lo < x_hi` and `y_lo < y_hi`.
    pub open spec fn wf(self) -> bool {
        self.x_lo < self.x_hi && self.y_lo < self.y_hi
    }

    pub open spec fn spec_width(self) -> int {
        self.x_hi - self.x_lo
    }

    pub open spec fn spec_height(self) -> int {
        self.y_hi - self.y_lo
    }

    pub open spec fn spec_area(self) -> int {
        self.spec_width() * self.spec_height()
    }

    /// `self` fully contains `other` (touching edges included).
    pub open spec fn spec_contains(self, other: Rect) -> bool {
        &&& self.x_lo <= other.x_lo
        &&& self.y_lo <= other.y_lo
        &&& self.x_hi >= other.x_hi
        &&& self.y_hi >= other.y_hi
    }

    /// `self` and `other` overlap with positive area.
    pub open spec fn spec_overlaps(self, other: Rect) -> bool {
        &&& self.x_lo < other.x_hi
        &&& other.x_lo < self.x_hi
        &&& self.y_lo < other.y_hi
        &&& other.y_lo < self.y_hi
    }

    /// The intersection rectangle, or `None` when there is no positive-area overlap.
    pub open spec fn spec_intersection(self, other: Rect) -> Option<Rect> {
        let x_lo = max_int(self.x_lo as int, other.x_lo as int);
        let y_lo = max_int(self.y_lo as int, other.y_lo as int);
        let x_hi = min_int(self.x_hi as int, other.x_hi as int);
        let y_hi = min_int(self.y_hi as int, other.y_hi as int);
        match spec_rect_new(x_lo, y_lo, x_hi, y_hi) {
            Ok(r) => Some(r),
            Err(_) => None,
        }
    }

    pub open spec fn spec_x_gap(self, other: Rect) -> int {
        axis_gap(self.x_lo as int, self.x_hi as int, other.x_lo as int, other.x_hi as int)
    }

    pub open spec fn spec_y_gap(self, other: Rect) -> int {
        axis_gap(self.y_lo as int, self.y_hi as int, other.y_lo as int, other.y_hi as int)
    }

    /// The Manhattan (L1) gap: the sum of the per-axis edge-to-edge gaps.
    pub open spec fn spec_manhattan(self, other: Rect) -> int {
        self.spec_x_gap(other) + self.spec_y_gap(other)
    }

    /// Construct a rectangle, validating `x_lo < x_hi` and `y_lo < y_hi`.
    pub fn new(x_lo: Coord, y_lo: Coord, x_hi: Coord, y_hi: Coord) -> (res: Result<Rect, InvalidRect>)
        ensures
            res == spec_rect_new(x_lo as int, y_lo as int, x_hi as int, y_hi as int),
            res is Ok ==> res->Ok_0.wf(),
    {
        if x_lo < x_hi && y_lo < y_hi {
            Ok(Rect { x_lo, y_lo, x_hi, y_hi })
        } else {
            Err(InvalidRect { x_lo, y_lo, x_hi, y_hi })
        }
    }

    /// Width along the x axis.
    pub fn width(&self) -> (w: Distance)
        requires
            fits_i64(self.spec_width()),
        ensures
            w == self.spec_width(),
    {
        self.x_hi - self.x_lo
    }

    /// Height along the y axis.
    pub fn height(&self) -> (h: Distance)
        requires
            fits_i64(self.spec_height()),
        ensures
            h == self.spec_height(),
    {
        self.y_hi - self.y_lo
    }

    /// Area of the rectangle.
    pub fn area(&self) -> (a: Area)
        requires
            fits_i64(self.spec_width()),
            fits_i64(self.spec_height()),
            fits_i64(self.spec_area()),
        ensures
            a == self.spec_area(),
    {
        self.width() * self.height()
    }

    /// True if `self` fully contains `other` (inclusive of touching edges).
    pub fn contains(&self, other: &Rect) -> (b: bool)
        ensures
            b == self.spec_contains(*other),
    {
        self.x_lo <= other.x_lo && self.y_lo <= other.y_lo && self.x_hi >= other.x_hi && self.y_hi
            >= other.y_hi
    }

    /// True if `self` and `other` overlap with positive area.
    ///
    /// Rectangles that only touch along an edge or at a corner do not overlap.
    pub fn overlaps(&self, other: &Rect) -> (b: bool)
        ensures
            b == self.spec_overlaps(*other),
    {
        self.x_lo < other.x_hi && other.x_lo < self.x_hi && self.y_lo < other.y_hi && other.y_lo
            < self.y_hi
    }

    /// The intersection of `self` and `other`, or `None` if they do not
    /// overlap with positive area.
    pub fn intersection(&self, other: &Rect) -> (res: Option<Rect>)
        ensures
            res == self.spec_intersection(*other),
            self.wf() && other.wf() ==> (res is Some <==> self.spec_overlaps(*other)),
            res is Some ==> res->Some_0.wf(),
    {
        let x_lo = max_i64(self.x_lo, other.x_lo);
        let y_lo = max_i64(self.y_lo, other.y_lo);
        let x_hi = min_i64(self.x_hi, other.x_hi);
        let y_hi = min_i64(self.y_hi, other.y_hi);
        match Rect::new(x_lo, y_lo, x_hi, y_hi) {
            Ok(r) => Some(r),
            Err(_) => None,
        }
    }

    /// `self` expanded outward by `d` on all four sides.
    ///
    /// `d` may be negative to shrink the rectangle, but the result must
    /// still satisfy `x_lo < x_hi` and `y_lo < y_hi`.
    pub fn expand(&self, d: Distance) -> (res: Result<Rect, InvalidRect>)
        requires
            fits_i64(self.x_lo - d),
            fits_i64(self.y_lo - d),
            fits_i64(self.x_hi + d),
            fits_i64(self.y_hi + d),
        ensures
            res == spec_rect_new(self.x_lo - d, self.y_lo - d, self.x_hi + d, self.y_hi + d),
    {
        Rect::new(self.x_lo - d, self.y_lo - d, self.x_hi + d, self.y_hi + d)
    }

    /// The Manhattan (L1) gap between `self` and `other`: the sum of the
    /// per-axis edge-to-edge gaps, each clamped to zero when the rectangles'
    /// projections overlap on that axis.
    ///
    /// Zero if the rectangles overlap or touch on both axes.
    pub fn manhattan_distance(&self, other: &Rect) -> (d: Distance)
        requires
            fits_i64(self.spec_manhattan(*other)),
        ensures
            d == self.spec_manhattan(*other),
            d >= 0,
    {
        let dx = if self.x_hi <= other.x_lo {
            other.x_lo - self.x_hi
        } else if other.x_hi <= self.x_lo {
            self.x_lo - other.x_hi
        } else {
            0
        };
        let dy = if self.y_hi <= other.y_lo {
            other.y_lo - self.y_hi
        } else if other.y_hi <= self.y_lo {
            self.y_lo - other.y_hi
        } else {
            0
        };
        dx + dy
    }
}

/// The Manhattan gap is symmetric.
pub proof fn lemma_manhattan_symmetric(a: Rect, b: Rect)
    requires
        a.wf(),
        b.wf(),
    ensures
        a.spec_manhattan(b) == b.spec_manhattan(a),
{
}

/// Overlap is symmetric, and overlapping rectangles are at Manhattan distance zero.
pub proof fn lemma_overlap_symmetric_and_zero_gap(a: Rect, b: Rect)
    ensures
        a.spec_overlaps(b) == b.spec_overlaps(a),
        a.spec_overlaps(b) ==> a.spec_manhattan(b) == 0,
{
}

/// The intersection is symmetric, contained in both operands, and exists exactly
/// when the operands overlap.
pub proof fn lemma_intersection_properties(a: Rect, b: Rect)
    requires
        a.wf(),
        b.wf(),
    ensures
        a.spec_intersection(b) == b.spec_intersection(a),
        a.spec_intersection(b) is Some <==> a.spec_overlaps(b),
        a.spec_intersection(b) is Some ==> a.spec_contains(a.spec_intersection(b)->Some_0)
            && b.spec_contains(a.spec_intersection(b)->Some_0),
{
}

/// Containment is reflexive and transitive.
pub proof fn lemma_contains_preorder(a: Rect, b: Rect, c: Rect)
    ensures
        a.spec_contains(a),
        a.spec_contains(b) && b.spec_contains(c) ==> a.spec_contains(c),
{
}

} // verus!
