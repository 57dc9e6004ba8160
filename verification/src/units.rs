//! Integer unit value types (nanometers) and layout axes.
use vstd::prelude::*;

use crate::text::{chars_of, eq_ignore_case, equal_ignore_case};

verus! {

/// A length or separation in integer nanometers.
#[derive(Debug, Clone, Copy, PartialEq, Eq, Hash, Default, Structural)]
pub struct Distance(pub i64);

impl Distance {
    /// A distance of `nm` nanometers.
    pub fn new(nm: i64) -> (d: Distance)
        ensures
            d.0 == nm,
    {
        Distance(nm)
    }

    /// A distance of `nm` nanometers.
    pub fn nm(nm: i64) -> (d: Distance)
        ensures
            d.0 == nm,
    {
        Distance(nm)
    }

    /// A distance of `um` micrometers.
    pub fn um(um: i64) -> (d: Distance)
        requires
            i64::MIN <= um * 1000 <= i64::MAX,
        ensures
            d.0 == um * 1000,
    {
        Distance(um * 1_000)
    }

    /// The distance in nanometers.
    pub fn as_nm(self) -> (n: i64)
        ensures
            n == self.0,
    {
        self.0
    }
}

/// A position along one axis, in integer nanometers.
#[derive(Debug, Clone, Copy, PartialEq, Eq, Hash, Default, Structural)]
pub struct Coord(pub i64);

impl Coord {
    /// The coordinate `nm` nanometers.
    pub fn new(nm: i64) -> (c: Coord)
        ensures
            c.0 == nm,
    {
        Coord(nm)
    }

    /// The coordinate `nm` nanometers.
    pub fn nm(nm: i64) -> (c: Coord)
        ensures
            c.0 == nm,
    {
        Coord(nm)
    }

    /// The coordinate `um` micrometers.
    pub fn um(um: i64) -> (c: Coord)
        requires
            i64::MIN <= um * 1000 <= i64::MAX,
        ensures
            c.0 == um * 1000,
    {
        Coord(um * 1_000)
    }

    /// The coordinate in nanometers.
    pub fn as_nm(self) -> (n: i64)
        ensures
            n == self.0,
    {
        self.0
    }
}

/// A layout axis.
#[derive(Debug, Clone, Copy, PartialEq, Eq, Hash, Structural)]
pub enum Axis {
    X,
    Y,
}

/// The name of an axis.
pub open spec fn axis_name(a: Axis) -> &'static str {
    match a {
        Axis::X => "x",
        Axis::Y => "y",
    }
}

impl Axis {
    /// The axis name: `"x"` or `"y"`.
    pub fn name(self) -> (s: &'static str)
        ensures
            s == axis_name(self),
    {
        match self {
            Axis::X => "x",
            Axis::Y => "y",
        }
    }
}

/// The axis a name denotes, ignoring ASCII case: `horizontal` or `x` for X,
/// `vertical` or `y` for Y.
pub open spec fn spec_parse_axis(s: Seq<char>) -> Option<Axis> {
    if eq_ignore_case(s, "horizontal"@) || eq_ignore_case(s, "x"@) {
        Some(Axis::X)
    } else if eq_ignore_case(s, "vertical"@) || eq_ignore_case(s, "y"@) {
        Some(Axis::Y)
    } else {
        None
    }
}

/// The message for a name that denotes no axis.
pub open spec fn axis_error() -> &'static str {
    "axis must be one of: horizontal, x, vertical, y"
}

/// Parse an axis name (`horizontal`/`x`, `vertical`/`y`), ignoring ASCII case.
pub fn parse_axis(s: &str) -> (r: Result<Axis, &'static str>)
    ensures
        match r {
            Ok(a) => spec_parse_axis(s@) == Some(a),
            Err(m) => spec_parse_axis(s@) is None && m == axis_error(),
        },
{
    let c = chars_of(s);
    if equal_ignore_case(&c, &chars_of("horizontal")) || equal_ignore_case(&c, &chars_of("x")) {
        Ok(Axis::X)
    } else if equal_ignore_case(&c, &chars_of("vertical")) || equal_ignore_case(
        &c,
        &chars_of("y"),
    ) {
        Ok(Axis::Y)
    } else {
        Err("axis must be one of: horizontal, x, vertical, y")
    }
}

} // verus!
