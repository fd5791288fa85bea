//! The primitive model: fixed-point coordinates and the one primitive
//! kind, a line segment in a node's local frame.
//!
//! All geometry is integer arithmetic in a Q16 fixed-point scale: one
//! coordinate unit (the half-width of a node's local square) is `UNIT`.

use vstd::prelude::*;

verus! {

/// One coordinate unit in the fixed-point scale.
pub const UNIT: i64 = 65536;

/// Half a unit: the extent threshold of the stroke router.
pub const HALF_UNIT: i64 = 32768;

/// A stroke style: a width in fixed-point units and a packed RGBA color.
#[derive(Clone, Copy, PartialEq, Eq, Structural, Debug)]
pub struct StrokeStyle {
    pub width: i64,
    pub color: u32,
}

/// A line segment in a node's local frame, with a width already
/// rescaled for the node's depth.
#[derive(Clone, Copy, PartialEq, Eq, Structural, Debug)]
pub struct Line {
    pub x1: i64,
    pub y1: i64,
    pub x2: i64,
    pub y2: i64,
    pub width: i64,
    pub color: u32,
}

/// The absolute value of a fixed-point coordinate difference.
pub open spec fn abs_diff(a: int, b: int) -> int {
    if a >= b {
        a - b
    } else {
        b - a
    }
}

/// The maximum per-axis absolute extent of a segment: the quantity the
/// stroke router compares against `HALF_UNIT`.
pub open spec fn spec_extent(x1: int, y1: int, x2: int, y2: int) -> int {
    if abs_diff(x1, x2) >= abs_diff(y1, y2) {
        abs_diff(x1, x2)
    } else {
        abs_diff(y1, y2)
    }
}

/// The extent of a segment, computed executably.
pub fn extent(x1: i64, y1: i64, x2: i64, y2: i64) -> (r: i64)
    requires
        abs_diff(x1 as int, x2 as int) <= i64::MAX,
        abs_diff(y1 as int, y2 as int) <= i64::MAX,
    ensures
        r as int == spec_extent(x1 as int, y1 as int, x2 as int, y2 as int),
{
    let dx: i64 = if x1 >= x2 {
        x1 - x2
    } else {
        x2 - x1
    };
    let dy: i64 = if y1 >= y2 {
        y1 - y2
    } else {
        y2 - y1
    };
    if dx >= dy {
        dx
    } else {
        dy
    }
}

impl Line {
    /// What `from_points` builds: endpoints as given, and a width equal
    /// to the style's width multiplied by the router's accumulated
    /// scale, in fixed-point.
    pub open spec fn spec_from_points(
        x1: int,
        y1: int,
        x2: int,
        y2: int,
        scale: int,
        style: StrokeStyle,
    ) -> Line {
        Line {
            x1: x1 as i64,
            y1: y1 as i64,
            x2: x2 as i64,
            y2: y2 as i64,
            width: ((style.width * scale) / (UNIT as int)) as i64,
            color: style.color,
        }
    }

    /// Build the primitive for a routed segment: the endpoints in the
    /// destination node's local frame and the style's width scaled by
    /// the router's accumulated depth factor.
    pub fn from_points(x1: i64, y1: i64, x2: i64, y2: i64, scale: i64, style: StrokeStyle) -> (r:
        Line)
        requires
            0 <= style.width <= UNIT,
            0 <= scale <= 0x4000_0000_0000,
        ensures
            r == Line::spec_from_points(
                x1 as int,
                y1 as int,
                x2 as int,
                y2 as int,
                scale as int,
                style,
            ),
    {
        proof {
            assert(style.width * scale <= 0x4000_0000_0000_0000) by (nonlinear_arith)
                requires
                    0 <= style.width <= UNIT,
                    0 <= scale <= 0x4000_0000_0000,
            ;
            assert(style.width * scale >= 0) by (nonlinear_arith)
                requires
                    0 <= style.width,
                    0 <= scale,
            ;
        }
        Line { x1, y1, x2, y2, width: (style.width * scale) / UNIT, color: style.color }
    }
}

} // verus!
