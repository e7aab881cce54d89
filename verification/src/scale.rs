//! Conversion of logical positions to physical ones at an integer output
//! scale.

use vstd::prelude::*;
use crate::geometry::Point;

verus! {

/// `v`, or the bound of `i32` that lies nearest to it.
pub open spec fn saturated(v: int) -> int {
    if v > i32::MAX {
        i32::MAX as int
    } else if v < i32::MIN {
        i32::MIN as int
    } else {
        v
    }
}

/// A logical position at an integer output scale, in physical coordinates:
/// each coordinate is multiplied by the scale, and a product that does not
/// fit in `i32` becomes the nearest bound.
pub open spec fn physical(point: Point, scale: i32) -> Point {
    Point { x: saturated(point.x * scale) as i32, y: saturated(point.y * scale) as i32 }
}

fn upscale(v: i32, scale: i32) -> (r: i32)
    ensures
        r == saturated(v * scale),
{
    assert(-0x4000_0000_0000_0000 <= (v as int) * (scale as int) <= 0x4000_0000_0000_0000)
        by (nonlinear_arith)
        requires
            -0x8000_0000 <= v <= 0x7fff_ffff,
            -0x8000_0000 <= scale <= 0x7fff_ffff,
    ;
    let product: i64 = (v as i64) * (scale as i64);
    if product > i32::MAX as i64 {
        i32::MAX
    } else if product < i32::MIN as i64 {
        i32::MIN
    } else {
        product as i32
    }
}

/// Executable form of [`physical`].
pub fn to_physical(point: Point, scale: i32) -> (p: Point)
    ensures
        p == physical(point, scale),
{
    Point { x: upscale(point.x, scale), y: upscale(point.y, scale) }
}

} // verus!
