use vstd::prelude::*;

verus! {

/// A pixel coordinate on the canvas; y grows downward.
#[derive(Clone, Copy, Debug, PartialEq, Eq, Structural)]
pub struct Point2d {
    pub x: u32,
    pub y: u32,
}

/// Whether `point` lies inside a canvas of `bound_x` columns and `bound_y` rows.
pub fn in_bounds(point: &Point2d, bound_x: u32, bound_y: u32) -> (r: bool)
    ensures
        r == (point.x < bound_x && point.y < bound_y),
{
    point.x < bound_x && point.y < bound_y
}

} // verus!
