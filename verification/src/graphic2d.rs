use vstd::prelude::*;
use crate::common::SliceIndex;

verus! {

/// A point in the plane of a two-dimensional diagram, by its slice indices.
pub type Coordinate = (SliceIndex, SliceIndex);

/// The sign of `b` compared with `a`: `-1` when `b` comes first, `1` when `a` does.
pub open spec fn slice_sign(b: SliceIndex, a: SliceIndex) -> int {
    if b.spec_lt(a) {
        -1
    } else if b == a {
        0
    } else {
        1
    }
}

/// The triangle `p0, p1, p2` turns clockwise: the cross product of its first two sides,
/// taken on the signs of the coordinate differences, is negative.
pub open spec fn turns_clockwise(p0: Coordinate, p1: Coordinate, p2: Coordinate) -> bool {
    slice_sign(p1.0, p0.0) * slice_sign(p2.1, p1.1) - slice_sign(p1.1, p0.1) * slice_sign(p2.0, p1.0)
        < 0
}

fn sign_of(b: SliceIndex, a: SliceIndex) -> (r: i8)
    ensures
        r == slice_sign(b, a),
{
    if b.lt(&a) {
        -1
    } else if b == a {
        0
    } else {
        1
    }
}

/// Orients a triangle of the surface counterclockwise, by exchanging its first two
/// corners when it turns clockwise.
pub fn orient_surface(surface: (Coordinate, Coordinate, Coordinate)) -> (r: (
    Coordinate,
    Coordinate,
    Coordinate,
))
    ensures
        r == if turns_clockwise(surface.0, surface.1, surface.2) {
            (surface.1, surface.0, surface.2)
        } else {
            surface
        },
{
    let (p0, p1, p2) = surface;
    let a0 = sign_of(p1.0, p0.0);
    let a1 = sign_of(p1.1, p0.1);
    let b0 = sign_of(p2.0, p1.0);
    let b1 = sign_of(p2.1, p1.1);
    if a0 * b1 - a1 * b0 < 0 {
        (p1, p0, p2)
    } else {
        (p0, p1, p2)
    }
}

} // verus!
