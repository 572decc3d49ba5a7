//! Integer grid coordinates and the elementary transforms on them:
//! translation, piece-local to grid ("screen") mapping, and orthogonal
//! adjacency.

use vstd::prelude::*;

verus! {

/// A grid coordinate. `x` grows rightward, `y` grows downward on the grid;
/// a piece's local `y` grows upward from its own baseline.
#[derive(Clone, Copy, PartialEq, Eq, Structural, Debug)]
pub struct Point {
    pub x: i32,
    pub y: i32,
}

/// Two points are touching iff they are orthogonal grid neighbours or equal:
/// equal on one axis and at most one apart on the other.
pub open spec fn touching(p: Point, q: Point) -> bool {
    ||| (p.y == q.y && -1 <= p.x - q.x <= 1)
    ||| (p.x == q.x && -1 <= p.y - q.y <= 1)
}

/// Shifts `point` by the offset carried in `ref_point`.
pub fn translate_by(point: &mut Point, ref_point: &Point)
    requires
        i32::MIN <= old(point).x + ref_point.x <= i32::MAX,
        i32::MIN <= old(point).y + ref_point.y <= i32::MAX,
    ensures
        final(point).x == old(point).x + ref_point.x,
        final(point).y == old(point).y + ref_point.y,
{
    point.x += ref_point.x;
    point.y += ref_point.y;
}

/// Maps a piece-local point to grid coordinates relative to the master node:
/// the local `x` is shifted right, the local `y` is flipped downward from the
/// master node's row.
pub fn translate_to_screen(point: &Point, ref_point: &Point) -> (r: Point)
    requires
        i32::MIN <= point.x + ref_point.x <= i32::MAX,
        i32::MIN <= ref_point.y - point.y <= i32::MAX,
    ensures
        r.x == point.x + ref_point.x,
        r.y == ref_point.y - point.y,
{
    let mut new_point = *point;
    new_point.x += ref_point.x;
    new_point.y = ref_point.y - point.y;

    new_point
}

/// Reports whether the two points are orthogonal grid neighbours (or equal).
pub fn are_touching(p1: &Point, p2: &Point) -> (r: bool)
    ensures
        r == touching(*p1, *p2),
{
    let dx: i64 = p1.x as i64 - p2.x as i64;
    let dy: i64 = p1.y as i64 - p2.y as i64;

    (p1.y == p2.y && -1 <= dx && dx <= 1) || (p1.x == p2.x && -1 <= dy && dy <= 1)
}

} // verus!
