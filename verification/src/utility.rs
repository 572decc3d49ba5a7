//! Small helpers around the simulation: batch coordinate translation, the
//! accelerating tick interval, and decoding of input command tokens.

use vstd::prelude::*;

use crate::point::Point;

verus! {

/// The discrete command tokens an input collaborator can produce.
#[derive(Clone, Copy, PartialEq, Eq, Structural, Debug)]
pub enum Keys {
    Up,
    Right,
    Left,
    Abort,
}

/// The wire code of each command token.
pub open spec fn spec_key_code(k: Keys) -> u16 {
    match k {
        Keys::Up => 1,
        Keys::Right => 2,
        Keys::Left => 3,
        Keys::Abort => 4,
    }
}

/// Encodes a command token as its wire code.
pub fn key_code(k: Keys) -> (c: u16)
    ensures
        c == spec_key_code(k),
{
    match k {
        Keys::Up => 1,
        Keys::Right => 2,
        Keys::Left => 3,
        Keys::Abort => 4,
    }
}

/// Decodes a wire code back into a command token; anything unrecognized is
/// `None` and gets silently ignored by the caller.
pub fn key_from_code(c: u16) -> (k: Option<Keys>)
    ensures
        match k {
            Some(key) => spec_key_code(key) == c,
            None => forall|key: Keys| spec_key_code(key) != c,
        },
{
    if c == 1 {
        Some(Keys::Up)
    } else if c == 2 {
        Some(Keys::Right)
    } else if c == 3 {
        Some(Keys::Left)
    } else if c == 4 {
        Some(Keys::Abort)
    } else {
        proof {
            assert forall|key: Keys| spec_key_code(key) != c by {
                match key {
                    Keys::Up => {},
                    Keys::Right => {},
                    Keys::Left => {},
                    Keys::Abort => {},
                }
            }
        }
        None
    }
}

/// Maps every piece-local point to grid coordinates relative to the master
/// node.
pub fn get_screen_translated_vertices(vertices: &Vec<Point>, master_node_position: &Point) -> (r:
    Vec<Point>)
    requires
        forall|k: int|
            0 <= k < vertices@.len() ==> i32::MIN <= (#[trigger] vertices@[k]).x
                + master_node_position.x <= i32::MAX && i32::MIN <= master_node_position.y
                - vertices@[k].y <= i32::MAX,
    ensures
        r@.len() == vertices@.len(),
        forall|k: int|
            0 <= k < vertices@.len() ==> (#[trigger] r@[k]).x == vertices@[k].x
                + master_node_position.x && r@[k].y == master_node_position.y - vertices@[k].y,
{
    let mut translated: Vec<Point> = Vec::new();
    let n = vertices.len();
    let mut idx: usize = 0;
    while idx < n
        invariant
            n == vertices@.len(),
            idx <= n,
            forall|k: int|
                0 <= k < vertices@.len() ==> i32::MIN <= (#[trigger] vertices@[k]).x
                    + master_node_position.x <= i32::MAX && i32::MIN <= master_node_position.y
                    - vertices@[k].y <= i32::MAX,
            translated@.len() == idx,
            forall|k: int|
                0 <= k < idx ==> (#[trigger] translated@[k]).x == vertices@[k].x
                    + master_node_position.x && translated@[k].y == master_node_position.y
                    - vertices@[k].y,
        decreases n - idx,
    {
        let new_point = crate::point::translate_to_screen(&vertices[idx], master_node_position);
        translated.push(new_point);
        idx += 1;
    }
    translated
}

/// Shifts every point by the same offset.
pub fn get_translated_vertices(vertices: &Vec<Point>, master_node_position: &Point) -> (r: Vec<
    Point,
>)
    requires
        forall|k: int|
            0 <= k < vertices@.len() ==> i32::MIN <= (#[trigger] vertices@[k]).x
                + master_node_position.x <= i32::MAX && i32::MIN <= vertices@[k].y
                + master_node_position.y <= i32::MAX,
    ensures
        r@.len() == vertices@.len(),
        forall|k: int|
            0 <= k < vertices@.len() ==> (#[trigger] r@[k]).x == vertices@[k].x
                + master_node_position.x && r@[k].y == vertices@[k].y + master_node_position.y,
{
    let mut translated: Vec<Point> = Vec::new();
    let n = vertices.len();
    let mut idx: usize = 0;
    while idx < n
        invariant
            n == vertices@.len(),
            idx <= n,
            forall|k: int|
                0 <= k < vertices@.len() ==> i32::MIN <= (#[trigger] vertices@[k]).x
                    + master_node_position.x <= i32::MAX && i32::MIN <= vertices@[k].y
                    + master_node_position.y <= i32::MAX,
            translated@.len() == idx,
            forall|k: int|
                0 <= k < idx ==> (#[trigger] translated@[k]).x == vertices@[k].x
                    + master_node_position.x && translated@[k].y == vertices@[k].y
                    + master_node_position.y,
        decreases n - idx,
    {
        let mut new_point = vertices[idx];
        crate::point::translate_by(&mut new_point, master_node_position);
        translated.push(new_point);
        idx += 1;
    }
    translated
}

/// Shrinks the tick interval by one part in a thousand (rounded down), so the
/// fall speed accelerates gradually.
pub fn shorten_interval(interval: u128) -> (r: u128)
    requires
        interval <= 0xFFFF_FFFF_FFFF_FFFF,
    ensures
        r == (interval * 999) / 1000,
{
    interval * 999 / 1000
}

} // verus!
