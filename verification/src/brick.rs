//! Movable bricks (falling pieces) and settled bricks (debris on the grid):
//! the shape catalog, bounding-box measurement, and the clockwise rotation
//! about the derived pivot.

use vstd::prelude::*;

use crate::point::Point;
use rand::Rng;

verus! {

/// Orientation tag of a falling brick; every rotation toggles it.
#[derive(Clone, Copy, PartialEq, Eq, Structural, Debug)]
pub enum BrickOrientation {
    Horizontal,
    Vertical,
}

/// Display colour of a brick, carried only for rendering.
#[derive(Clone, Copy, PartialEq, Eq, Structural, Debug)]
pub enum BrickColor {
    Red,
    Green,
    Blue,
    Grey,
    DarkYellow,
}

/// A falling brick: local points (relative to its own bounding-box origin),
/// the bounding dimensions cached for the horizontal orientation, the current
/// orientation tag and a display colour.
#[verifier::ext_equal]
pub struct Brick {
    pub vertices: Vec<Point>,
    pub width_horizontal: u16,
    pub height_horizontal: u16,
    pub orientation: BrickOrientation,
    pub color: BrickColor,
}

/// A settled brick: points already in absolute grid coordinates, plus the
/// colour inherited from the piece it came from.
#[verifier::ext_equal]
pub struct DeadBrick {
    pub vertices: Vec<Point>,
    pub color: BrickColor,
}

/// The x coordinates of a point sequence, as mathematical integers.
pub open spec fn xs(s: Seq<Point>) -> Seq<int> {
    s.map_values(|p: Point| p.x as int)
}

/// The y coordinates of a point sequence, as mathematical integers.
pub open spec fn ys(s: Seq<Point>) -> Seq<int> {
    s.map_values(|p: Point| p.y as int)
}

pub open spec fn max_x(s: Seq<Point>) -> int {
    xs(s).max()
}

pub open spec fn min_x(s: Seq<Point>) -> int {
    xs(s).min()
}

pub open spec fn max_y(s: Seq<Point>) -> int {
    ys(s).max()
}

pub open spec fn min_y(s: Seq<Point>) -> int {
    ys(s).min()
}

/// Bounding width of a non-empty point set: `max - min + 1` on the x axis.
pub open spec fn width_of(s: Seq<Point>) -> int {
    max_x(s) - min_x(s) + 1
}

/// Bounding height of a non-empty point set: `max - min + 1` on the y axis.
pub open spec fn height_of(s: Seq<Point>) -> int {
    max_y(s) - min_y(s) + 1
}

/// All coordinates are non-negative and small enough that translations,
/// rotations and bounding-box arithmetic stay well inside `i32` and `u16`.
pub open spec fn pts_in_range(s: Seq<Point>) -> bool {
    forall|i: int|
        0 <= i < s.len() ==> 0 <= (#[trigger] s[i]).x < 16384 && 0 <= s[i].y < 16384
}

/// A well-formed falling brick: at least one local point, all in range.
pub open spec fn brick_wf(b: Brick) -> bool {
    b.vertices@.len() > 0 && pts_in_range(b.vertices@)
}

/// The cached dimensions describe the current point set: in the horizontal
/// orientation the caches are the set's own bounding box, in the vertical one
/// they are swapped.
pub open spec fn brick_dims_ok(b: Brick) -> bool {
    if b.orientation == BrickOrientation::Horizontal {
        b.width_horizontal == width_of(b.vertices@) && b.height_horizontal == height_of(
            b.vertices@,
        )
    } else {
        b.width_horizontal == height_of(b.vertices@) && b.height_horizontal == width_of(
            b.vertices@,
        )
    }
}

/// Every coordinate lies between the extrema, and each extremum is attained.
pub proof fn lemma_extrema(s: Seq<Point>)
    requires
        s.len() > 0,
    ensures
        forall|i: int|
            0 <= i < s.len() ==> min_x(s) <= (#[trigger] s[i]).x <= max_x(s) && min_y(s)
                <= s[i].y <= max_y(s),
        exists|i: int| 0 <= i < s.len() && (#[trigger] s[i]).x == max_x(s),
        exists|i: int| 0 <= i < s.len() && (#[trigger] s[i]).x == min_x(s),
        exists|i: int| 0 <= i < s.len() && (#[trigger] s[i]).y == max_y(s),
        exists|i: int| 0 <= i < s.len() && (#[trigger] s[i]).y == min_y(s),
{
    xs(s).max_ensures();
    xs(s).min_ensures();
    ys(s).max_ensures();
    ys(s).min_ensures();
    let jxa = choose|j: int| 0 <= j < xs(s).len() && xs(s)[j] == xs(s).max();
    assert(s[jxa].x == max_x(s));
    let jxi = choose|j: int| 0 <= j < xs(s).len() && xs(s)[j] == xs(s).min();
    assert(s[jxi].x == min_x(s));
    let jya = choose|j: int| 0 <= j < ys(s).len() && ys(s)[j] == ys(s).max();
    assert(s[jya].y == max_y(s));
    let jyi = choose|j: int| 0 <= j < ys(s).len() && ys(s)[j] == ys(s).min();
    assert(s[jyi].y == min_y(s));
    assert forall|i: int| 0 <= i < s.len() implies min_x(s) <= (#[trigger] s[i]).x <= max_x(s)
        && min_y(s) <= s[i].y <= max_y(s) by {
        assert(xs(s)[i] == s[i].x as int);
        assert(ys(s)[i] == s[i].y as int);
    }
}

/// The clockwise rotation of a local point set about the derived pivot
/// `(max(x) + 1, min(y))`: each point `(x, y)` becomes `(y, max(x) - x)`.
pub open spec fn rotate_pts(s: Seq<Point>) -> Seq<Point> {
    Seq::new(s.len(), |i: int| Point { x: s[i].y, y: (max_x(s) - s[i].x as int) as i32 })
}

/// How rotation moves each point and the bounding extrema: the x extrema
/// become the old y extrema, the rotated set starts at row 0 and reaches up
/// to the old bounding width.
pub proof fn lemma_rotate_pts_extrema(s: Seq<Point>)
    requires
        s.len() > 0,
        pts_in_range(s),
    ensures
        rotate_pts(s).len() == s.len(),
        pts_in_range(rotate_pts(s)),
        forall|i: int|
            0 <= i < s.len() ==> (#[trigger] rotate_pts(s)[i]).x == s[i].y && rotate_pts(s)[i].y
                == max_x(s) - s[i].x,
        max_x(rotate_pts(s)) == max_y(s),
        min_x(rotate_pts(s)) == min_y(s),
        max_y(rotate_pts(s)) == max_x(s) - min_x(s),
        min_y(rotate_pts(s)) == 0,
{
    let r = rotate_pts(s);
    lemma_extrema(s);
    assert(0 <= max_x(s) < 16384) by {
        let j = choose|j: int| 0 <= j < s.len() && (#[trigger] s[j]).x == max_x(s);
    }
    assert forall|i: int| 0 <= i < s.len() implies (#[trigger] r[i]).x == s[i].y && r[i].y
        == max_x(s) - s[i].x && 0 <= r[i].x < 16384 && 0 <= r[i].y < 16384 by {
        assert(0 <= max_x(s) - s[i].x < 16384);
    }
    lemma_extrema(r);
    let a = choose|i: int| 0 <= i < r.len() && (#[trigger] r[i]).x == max_x(r);
    let b = choose|i: int| 0 <= i < s.len() && (#[trigger] s[i]).y == max_y(s);
    assert(max_x(r) == r[a].x == s[a].y);
    assert(r[b].x == s[b].y == max_y(s));
    assert(max_x(r) == max_y(s));
    let c = choose|i: int| 0 <= i < r.len() && (#[trigger] r[i]).x == min_x(r);
    let d = choose|i: int| 0 <= i < s.len() && (#[trigger] s[i]).y == min_y(s);
    assert(min_x(r) == r[c].x == s[c].y);
    assert(r[d].x == s[d].y == min_y(s));
    assert(min_x(r) == min_y(s));
    let e = choose|i: int| 0 <= i < r.len() && (#[trigger] r[i]).y == max_y(r);
    let f = choose|i: int| 0 <= i < s.len() && (#[trigger] s[i]).x == min_x(s);
    assert(max_y(r) == r[e].y == max_x(s) - s[e].x);
    assert(r[f].y == max_x(s) - min_x(s));
    assert(max_y(r) == max_x(s) - min_x(s));
    let g = choose|i: int| 0 <= i < r.len() && (#[trigger] r[i]).y == min_y(r);
    let h = choose|i: int| 0 <= i < s.len() && (#[trigger] s[i]).x == max_x(s);
    assert(min_y(r) == r[g].y == max_x(s) - s[g].x);
    assert(r[h].y == 0);
    assert(min_y(r) == 0);
}

/// Rotating a local point set four times returns it unchanged, provided the
/// set starts at its own bounding-box origin — the invariant every piece
/// keeps.
pub proof fn lemma_rotation_involution(s: Seq<Point>)
    requires
        s.len() > 0,
        pts_in_range(s),
        min_x(s) == 0,
        min_y(s) == 0,
    ensures
        rotate_pts(rotate_pts(rotate_pts(rotate_pts(s)))) == s,
{
    let s1 = rotate_pts(s);
    let s2 = rotate_pts(s1);
    let s3 = rotate_pts(s2);
    let s4 = rotate_pts(s3);
    lemma_rotate_pts_extrema(s);
    lemma_rotate_pts_extrema(s1);
    lemma_rotate_pts_extrema(s2);
    lemma_rotate_pts_extrema(s3);
    assert forall|i: int| 0 <= i < s.len() implies s4[i] == s[i] by {
        assert(s1[i].x == s[i].y && s1[i].y == max_x(s) - s[i].x);
        assert(s2[i].x == max_x(s) - s[i].x && s2[i].y == max_x(s1) - s1[i].x);
        assert(max_x(s1) == max_y(s));
        assert(s2[i].y == max_y(s) - s[i].y);
        assert(max_x(s2) == max_y(s1) && max_y(s1) == max_x(s) - min_x(s));
        assert(s3[i].x == max_y(s) - s[i].y && s3[i].y == max_x(s2) - s2[i].x);
        assert(s3[i].y == max_x(s) - (max_x(s) - s[i].x));
        assert(max_x(s3) == max_y(s2) && max_y(s2) == max_x(s1) - min_x(s1));
        assert(min_x(s1) == min_y(s));
        assert(s4[i].x == s3[i].y && s4[i].y == max_x(s3) - s3[i].x);
        assert(s4[i].y == max_y(s) - (max_y(s) - s[i].y));
    }
    assert(s4 =~= s);
}

/// The five catalog shapes, in local coordinates.
pub open spec fn i_shape() -> Seq<Point> {
    seq![Point { x: 0, y: 0 }, Point { x: 0, y: 1 }, Point { x: 0, y: 2 }]
}

pub open spec fn s_shape() -> Seq<Point> {
    seq![
        Point { x: 0, y: 0 },
        Point { x: 1, y: 0 },
        Point { x: 1, y: 1 },
        Point { x: 2, y: 1 },
    ]
}

pub open spec fn box_shape() -> Seq<Point> {
    seq![
        Point { x: 0, y: 0 },
        Point { x: 0, y: 1 },
        Point { x: 1, y: 1 },
        Point { x: 1, y: 0 },
    ]
}

pub open spec fn l_shape() -> Seq<Point> {
    seq![Point { x: 0, y: 0 }, Point { x: 1, y: 0 }, Point { x: 0, y: 1 }]
}

pub open spec fn castle_shape() -> Seq<Point> {
    seq![
        Point { x: 0, y: 0 },
        Point { x: 1, y: 1 },
        Point { x: 1, y: 0 },
        Point { x: 2, y: 0 },
    ]
}

pub open spec fn is_catalog_shape(s: Seq<Point>) -> bool {
    s == i_shape() || s == s_shape() || s == box_shape() || s == l_shape() || s == castle_shape()
}

/// Relies on rand::Rng::gen_range over the range 0..n: it returns a value of
/// that range and panics only on an empty one, which the precondition rules
/// out.
#[verifier::external_body]
fn random_below(n: u32) -> (r: u32)
    requires
        n > 0,
    ensures
        r < n,
{
    rand::thread_rng().gen_range(0..n)
}

/// Bounding width of the point set: `max(x) - min(x) + 1`.
pub fn calculate_width(vertices: &Vec<Point>) -> (w: u16)
    requires
        vertices@.len() > 0,
        pts_in_range(vertices@),
    ensures
        w as int == width_of(vertices@),
{
    let s = Ghost(vertices@);
    let mut mn: i32 = vertices[0].x;
    let mut mx: i32 = vertices[0].x;
    let mut idx: usize = 1;
    while idx < vertices.len()
        invariant
            vertices@ == s@,
            pts_in_range(s@),
            1 <= idx <= s@.len(),
            forall|j: int| 0 <= j < idx ==> mn <= (#[trigger] s@[j]).x <= mx,
            exists|j: int| 0 <= j < idx && (#[trigger] s@[j]).x == mn,
            exists|j: int| 0 <= j < idx && (#[trigger] s@[j]).x == mx,
        decreases s@.len() - idx,
    {
        let x = vertices[idx].x;
        if x > mx {
            mx = x;
        }
        if x < mn {
            mn = x;
        }
        idx += 1;
    }
    proof {
        lemma_extrema(s@);
        let a = choose|j: int| 0 <= j < s@.len() && (#[trigger] s@[j]).x == mn;
        let b = choose|j: int| 0 <= j < s@.len() && (#[trigger] s@[j]).x == mx;
        let c = choose|j: int| 0 <= j < s@.len() && (#[trigger] s@[j]).x == max_x(s@);
        let d = choose|j: int| 0 <= j < s@.len() && (#[trigger] s@[j]).x == min_x(s@);
        assert(mx == max_x(s@) && mn == min_x(s@));
    }
    (mx - mn + 1) as u16
}

/// Bounding height of the point set: `max(y) - min(y) + 1`.
pub fn calculate_height(vertices: &Vec<Point>) -> (h: u16)
    requires
        vertices@.len() > 0,
        pts_in_range(vertices@),
    ensures
        h as int == height_of(vertices@),
{
    let s = Ghost(vertices@);
    let mut mn: i32 = vertices[0].y;
    let mut mx: i32 = vertices[0].y;
    let mut idx: usize = 1;
    while idx < vertices.len()
        invariant
            vertices@ == s@,
            pts_in_range(s@),
            1 <= idx <= s@.len(),
            forall|j: int| 0 <= j < idx ==> mn <= (#[trigger] s@[j]).y <= mx,
            exists|j: int| 0 <= j < idx && (#[trigger] s@[j]).y == mn,
            exists|j: int| 0 <= j < idx && (#[trigger] s@[j]).y == mx,
        decreases s@.len() - idx,
    {
        let y = vertices[idx].y;
        if y > mx {
            mx = y;
        }
        if y < mn {
            mn = y;
        }
        idx += 1;
    }
    proof {
        lemma_extrema(s@);
        let a = choose|j: int| 0 <= j < s@.len() && (#[trigger] s@[j]).y == mn;
        let b = choose|j: int| 0 <= j < s@.len() && (#[trigger] s@[j]).y == mx;
        let c = choose|j: int| 0 <= j < s@.len() && (#[trigger] s@[j]).y == max_y(s@);
        let d = choose|j: int| 0 <= j < s@.len() && (#[trigger] s@[j]).y == min_y(s@);
        assert(mx == max_y(s@) && mn == min_y(s@));
    }
    (mx - mn + 1) as u16
}

/// The pivot of the next rotation: `(max(x) + 1, min(y))` over the current
/// local points; after rotation it becomes the set's bottom-left corner.
fn find_future_master_node(vertices: &Vec<Point>) -> (p: Point)
    requires
        vertices@.len() > 0,
        pts_in_range(vertices@),
    ensures
        p.x as int == max_x(vertices@) + 1,
        p.y as int == min_y(vertices@),
{
    let s = Ghost(vertices@);
    let mut p: Point = vertices[0];
    let mut idx: usize = 1;
    while idx < vertices.len()
        invariant
            vertices@ == s@,
            pts_in_range(s@),
            1 <= idx <= s@.len(),
            forall|j: int| 0 <= j < idx ==> (#[trigger] s@[j]).x <= p.x && s@[j].y >= p.y,
            exists|j: int| 0 <= j < idx && (#[trigger] s@[j]).x == p.x,
            exists|j: int| 0 <= j < idx && (#[trigger] s@[j]).y == p.y,
            0 <= p.x < 16384,
        decreases s@.len() - idx,
    {
        let v = vertices[idx];
        if v.x > p.x {
            p.x = v.x;
        }
        if v.y < p.y {
            p.y = v.y;
        }
        idx += 1;
    }
    proof {
        lemma_extrema(s@);
        let a = choose|j: int| 0 <= j < s@.len() && (#[trigger] s@[j]).x == p.x;
        let b = choose|j: int| 0 <= j < s@.len() && (#[trigger] s@[j]).y == p.y;
        let c = choose|j: int| 0 <= j < s@.len() && (#[trigger] s@[j]).x == max_x(s@);
        let d = choose|j: int| 0 <= j < s@.len() && (#[trigger] s@[j]).y == min_y(s@);
        assert(p.x == max_x(s@) && p.y == min_y(s@));
    }
    p.x = p.x + 1;
    p
}

/// Bottom-left corner of the bounding box of a settled brick's cells:
/// `(min(x), max(y))` in grid coordinates.
pub fn find_dead_master_node(vertices: &Vec<Point>) -> (p: Point)
    requires
        vertices@.len() > 0,
    ensures
        p.x as int == min_x(vertices@),
        p.y as int == max_y(vertices@),
{
    let s = Ghost(vertices@);
    let mut p: Point = vertices[0];
    let mut idx: usize = 1;
    while idx < vertices.len()
        invariant
            vertices@ == s@,
            1 <= idx <= s@.len(),
            forall|j: int| 0 <= j < idx ==> (#[trigger] s@[j]).x >= p.x && s@[j].y <= p.y,
            exists|j: int| 0 <= j < idx && (#[trigger] s@[j]).x == p.x,
            exists|j: int| 0 <= j < idx && (#[trigger] s@[j]).y == p.y,
        decreases s@.len() - idx,
    {
        let v = vertices[idx];
        if v.x < p.x {
            p.x = v.x;
        }
        if v.y > p.y {
            p.y = v.y;
        }
        idx += 1;
    }
    proof {
        lemma_extrema(s@);
        let a = choose|j: int| 0 <= j < s@.len() && (#[trigger] s@[j]).x == p.x;
        let b = choose|j: int| 0 <= j < s@.len() && (#[trigger] s@[j]).y == p.y;
        let c = choose|j: int| 0 <= j < s@.len() && (#[trigger] s@[j]).x == min_x(s@);
        let d = choose|j: int| 0 <= j < s@.len() && (#[trigger] s@[j]).y == max_y(s@);
        assert(p.x == min_x(s@) && p.y == max_y(s@));
    }
    p
}

/// The currently effective bounding height: the caches are swapped by
/// orientation.
pub open spec fn spec_get_height(b: Brick) -> u16 {
    if b.orientation == BrickOrientation::Horizontal {
        b.height_horizontal
    } else {
        b.width_horizontal
    }
}

/// The currently effective bounding width.
pub open spec fn spec_get_width(b: Brick) -> u16 {
    if b.orientation == BrickOrientation::Horizontal {
        b.width_horizontal
    } else {
        b.height_horizontal
    }
}

pub fn get_height(brick: &Brick) -> (h: u16)
    ensures
        h == spec_get_height(*brick),
        brick_dims_ok(*brick) ==> h as int == height_of(brick.vertices@),
{
    if matches!(brick.orientation, BrickOrientation::Horizontal) {
        brick.height_horizontal
    } else {
        brick.width_horizontal
    }
}

pub fn get_width(brick: &Brick) -> (w: u16)
    ensures
        w == spec_get_width(*brick),
        brick_dims_ok(*brick) ==> w as int == width_of(brick.vertices@),
{
    if matches!(brick.orientation, BrickOrientation::Horizontal) {
        brick.width_horizontal
    } else {
        brick.height_horizontal
    }
}

/// Rotates the brick clockwise about the derived pivot and toggles the
/// orientation tag; the cached dimensions are untouched, which keeps them
/// describing the rotated set.
pub fn rotate(brick: &mut Brick)
    requires
        brick_wf(*old(brick)),
    ensures
        final(brick).vertices@ == rotate_pts(old(brick).vertices@),
        final(brick).orientation == (if old(brick).orientation == BrickOrientation::Horizontal {
            BrickOrientation::Vertical
        } else {
            BrickOrientation::Horizontal
        }),
        final(brick).width_horizontal == old(brick).width_horizontal,
        final(brick).height_horizontal == old(brick).height_horizontal,
        final(brick).color == old(brick).color,
        brick_wf(*final(brick)),
        brick_dims_ok(*old(brick)) ==> brick_dims_ok(*final(brick)),
{
    let master_node = find_future_master_node(&brick.vertices);
    let n = brick.vertices.len();
    let mut rotated: Vec<Point> = Vec::new();
    let mut idx: usize = 0;
    while idx < n
        invariant
            *brick == *old(brick),
            brick_wf(*brick),
            n == brick.vertices@.len(),
            master_node.x as int == max_x(brick.vertices@) + 1,
            idx <= n,
            rotated@.len() == idx,
            forall|j: int|
                0 <= j < idx ==> rotated@[j] == rotate_pts(old(brick).vertices@)[j],
        decreases n - idx,
    {
        let v = brick.vertices[idx];
        proof {
            lemma_extrema(brick.vertices@);
        }
        let p = Point { x: v.y, y: master_node.x - (v.x + 1) };
        rotated.push(p);
        idx += 1;
    }
    proof {
        assert(rotated@ =~= rotate_pts(old(brick).vertices@));
        lemma_rotate_pts_extrema(old(brick).vertices@);
    }
    brick.vertices = rotated;
    brick.orientation = if matches!(brick.orientation, BrickOrientation::Horizontal) {
        BrickOrientation::Vertical
    } else {
        BrickOrientation::Horizontal
    };
}

/// Builds a horizontal brick from the given local points, measuring and
/// caching its bounding box and drawing a display colour at random.
pub fn build_brick(vertices: Vec<Point>) -> (b: Brick)
    requires
        vertices@.len() > 0,
        pts_in_range(vertices@),
    ensures
        b.vertices@ == vertices@,
        b.orientation == BrickOrientation::Horizontal,
        b.width_horizontal as int == width_of(vertices@),
        b.height_horizontal as int == height_of(vertices@),
        brick_wf(b),
        brick_dims_ok(b),
{
    let width = calculate_width(&vertices);
    let height = calculate_height(&vertices);

    let c = random_below(5);
    let color = if c == 0 {
        BrickColor::Red
    } else if c == 1 {
        BrickColor::Green
    } else if c == 2 {
        BrickColor::Blue
    } else if c == 3 {
        BrickColor::Grey
    } else {
        BrickColor::DarkYellow
    };

    Brick {
        vertices,
        width_horizontal: width,
        height_horizontal: height,
        orientation: BrickOrientation::Horizontal,
        color,
    }
}

/// Spawns a fresh brick: a shape drawn at random from the fixed catalog, with
/// a random display colour.
pub fn generate_brick() -> (b: Brick)
    ensures
        brick_wf(b),
        brick_dims_ok(b),
        b.orientation == BrickOrientation::Horizontal,
        is_catalog_shape(b.vertices@),
{
    let version = random_below(5);
    let vertices: Vec<Point> = if version == 0 {
        vec![Point { x: 0, y: 0 }, Point { x: 0, y: 1 }, Point { x: 0, y: 2 }]
    } else if version == 1 {
        vec![
            Point { x: 0, y: 0 },
            Point { x: 1, y: 0 },
            Point { x: 1, y: 1 },
            Point { x: 2, y: 1 },
        ]
    } else if version == 2 {
        vec![Point { x: 0, y: 0 }, Point { x: 1, y: 0 }, Point { x: 0, y: 1 }]
    } else if version == 3 {
        vec![
            Point { x: 0, y: 0 },
            Point { x: 1, y: 1 },
            Point { x: 1, y: 0 },
            Point { x: 2, y: 0 },
        ]
    } else {
        vec![
            Point { x: 0, y: 0 },
            Point { x: 0, y: 1 },
            Point { x: 1, y: 1 },
            Point { x: 1, y: 0 },
        ]
    };
    proof {
        assert(is_catalog_shape(vertices@)) by {
            if version == 0 {
                assert(vertices@ =~= i_shape());
            } else if version == 1 {
                assert(vertices@ =~= s_shape());
            } else if version == 2 {
                assert(vertices@ =~= l_shape());
            } else if version == 3 {
                assert(vertices@ =~= castle_shape());
            } else {
                assert(vertices@ =~= box_shape());
            }
        }
        assert(pts_in_range(vertices@)) by {
            assert forall|i: int|
                0 <= i < vertices@.len() implies 0 <= (#[trigger] vertices@[i]).x < 16384 && 0
                <= vertices@[i].y < 16384 by {
                assert(i == 0 || i == 1 || i == 2 || i == 3);
            }
        }
    }
    build_brick(vertices)
}

} // verus!

