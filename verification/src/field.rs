//! The grid state: settled bricks on a bounded field, the collision oracle,
//! full-row detection, and the row-clear & cascade engine.

use vstd::prelude::*;

use crate::brick::{max_y, Brick, BrickColor, DeadBrick};
use crate::point::{touching, Point};

verus! {

/// The authoritative grid state: the settled bricks and the grid bounds
/// (both including the border).
#[verifier::ext_equal]
pub struct Field {
    pub bricks: Vec<DeadBrick>,
    pub height: u16,
    pub width: u16,
}

/// The cell at position `j` of settled brick `i`.
pub open spec fn cell_at(f: Field, i: int, j: int) -> Point {
    f.bricks@[i].vertices@[j]
}

pub open spec fn valid_cell(f: Field, i: int, j: int) -> bool {
    0 <= i < f.bricks@.len() && 0 <= j < f.bricks@[i].vertices@.len()
}

/// Some settled brick claims the coordinate `(x, y)`.
pub open spec fn occupied_at(f: Field, x: int, y: int) -> bool {
    exists|i: int, j: int|
        valid_cell(f, i, j) && (#[trigger] cell_at(f, i, j)).x == x && cell_at(f, i, j).y == y
}

/// A settled brick of colour `col` claims the coordinate `(x, y)`.
pub open spec fn occupied_with(f: Field, x: int, y: int, col: BrickColor) -> bool {
    exists|i: int, j: int|
        valid_cell(f, i, j) && (#[trigger] cell_at(f, i, j)).x == x && cell_at(f, i, j).y == y
            && f.bricks@[i].color == col
}

/// No coordinate is claimed twice, within one settled brick or across two.
pub open spec fn cells_distinct(f: Field) -> bool {
    forall|i: int, j: int, k: int, l: int|
        valid_cell(f, i, j) && valid_cell(f, k, l) && (i != k || j != l) ==> !(
        (#[trigger] cell_at(f, i, j)).x == (#[trigger] cell_at(f, k, l)).x && cell_at(f, i, j).y
            == cell_at(f, k, l).y)
}

/// Every settled cell lies inside the grid bounds.
pub open spec fn cells_in_bounds(f: Field) -> bool {
    forall|i: int, j: int|
        valid_cell(f, i, j) ==> 0 <= (#[trigger] cell_at(f, i, j)).x < f.width && 0 <= cell_at(
            f,
            i,
            j,
        ).y < f.height
}

/// A well-formed field: usable bounds, all cells inside them, and occupancy
/// claimed at most once per coordinate.
pub open spec fn field_inv(f: Field) -> bool {
    &&& f.width > 2
    &&& f.height > 2
    &&& cells_in_bounds(f)
    &&& cells_distinct(f)
}

/// Every interior column of `row` is occupied.
pub open spec fn row_full(f: Field, row: int) -> bool {
    forall|c: int| 1 <= c < f.width - 1 ==> #[trigger] occupied_at(f, c, row)
}

pub open spec fn has_full_row(f: Field) -> bool {
    exists|r: int| 0 <= r < f.height && #[trigger] row_full(f, r)
}

/// Some candidate point overlaps a settled cell.
pub open spec fn collides(f: Field, cand: Seq<Point>) -> bool {
    exists|k: int|
        0 <= k < cand.len() && occupied_at(f, (#[trigger] cand[k]).x as int, cand[k].y as int)
}

/// Total number of settled cells on the field.
pub open spec fn cells_count(bs: Seq<DeadBrick>) -> int
    decreases bs.len(),
{
    if bs.len() == 0 {
        0
    } else {
        cells_count(bs.drop_last()) + bs.last().vertices@.len()
    }
}

/// Creates an empty field with the given bounds.
pub fn create_field(width: u16, height: u16) -> (f: Field)
    ensures
        f.width == width,
        f.height == height,
        f.bricks@.len() == 0,
        width > 2 && height > 2 ==> field_inv(f),
        !has_full_row(f) || width <= 2,
{
    let f = Field { bricks: Vec::new(), height, width };
    proof {
        if f.width > 2 {
            assert forall|r: int| 0 <= r < f.height implies !row_full(f, r) by {
                assert(!occupied_at(f, 1, r));
            }
        }
    }
    f
}

/// Reports whether any candidate point overlaps any settled cell.
pub fn will_have_collision(vertices: &Vec<Point>, field: &Field) -> (r: bool)
    ensures
        r == collides(*field, vertices@),
{
    let nb = field.bricks.len();
    let mut i: usize = 0;
    while i < nb
        invariant
            nb == field.bricks@.len(),
            i <= nb,
            forall|i2: int, j2: int, k2: int|
                valid_cell(*field, i2, j2) && i2 < i && 0 <= k2 < vertices@.len() ==> !(
                (#[trigger] cell_at(*field, i2, j2)).x == (#[trigger] vertices@[k2]).x && cell_at(
                    *field,
                    i2,
                    j2,
                ).y == vertices@[k2].y),
        decreases nb - i,
    {
        let nv = field.bricks[i].vertices.len();
        let mut j: usize = 0;
        while j < nv
            invariant
                nb == field.bricks@.len(),
                i < nb,
                nv == field.bricks@[i as int].vertices@.len(),
                j <= nv,
                forall|i2: int, j2: int, k2: int|
                    valid_cell(*field, i2, j2) && i2 < i && 0 <= k2 < vertices@.len() ==> !(
                    (#[trigger] cell_at(*field, i2, j2)).x == (#[trigger] vertices@[k2]).x && cell_at(
                        *field,
                        i2,
                        j2,
                    ).y == vertices@[k2].y),
                forall|j2: int, k2: int|
                    0 <= j2 < j && 0 <= k2 < vertices@.len() ==> !(
                    (#[trigger] cell_at(*field, i as int, j2)).x == (#[trigger] vertices@[k2]).x
                        && cell_at(*field, i as int, j2).y == vertices@[k2].y),
            decreases nv - j,
        {
            let dead_ver = field.bricks[i].vertices[j];
            let nc = vertices.len();
            let mut k: usize = 0;
            while k < nc
                invariant
                    nb == field.bricks@.len(),
                    i < nb,
                    nv == field.bricks@[i as int].vertices@.len(),
                    j < nv,
                    nc == vertices@.len(),
                    k <= nc,
                    dead_ver == cell_at(*field, i as int, j as int),
                    forall|k2: int|
                        0 <= k2 < k ==> !(dead_ver.x == (#[trigger] vertices@[k2]).x && dead_ver.y
                            == vertices@[k2].y),
                decreases nc - k,
            {
                let new_ver = vertices[k];
                if dead_ver.x == new_ver.x && dead_ver.y == new_ver.y {
                    proof {
                        assert(occupied_at(
                            *field,
                            vertices@[k as int].x as int,
                            vertices@[k as int].y as int,
                        )) by {
                            assert(valid_cell(*field, i as int, j as int));
                        }
                    }
                    return true;
                }
                k += 1;
            }
            j += 1;
        }
        i += 1;
    }
    proof {
        assert forall|k: int|
            0 <= k < vertices@.len() implies !occupied_at(
            *field,
            (#[trigger] vertices@[k]).x as int,
            vertices@[k].y as int,
        ) by {
            if occupied_at(*field, vertices@[k].x as int, vertices@[k].y as int) {
                let (i2, j2) = choose|i2: int, j2: int|
                    valid_cell(*field, i2, j2) && (#[trigger] cell_at(*field, i2, j2)).x
                        == vertices@[k].x as int && cell_at(*field, i2, j2).y
                        == vertices@[k].y as int;
                assert(i2 < nb);
            }
        }
    }
    false
}

/// Reports whether the coordinate `(col, row)` is occupied by a settled cell.
pub fn does_vertex_exist(field: &Field, row: i32, col: i32) -> (r: bool)
    ensures
        r == occupied_at(*field, col as int, row as int),
{
    let nb = field.bricks.len();
    let mut i: usize = 0;
    while i < nb
        invariant
            nb == field.bricks@.len(),
            i <= nb,
            forall|i2: int, j2: int|
                valid_cell(*field, i2, j2) && i2 < i ==> !((#[trigger] cell_at(*field, i2, j2)).x
                    == col as int && cell_at(*field, i2, j2).y == row as int),
        decreases nb - i,
    {
        let nv = field.bricks[i].vertices.len();
        let mut j: usize = 0;
        while j < nv
            invariant
                nb == field.bricks@.len(),
                i < nb,
                nv == field.bricks@[i as int].vertices@.len(),
                j <= nv,
                forall|i2: int, j2: int|
                    valid_cell(*field, i2, j2) && i2 < i ==> !((#[trigger] cell_at(
                        *field,
                        i2,
                        j2,
                    )).x == col as int && cell_at(*field, i2, j2).y == row as int),
                forall|j2: int|
                    0 <= j2 < j ==> !((#[trigger] cell_at(*field, i as int, j2)).x == col as int
                        && cell_at(*field, i as int, j2).y == row as int),
            decreases nv - j,
        {
            let vertex = field.bricks[i].vertices[j];
            if vertex.x == col && vertex.y == row {
                proof {
                    assert(valid_cell(*field, i as int, j as int));
                    assert((cell_at(*field, i as int, j as int)).x == col as int && cell_at(
                        *field,
                        i as int,
                        j as int,
                    ).y == row as int);
                }
                return true;
            }
            j += 1;
        }
        i += 1;
    }
    proof {
        if occupied_at(*field, col as int, row as int) {
            let (i2, j2) = choose|i2: int, j2: int|
                valid_cell(*field, i2, j2) && (#[trigger] cell_at(*field, i2, j2)).x == col as int
                    && cell_at(*field, i2, j2).y == row as int;
            assert(i2 < nb);
        }
    }
    false
}

/// Collects the indices of all full rows, bottom to top (strictly decreasing).
pub fn find_full_rows(field: &Field) -> (rows: Vec<i32>)
    requires
        field.width > 2,
    ensures
        forall|k: int|
            0 <= k < rows@.len() ==> 0 <= #[trigger] rows@[k] < field.height && row_full(
                *field,
                rows@[k] as int,
            ),
        forall|r: int|
            0 <= r < field.height && #[trigger] row_full(*field, r) ==> rows@.contains(r as i32),
        forall|k1: int, k2: int| 0 <= k1 < k2 < rows@.len() ==> rows@[k1] > rows@[k2],
        rows@.len() == 0 ==> !has_full_row(*field),
{
    let mut rows: Vec<i32> = Vec::new();
    let mut row: u16 = field.height;
    while row > 0
        invariant
            field.width > 2,
            row <= field.height,
            forall|k: int|
                0 <= k < rows@.len() ==> row <= #[trigger] rows@[k] < field.height && row_full(
                    *field,
                    rows@[k] as int,
                ),
            forall|r: int|
                row <= r < field.height && #[trigger] row_full(*field, r) ==> rows@.contains(
                    r as i32,
                ),
            forall|k1: int, k2: int| 0 <= k1 < k2 < rows@.len() ==> rows@[k1] > rows@[k2],
        decreases row,
    {
        row = row - 1;
        let mut fills: bool = true;
        let mut col: u16 = 1;
        while fills && col < field.width - 1
            invariant
                field.width > 2,
                1 <= col <= field.width - 1,
                fills ==> forall|c: int| 1 <= c < col ==> #[trigger] occupied_at(
                    *field,
                    c,
                    row as int,
                ),
                !fills ==> !row_full(*field, row as int),
            decreases field.width - col + (if fills { 1int } else { 0int }),
        {
            fills = does_vertex_exist(field, row as i32, col as i32);
            if fills {
                col += 1;
            }
        }
        if fills {
            proof {
                assert(row_full(*field, row as int));
            }
            let ghost rows0 = rows@;
            rows.push(row as i32);
            proof {
                assert(rows@[rows@.len() - 1] == row as i32);
                assert forall|r: int|
                    row <= r < field.height && #[trigger] row_full(*field, r) implies
                    rows@.contains(r as i32) by {
                    if r == row {
                        assert(rows@[rows@.len() - 1] == r as i32);
                    } else {
                        let k = choose|k: int| 0 <= k < rows0.len() && rows0[k] == r as i32;
                        assert(rows@[k] == r as i32);
                    }
                }
            }
        }
    }
    proof {
        if rows@.len() == 0 && has_full_row(*field) {
            let r = choose|r: int| 0 <= r < field.height && #[trigger] row_full(*field, r);
            assert(rows@.contains(r as i32));
        }
    }
    rows
}

/// The coordinate `(x, y)` is occupied by a settled brick other than `ex`.
pub open spec fn occupied_by_other(f: Field, ex: int, x: int, y: int) -> bool {
    exists|i: int, j: int|
        valid_cell(f, i, j) && i != ex && (#[trigger] cell_at(f, i, j)).x == x && cell_at(
            f,
            i,
            j,
        ).y == y
}

/// Settled brick `idx` can move one row down: its lowest row stays inside the
/// grid and no cell of another brick blocks the lowered position.
pub open spec fn dead_can_descend(f: Field, idx: int) -> bool {
    &&& max_y(f.bricks@[idx].vertices@) + 1 < f.height
    &&& forall|j: int|
        0 <= j < f.bricks@[idx].vertices@.len() ==> !occupied_by_other(
            f,
            idx,
            (#[trigger] cell_at(f, idx, j)).x as int,
            cell_at(f, idx, j).y + 1,
        )
}

/// The falling brick, placed at `mn`, can move one row down: the master node
/// stays strictly inside the grid height and the lowered absolute cells are
/// all free.
pub open spec fn brick_can_descend(b: Brick, mn: Point, f: Field) -> bool {
    &&& mn.y + 1 < f.height
    &&& forall|k: int|
        0 <= k < b.vertices@.len() ==> !occupied_at(
            f,
            (#[trigger] b.vertices@[k]).x + mn.x,
            mn.y - b.vertices@[k].y + 1,
        )
}

/// Reports whether the falling brick could move one row down from the given
/// master node position.
pub fn can_descend_brick(brick: &Brick, master_node_pos: &Point, field: &Field) -> (r: bool)
    requires
        crate::brick::pts_in_range(brick.vertices@),
        -0x4000_0000 <= master_node_pos.x <= 0x4000_0000,
        -0x4000_0000 <= master_node_pos.y <= 0x4000_0000,
    ensures
        r == brick_can_descend(*brick, *master_node_pos, *field),
{
    let translated = crate::utility::get_screen_translated_vertices(
        &brick.vertices,
        master_node_pos,
    );
    let lowered = crate::utility::get_translated_vertices(&translated, &Point { x: 0, y: 1 });

    let r = ((master_node_pos.y + 1) < field.height as i32) && (!will_have_collision(
        &lowered,
        field,
    ));
    proof {
        assert forall|k: int| 0 <= k < brick.vertices@.len() implies (#[trigger] lowered@[k]).x
            == brick.vertices@[k].x + master_node_pos.x && lowered@[k].y == master_node_pos.y
            - brick.vertices@[k].y + 1 by {
            assert(translated@[k].x == brick.vertices@[k].x + master_node_pos.x);
        }
        if r {
            assert forall|k: int| 0 <= k < brick.vertices@.len() implies !occupied_at(
                *field,
                (#[trigger] brick.vertices@[k]).x + master_node_pos.x,
                master_node_pos.y - brick.vertices@[k].y + 1,
            ) by {
                assert(!occupied_at(*field, lowered@[k].x as int, lowered@[k].y as int));
            }
        } else if (master_node_pos.y + 1) < field.height as i32 {
            let k = choose|k: int|
                0 <= k < lowered@.len() && occupied_at(
                    *field,
                    (#[trigger] lowered@[k]).x as int,
                    lowered@[k].y as int,
                );
            assert(occupied_at(
                *field,
                brick.vertices@[k].x + master_node_pos.x,
                master_node_pos.y - brick.vertices@[k].y + 1,
            ));
        }
    }
    r
}

/// Reports whether settled brick `idx` can move one row down on the current
/// field.
pub fn can_descend_dead_brick(field: &Field, idx: usize) -> (r: bool)
    requires
        field_inv(*field),
        idx < field.bricks@.len(),
        field.bricks@[idx as int].vertices@.len() > 0,
    ensures
        r == dead_can_descend(*field, idx as int),
{
    let master_node_pos = crate::brick::find_dead_master_node(&field.bricks[idx].vertices);
    proof {
        crate::brick::lemma_extrema(field.bricks@[idx as int].vertices@);
        let a = choose|a: int|
            0 <= a < field.bricks@[idx as int].vertices@.len()
                && (#[trigger] field.bricks@[idx as int].vertices@[a]).y == max_y(
                field.bricks@[idx as int].vertices@,
            );
        assert(cell_at(*field, idx as int, a).y == max_y(field.bricks@[idx as int].vertices@));
        assert(master_node_pos.y < field.height);
    }

    if (master_node_pos.y + 1) >= field.height as i32 {
        return false;
    }

    let nb = field.bricks.len();
    let mut i: usize = 0;
    while i < nb
        invariant
            nb == field.bricks@.len(),
            field_inv(*field),
            idx < nb,
            i <= nb,
            forall|i2: int, j2: int, k2: int|
                valid_cell(*field, i2, j2) && i2 < i && i2 != idx && 0 <= k2
                    < field.bricks@[idx as int].vertices@.len() ==> !((#[trigger] cell_at(
                    *field,
                    i2,
                    j2,
                )).x == (#[trigger] cell_at(*field, idx as int, k2)).x && cell_at(*field, i2, j2).y
                    == cell_at(*field, idx as int, k2).y + 1),
        decreases nb - i,
    {
        if i != idx {
            let nv = field.bricks[i].vertices.len();
            let mut j: usize = 0;
            while j < nv
                invariant
                    nb == field.bricks@.len(),
                    field_inv(*field),
                    idx < nb,
                    i < nb,
                    i != idx,
                    nv == field.bricks@[i as int].vertices@.len(),
                    j <= nv,
                    forall|i2: int, j2: int, k2: int|
                        valid_cell(*field, i2, j2) && i2 < i && i2 != idx && 0 <= k2
                            < field.bricks@[idx as int].vertices@.len() ==> !((#[trigger] cell_at(
                            *field,
                            i2,
                            j2,
                        )).x == (#[trigger] cell_at(*field, idx as int, k2)).x && cell_at(
                            *field,
                            i2,
                            j2,
                        ).y == cell_at(*field, idx as int, k2).y + 1),
                    forall|j2: int, k2: int|
                        0 <= j2 < j && 0 <= k2 < field.bricks@[idx as int].vertices@.len() ==> !((
                        #[trigger] cell_at(*field, i as int, j2)).x == (#[trigger] cell_at(
                            *field,
                            idx as int,
                            k2,
                        )).x && cell_at(*field, i as int, j2).y == cell_at(
                            *field,
                            idx as int,
                            k2,
                        ).y + 1),
                decreases nv - j,
            {
                let ver = field.bricks[i].vertices[j];
                let nk = field.bricks[idx].vertices.len();
                let mut k: usize = 0;
                while k < nk
                    invariant
                        nb == field.bricks@.len(),
                        idx < nb,
                        i < nb,
                        i != idx,
                        nv == field.bricks@[i as int].vertices@.len(),
                        j < nv,
                        nk == field.bricks@[idx as int].vertices@.len(),
                        k <= nk,
                        ver == cell_at(*field, i as int, j as int),
                        cells_in_bounds(*field),
                        forall|k2: int|
                            0 <= k2 < k ==> !(ver.x == (#[trigger] cell_at(
                                *field,
                                idx as int,
                                k2,
                            )).x && ver.y == cell_at(*field, idx as int, k2).y + 1),
                    decreases nk - k,
                {
                    let new_ver = field.bricks[idx].vertices[k];
                    proof {
                        assert(valid_cell(*field, idx as int, k as int));
                        assert(cell_at(*field, idx as int, k as int).y < field.height);
                    }
                    if ver.x == new_ver.x && ver.y == new_ver.y + 1 {
                        proof {
                            assert(occupied_by_other(
                                *field,
                                idx as int,
                                cell_at(*field, idx as int, k as int).x as int,
                                cell_at(*field, idx as int, k as int).y + 1,
                            )) by {
                                assert(valid_cell(*field, i as int, j as int));
                                assert(cell_at(*field, i as int, j as int).x == cell_at(
                                    *field,
                                    idx as int,
                                    k as int,
                                ).x && cell_at(*field, i as int, j as int).y == cell_at(
                                    *field,
                                    idx as int,
                                    k as int,
                                ).y + 1);
                            }
                        }
                        return false;
                    }
                    k += 1;
                }
                j += 1;
            }
        }
        i += 1;
    }
    proof {
        assert forall|j: int|
            0 <= j < field.bricks@[idx as int].vertices@.len() implies !occupied_by_other(
            *field,
            idx as int,
            (#[trigger] cell_at(*field, idx as int, j)).x as int,
            cell_at(*field, idx as int, j).y + 1,
        ) by {
            if occupied_by_other(
                *field,
                idx as int,
                cell_at(*field, idx as int, j).x as int,
                cell_at(*field, idx as int, j).y + 1,
            ) {
                let (i2, j2) = choose|i2: int, j2: int|
                    valid_cell(*field, i2, j2) && i2 != idx && (#[trigger] cell_at(
                        *field,
                        i2,
                        j2,
                    )).x == cell_at(*field, idx as int, j).x as int && cell_at(*field, i2, j2).y
                        == cell_at(*field, idx as int, j).y + 1;
                assert(i2 < nb);
            }
        }
        crate::brick::lemma_extrema(field.bricks@[idx as int].vertices@);
        let a = choose|a: int|
            0 <= a < field.bricks@[idx as int].vertices@.len() && (#[trigger] field.bricks@[idx as int].vertices@[a]).y
                == max_y(field.bricks@[idx as int].vertices@);
    }
    true
}

/// `b` is `a` translated `k` rows downward, pointwise.
pub open spec fn shifted_down(a: Seq<Point>, b: Seq<Point>, k: int) -> bool {
    b.len() == a.len() && forall|j: int|
        0 <= j < a.len() ==> (#[trigger] b[j]).x == a[j].x && b[j].y == a[j].y + k
}

/// A uniform downward shift moves the bottom row down by the same amount.
pub proof fn lemma_max_y_shift(a: Seq<Point>, b: Seq<Point>, k: int)
    requires
        a.len() > 0,
        shifted_down(a, b, k),
    ensures
        max_y(b) == max_y(a) + k,
{
    crate::brick::lemma_extrema(a);
    crate::brick::lemma_extrema(b);
    let ja = choose|j: int| 0 <= j < a.len() && (#[trigger] a[j]).y == max_y(a);
    let jb = choose|j: int| 0 <= j < b.len() && (#[trigger] b[j]).y == max_y(b);
    assert(b[ja].y == max_y(a) + k);
    assert(b[jb].y == a[jb].y + k);
}

/// Lowers settled brick `idx` one row at a time for as long as it can
/// descend, and reports whether it moved at all. Every other brick is left
/// untouched, so a caller iterating over the bricks lowers each against the
/// same snapshot of the others.
pub fn did_lower_dead_brick(field: &mut Field, idx: usize) -> (r: bool)
    requires
        field_inv(*old(field)),
        idx < old(field).bricks@.len(),
        old(field).bricks@[idx as int].vertices@.len() > 0,
    ensures
        field_inv(*final(field)),
        final(field).width == old(field).width,
        final(field).height == old(field).height,
        final(field).bricks@.len() == old(field).bricks@.len(),
        forall|i: int|
            0 <= i < old(field).bricks@.len() && i != idx ==> final(field).bricks@[i] == old(
                field,
            ).bricks@[i],
        final(field).bricks@[idx as int].color == old(field).bricks@[idx as int].color,
        exists|k: int|
            0 <= k && shifted_down(
                old(field).bricks@[idx as int].vertices@,
                final(field).bricks@[idx as int].vertices@,
                k,
            ) && (r <==> k > 0),
        !dead_can_descend(*final(field), idx as int),
{
    let mut was_lowered = false;
    let ghost orig = field.bricks@[idx as int].vertices@;
    let ghost mut shift: int = 0;

    while can_descend_dead_brick(field, idx)
        invariant
            field_inv(*field),
            field.width == old(field).width,
            field.height == old(field).height,
            field.bricks@.len() == old(field).bricks@.len(),
            idx < field.bricks@.len(),
            field.bricks@[idx as int].vertices@.len() > 0,
            forall|i: int|
                0 <= i < old(field).bricks@.len() && i != idx ==> field.bricks@[i] == old(
                    field,
                ).bricks@[i],
            field.bricks@[idx as int].color == old(field).bricks@[idx as int].color,
            orig == old(field).bricks@[idx as int].vertices@,
            0 <= shift,
            shifted_down(orig, field.bricks@[idx as int].vertices@, shift),
            was_lowered <==> shift > 0,
        decreases field.height - max_y(field.bricks@[idx as int].vertices@),
    {
        was_lowered = true;
        let ghost pre = *field;
        let n = field.bricks[idx].vertices.len();
        let mut nv: Vec<Point> = Vec::new();
        let mut j: usize = 0;
        while j < n
            invariant
                idx < field.bricks@.len(),
                n == field.bricks@[idx as int].vertices@.len(),
                cells_in_bounds(*field),
                field.height > 2,
                j <= n,
                nv@.len() == j,
                forall|j2: int|
                    0 <= j2 < j ==> (#[trigger] nv@[j2]).x == cell_at(*field, idx as int, j2).x
                        && nv@[j2].y == cell_at(*field, idx as int, j2).y + 1,
            decreases n - j,
        {
            let p = field.bricks[idx].vertices[j];
            proof {
                assert(valid_cell(*field, idx as int, j as int));
                assert(cell_at(*field, idx as int, j as int).y < field.height);
            }
            nv.push(Point { x: p.x, y: p.y + 1 });
            j += 1;
        }
        let color = field.bricks[idx].color;
        field.bricks.set(idx, DeadBrick { vertices: nv, color });
        proof {
            shift = shift + 1;
            assert(shifted_down(pre.bricks@[idx as int].vertices@,
                field.bricks@[idx as int].vertices@, 1));
            lemma_max_y_shift(
                pre.bricks@[idx as int].vertices@,
                field.bricks@[idx as int].vertices@,
                1,
            );
            // the grid bound: the lowered cells stay inside, because the
            // pre-step bottom row was strictly above the floor
            assert(cells_in_bounds(*field)) by {
                crate::brick::lemma_extrema(pre.bricks@[idx as int].vertices@);
                assert forall|i: int, j2: int|
                    valid_cell(*field, i, j2) implies 0 <= (#[trigger] cell_at(*field, i, j2)).x
                    < field.width && 0 <= cell_at(*field, i, j2).y < field.height by {
                    if i == idx {
                        assert(cell_at(pre, i, j2).y <= max_y(pre.bricks@[idx as int].vertices@));
                    } else {
                        assert(cell_at(pre, i, j2) == cell_at(*field, i, j2));
                    }
                }
            }
            // occupancy stays unique: within the brick the shift is uniform,
            // and no other brick holds any of the lowered coordinates
            assert(cells_distinct(*field)) by {
                assert forall|i: int, j2: int, k: int, l: int|
                    valid_cell(*field, i, j2) && valid_cell(*field, k, l) && (i != k || j2 != l)
                    implies !((#[trigger] cell_at(*field, i, j2)).x == (#[trigger] cell_at(
                    *field,
                    k,
                    l,
                )).x && cell_at(*field, i, j2).y == cell_at(*field, k, l).y) by {
                    if i == idx && k == idx {
                        assert(cell_at(pre, i, j2).x == cell_at(*field, i, j2).x
                            && cell_at(pre, i, j2).y + 1 == cell_at(*field, i, j2).y);
                        assert(cell_at(pre, k, l).x == cell_at(*field, k, l).x
                            && cell_at(pre, k, l).y + 1 == cell_at(*field, k, l).y);
                    } else if i == idx {
                        if cell_at(*field, i, j2).x == cell_at(*field, k, l).x && cell_at(
                            *field,
                            i,
                            j2,
                        ).y == cell_at(*field, k, l).y {
                            assert(cell_at(pre, k, l) == cell_at(*field, k, l));
                            assert(occupied_by_other(pre, idx as int,
                                cell_at(pre, idx as int, j2).x as int,
                                cell_at(pre, idx as int, j2).y + 1));
                        }
                    } else if k == idx {
                        if cell_at(*field, i, j2).x == cell_at(*field, k, l).x && cell_at(
                            *field,
                            i,
                            j2,
                        ).y == cell_at(*field, k, l).y {
                            assert(cell_at(pre, i, j2) == cell_at(*field, i, j2));
                            assert(occupied_by_other(pre, idx as int,
                                cell_at(pre, idx as int, l).x as int,
                                cell_at(pre, idx as int, l).y + 1));
                        }
                    } else {
                        assert(cell_at(pre, i, j2) == cell_at(*field, i, j2));
                        assert(cell_at(pre, k, l) == cell_at(*field, k, l));
                    }
                }
            }
        }
    }
    was_lowered
}

/// Reports whether `y` is one of the collected row indices.
fn contains_row(rows: &Vec<i32>, y: i32) -> (r: bool)
    ensures
        r == rows@.contains(y),
{
    let n = rows.len();
    let mut k: usize = 0;
    while k < n
        invariant
            n == rows@.len(),
            k <= n,
            forall|k2: int| 0 <= k2 < k ==> rows@[k2] != y,
        decreases n - k,
    {
        if rows[k] == y {
            return true;
        }
        k += 1;
    }
    proof {
        if rows@.contains(y) {
            let k2 = choose|k2: int| 0 <= k2 < rows@.len() && rows@[k2] == y;
        }
    }
    false
}


/// The cell `p` survives a clear of the listed rows.
#[verifier::opaque]
pub open spec fn cell_kept(rows: Seq<i32>, p: Point) -> bool {
    !rows.contains(p.y)
}

/// The subsequence of `a` whose cells survive a clear of the listed rows,
/// order kept.
pub open spec fn kept_cells(rows: Seq<i32>, a: Seq<Point>) -> Seq<Point> {
    a.filter(|c: Point| cell_kept(rows, c))
}

/// `b` is `a` with exactly the cells of the listed rows dropped, order kept:
/// every cell of `b` is a kept cell of `a`, every kept cell of `a` appears in
/// `b`, the count shrinks (strictly if some cell was dropped), and `b` has no
/// duplicate coordinates provided `a` had none.
pub open spec fn group_filtered(rows: Seq<i32>, a: Seq<Point>, b: Seq<Point>) -> bool {
    &&& b == kept_cells(rows, a)
    &&& b.len() <= a.len()
    &&& forall|x: int| 0 <= x < b.len() ==> cell_kept(rows, #[trigger] b[x]) && a.contains(b[x])
    &&& forall|x: int| 0 <= x < a.len() && cell_kept(rows, #[trigger] a[x]) ==> b.contains(a[x])
    &&& (exists|x: int| 0 <= x < a.len() && !cell_kept(rows, #[trigger] a[x])) ==> b.len()
        < a.len()
    &&& forall|x: int, y: int|
        0 <= x < y < b.len() ==> !((#[trigger] b[x]).x == (#[trigger] b[y]).x && b[x].y == b[y].y)
}

/// Keeps exactly the cells that lie outside the listed rows, in order.
#[verifier::rlimit(100)]
fn filter_cells(v: &Vec<Point>, rows: &Vec<i32>) -> (nv: Vec<Point>)
    requires
        forall|j1: int, j2: int|
            0 <= j1 < j2 < v@.len() ==> !((#[trigger] v@[j1]).x == (#[trigger] v@[j2]).x
                && v@[j1].y == v@[j2].y),
    ensures
        group_filtered(rows@, v@, nv@),
{
    let n = v.len();
    let mut nv: Vec<Point> = Vec::new();
    proof {
        reveal(Seq::filter);
        assert(nv@ =~= kept_cells(rows@, v@.subrange(0, 0)));
    }
    let mut j: usize = 0;
    while j < n
        invariant
            n == v@.len(),
            j <= n,
            forall|j1: int, j2: int|
                0 <= j1 < j2 < v@.len() ==> !((#[trigger] v@[j1]).x == (#[trigger] v@[j2]).x
                    && v@[j1].y == v@[j2].y),
            nv@ == kept_cells(rows@, v@.subrange(0, j as int)),
            nv@.len() <= j,
            forall|a: int|
                0 <= a < nv@.len() ==> cell_kept(rows@, #[trigger] nv@[a]) && exists|j0: int|
                    0 <= j0 < j && #[trigger] v@[j0] == nv@[a],
            forall|j0: int|
                0 <= j0 < j && cell_kept(rows@, #[trigger] v@[j0]) ==> nv@.contains(v@[j0]),
            (exists|j0: int| 0 <= j0 < j && !cell_kept(rows@, #[trigger] v@[j0])) ==> nv@.len()
                < j,
            forall|a: int, b: int|
                0 <= a < b < nv@.len() ==> !((#[trigger] nv@[a]).x == (#[trigger] nv@[b]).x
                    && nv@[a].y == nv@[b].y),
        decreases n - j,
    {
        let p = v[j];
        let dropped = contains_row(rows, p.y);
        proof {
            reveal(cell_kept);
            assert(cell_kept(rows@, v@[j as int]) == !dropped);
            reveal(Seq::filter);
            assert(v@.subrange(0, j + 1).drop_last() =~= v@.subrange(0, j as int));
            assert(v@.subrange(0, j + 1).last() == v@[j as int]);
        }
        if !dropped {
            let ghost nv0 = nv@;
            nv.push(p);
            proof {
                assert(nv@[nv@.len() - 1] == v@[j as int]);
                assert forall|j0: int|
                    0 <= j0 < j + 1 && cell_kept(rows@, #[trigger] v@[j0]) implies nv@.contains(
                    v@[j0],
                ) by {
                    if j0 == j {
                        assert(nv@[nv@.len() - 1] == v@[j0]);
                    } else {
                        let a = choose|a: int| 0 <= a < nv0.len() && nv0[a] == v@[j0];
                        assert(nv@[a] == v@[j0]);
                    }
                }
                assert forall|a: int, b: int|
                    0 <= a < b < nv@.len() implies !((#[trigger] nv@[a]).x == (#[trigger] nv@[b]).x
                    && nv@[a].y == nv@[b].y) by {
                    if b == nv@.len() - 1 {
                        let j0 = choose|j0: int| 0 <= j0 < j && #[trigger] v@[j0] == nv@[a];
                        assert(!(v@[j0].x == v@[j as int].x && v@[j0].y == v@[j as int].y));
                    }
                }
            }
        }
        j += 1;
    }
    proof {
        assert(v@.subrange(0, n as int) =~= v@);
        assert forall|a: int| 0 <= a < nv@.len() implies cell_kept(rows@, #[trigger] nv@[a])
            && v@.contains(nv@[a]) by {
            let j0 = choose|j0: int| 0 <= j0 < n && #[trigger] v@[j0] == nv@[a];
        }
    }
    nv
}

/// Drops from every settled brick each cell whose row is listed in `rows`.
/// Bricks may become empty; they are removed by a later pass.
#[verifier::rlimit(100)]
pub fn remove_rows_cells(field: &mut Field, rows: &Vec<i32>)
    requires
        field_inv(*old(field)),
    ensures
        field_inv(*final(field)),
        final(field).width == old(field).width,
        final(field).height == old(field).height,
        final(field).bricks@.len() == old(field).bricks@.len(),
        forall|i: int|
            0 <= i < old(field).bricks@.len() ==> (#[trigger] final(field).bricks@[i]).color
                == old(field).bricks@[i].color,
        forall|i: int|
            0 <= i < old(field).bricks@.len() ==> #[trigger] group_filtered(
                rows@,
                old(field).bricks@[i].vertices@,
                final(field).bricks@[i].vertices@,
            ),
        forall|x: int, y: int|
            #[trigger] occupied_at(*final(field), x, y) ==> occupied_at(*old(field), x, y),
        forall|x: int, y: int, col: BrickColor|
            #[trigger] occupied_with(*final(field), x, y, col) ==> occupied_with(
                *old(field),
                x,
                y,
                col,
            ),
{
    let nb = field.bricks.len();
    let mut i: usize = 0;
    while i < nb
        invariant
            field_inv(*old(field)),
            nb == old(field).bricks@.len(),
            field.bricks@.len() == nb,
            field.width == old(field).width,
            field.height == old(field).height,
            i <= nb,
            forall|i2: int| i <= i2 < nb ==> field.bricks@[i2] == old(field).bricks@[i2],
            forall|i2: int|
                0 <= i2 < i ==> (#[trigger] field.bricks@[i2]).color == old(
                    field,
                ).bricks@[i2].color,
            forall|i2: int|
                0 <= i2 < i ==> #[trigger] group_filtered(
                    rows@,
                    old(field).bricks@[i2].vertices@,
                    field.bricks@[i2].vertices@,
                ),
        decreases nb - i,
    {
        let ghost g = field.bricks@[i as int].vertices@;
        proof {
            assert(g == old(field).bricks@[i as int].vertices@);
            assert forall|j1: int, j2: int|
                0 <= j1 < j2 < g.len() implies !((#[trigger] g[j1]).x == (#[trigger] g[j2]).x
                && g[j1].y == g[j2].y) by {
                assert(cell_at(*old(field), i as int, j1) == g[j1]);
                assert(cell_at(*old(field), i as int, j2) == g[j2]);
            }
        }
        let nv = filter_cells(&field.bricks[i].vertices, rows);
        let color = field.bricks[i].color;
        field.bricks.set(i, DeadBrick { vertices: nv, color });
        i += 1;
    }
    proof {
        assert forall|x: int, y: int|
            #[trigger] occupied_at(*field, x, y) implies occupied_at(*old(field), x, y) by {
            let (i2, j2) = choose|i2: int, j2: int|
                valid_cell(*field, i2, j2) && (#[trigger] cell_at(*field, i2, j2)).x == x
                    && cell_at(*field, i2, j2).y == y;
            assert(group_filtered(rows@, old(field).bricks@[i2].vertices@,
                field.bricks@[i2].vertices@));
            assert(old(field).bricks@[i2].vertices@.contains(cell_at(*field, i2, j2)));
            let j0 = choose|j0: int|
                0 <= j0 < old(field).bricks@[i2].vertices@.len()
                    && old(field).bricks@[i2].vertices@[j0] == cell_at(*field, i2, j2);
            assert(cell_at(*old(field), i2, j0) == cell_at(*field, i2, j2));
            assert(valid_cell(*old(field), i2, j0));
        }
        assert forall|x: int, y: int, col: BrickColor|
            #[trigger] occupied_with(*field, x, y, col) implies occupied_with(
            *old(field),
            x,
            y,
            col,
        ) by {
            let (i2, j2) = choose|i2: int, j2: int|
                valid_cell(*field, i2, j2) && (#[trigger] cell_at(*field, i2, j2)).x == x
                    && cell_at(*field, i2, j2).y == y && field.bricks@[i2].color == col;
            assert(group_filtered(rows@, old(field).bricks@[i2].vertices@,
                field.bricks@[i2].vertices@));
            assert(old(field).bricks@[i2].vertices@.contains(cell_at(*field, i2, j2)));
            let j0 = choose|j0: int|
                0 <= j0 < old(field).bricks@[i2].vertices@.len()
                    && old(field).bricks@[i2].vertices@[j0] == cell_at(*field, i2, j2);
            assert(cell_at(*old(field), i2, j0) == cell_at(*field, i2, j2));
            assert(valid_cell(*old(field), i2, j0));
            assert(old(field).bricks@[i2].color == col);
        }
        assert(cells_in_bounds(*field)) by {
            assert forall|i2: int, j: int|
                valid_cell(*field, i2, j) implies 0 <= (#[trigger] cell_at(*field, i2, j)).x
                < field.width && 0 <= cell_at(*field, i2, j).y < field.height by {
                assert(group_filtered(rows@, old(field).bricks@[i2].vertices@,
                    field.bricks@[i2].vertices@));
                assert(old(field).bricks@[i2].vertices@.contains(cell_at(*field, i2, j)));
                let j0 = choose|j0: int|
                    0 <= j0 < old(field).bricks@[i2].vertices@.len()
                        && old(field).bricks@[i2].vertices@[j0] == cell_at(*field, i2, j);
                assert(cell_at(*old(field), i2, j0) == cell_at(*field, i2, j));
                assert(valid_cell(*old(field), i2, j0));
            }
        }
        assert(cells_distinct(*field)) by {
            assert forall|i2: int, j: int, k: int, l: int|
                valid_cell(*field, i2, j) && valid_cell(*field, k, l) && (i2 != k || j != l)
                implies !((#[trigger] cell_at(*field, i2, j)).x == (#[trigger] cell_at(
                *field,
                k,
                l,
            )).x && cell_at(*field, i2, j).y == cell_at(*field, k, l).y) by {
                assert(group_filtered(rows@, old(field).bricks@[i2].vertices@,
                    field.bricks@[i2].vertices@));
                assert(group_filtered(rows@, old(field).bricks@[k].vertices@,
                    field.bricks@[k].vertices@));
                if i2 != k {
                    assert(old(field).bricks@[i2].vertices@.contains(cell_at(*field, i2, j)));
                    assert(old(field).bricks@[k].vertices@.contains(cell_at(*field, k, l)));
                    let j0 = choose|j0: int|
                        0 <= j0 < old(field).bricks@[i2].vertices@.len()
                            && old(field).bricks@[i2].vertices@[j0] == cell_at(*field, i2, j);
                    let l0 = choose|l0: int|
                        0 <= l0 < old(field).bricks@[k].vertices@.len()
                            && old(field).bricks@[k].vertices@[l0] == cell_at(*field, k, l);
                    assert(cell_at(*old(field), i2, j0) == cell_at(*field, i2, j));
                    assert(cell_at(*old(field), k, l0) == cell_at(*field, k, l));
                    assert(valid_cell(*old(field), i2, j0) && valid_cell(*old(field), k, l0));
                    assert(!(cell_at(*old(field), i2, j0).x == cell_at(*old(field), k, l0).x
                        && cell_at(*old(field), i2, j0).y == cell_at(*old(field), k, l0).y));
                } else {
                    assert(cell_at(*field, i2, j) == field.bricks@[i2].vertices@[j]);
                    assert(cell_at(*field, k, l) == field.bricks@[i2].vertices@[l]);
                }
            }
        }
    }
}

/// No coordinate is claimed twice across a brick sequence.
pub open spec fn bricks_distinct(bs: Seq<DeadBrick>) -> bool {
    forall|i: int, j: int, k: int, l: int|
        0 <= i < bs.len() && 0 <= j < bs[i].vertices@.len() && 0 <= k < bs.len() && 0 <= l
            < bs[k].vertices@.len() && (i != k || j != l) ==> !(
        (#[trigger] bs[i].vertices@[j]).x == (#[trigger] bs[k].vertices@[l]).x
            && bs[i].vertices@[j].y == bs[k].vertices@[l].y)
}

/// The field-level and sequence-level statements of occupancy uniqueness
/// coincide.
pub proof fn lemma_distinct_bridge(f: Field)
    ensures
        cells_distinct(f) <==> bricks_distinct(f.bricks@),
{
    let bs = f.bricks@;
    if cells_distinct(f) {
        assert forall|i: int, j: int, k: int, l: int|
            0 <= i < bs.len() && 0 <= j < bs[i].vertices@.len() && 0 <= k < bs.len() && 0 <= l
                < bs[k].vertices@.len() && (i != k || j != l) implies !(
        (#[trigger] bs[i].vertices@[j]).x == (#[trigger] bs[k].vertices@[l]).x
            && bs[i].vertices@[j].y == bs[k].vertices@[l].y) by {
            assert(cell_at(f, i, j) == bs[i].vertices@[j]);
            assert(cell_at(f, k, l) == bs[k].vertices@[l]);
            assert(valid_cell(f, i, j) && valid_cell(f, k, l));
        }
    }
    if bricks_distinct(bs) {
        assert forall|i: int, j: int, k: int, l: int|
            valid_cell(f, i, j) && valid_cell(f, k, l) && (i != k || j != l) implies !(
        (#[trigger] cell_at(f, i, j)).x == (#[trigger] cell_at(f, k, l)).x && cell_at(f, i, j).y
            == cell_at(f, k, l).y) by {
            assert(cell_at(f, i, j) == bs[i].vertices@[j]);
            assert(cell_at(f, k, l) == bs[k].vertices@[l]);
        }
    }
}

/// The subsequence of the bricks that still hold at least one cell, order
/// kept.
pub open spec fn nonempty_bricks(bs: Seq<DeadBrick>) -> Seq<DeadBrick> {
    bs.filter(|b: DeadBrick| b.vertices@.len() > 0)
}

/// Deletes every settled brick whose cell set has become empty, keeping the
/// survivors in their original order.
#[verifier::rlimit(100)]
pub fn remove_empty_bricks(field: &mut Field)
    requires
        field_inv(*old(field)),
    ensures
        field_inv(*final(field)),
        final(field).width == old(field).width,
        final(field).height == old(field).height,
        forall|a: int|
            0 <= a < final(field).bricks@.len()
                ==> (#[trigger] final(field).bricks@[a]).vertices@.len() > 0
                && old(field).bricks@.contains(final(field).bricks@[a]),
        forall|o: int|
            0 <= o < old(field).bricks@.len() && (#[trigger] old(field).bricks@[o]).vertices@.len()
                > 0 ==> final(field).bricks@.contains(old(field).bricks@[o]),
        final(field).bricks@ == nonempty_bricks(old(field).bricks@),
        cells_count(final(field).bricks@) == cells_count(old(field).bricks@),
        forall|x: int, y: int|
            #[trigger] occupied_at(*final(field), x, y) <==> occupied_at(*old(field), x, y),
        forall|x: int, y: int, col: BrickColor|
            #[trigger] occupied_with(*final(field), x, y, col) <==> occupied_with(
                *old(field),
                x,
                y,
                col,
            ),
{
    let ghost orig = field.bricks@;
    let mut new_bricks: Vec<DeadBrick> = Vec::new();
    proof {
        reveal(Seq::filter);
        assert(new_bricks@ =~= nonempty_bricks(orig.subrange(0, 0)));
    }
    let ghost mut p: int = 0;
    while field.bricks.len() > 0
        invariant
            field_inv(*old(field)),
            field.width == old(field).width,
            field.height == old(field).height,
            orig == old(field).bricks@,
            0 <= p <= orig.len(),
            field.bricks@ == orig.subrange(p, orig.len() as int),
            new_bricks@ == nonempty_bricks(orig.subrange(0, p)),
            forall|a: int|
                0 <= a < new_bricks@.len() ==> (#[trigger] new_bricks@[a]).vertices@.len() > 0
                    && exists|o: int| 0 <= o < p && orig[o] == new_bricks@[a],
            forall|o: int|
                0 <= o < p && (#[trigger] orig[o]).vertices@.len() > 0 ==> new_bricks@.contains(
                    orig[o],
                ),
            bricks_distinct(new_bricks@),
            cells_count(new_bricks@) == cells_count(orig.subrange(0, p)),
        decreases field.bricks@.len(),
    {
        let b = field.bricks.remove(0);
        proof {
            assert(b == orig[p]);
            assert(field.bricks@ == orig.subrange(p, orig.len() as int).remove(0));
            assert(field.bricks@ =~= orig.subrange(p + 1, orig.len() as int));
            assert(orig.subrange(0, p + 1).drop_last() =~= orig.subrange(0, p));
            assert(orig.subrange(0, p + 1).last() == orig[p]);
            reveal(Seq::filter);
        }
        if b.vertices.len() > 0 {
            let ghost nb0 = new_bricks@;
            new_bricks.push(b);
            proof {
                assert(new_bricks@[new_bricks@.len() - 1] == orig[p]);
                assert(new_bricks@.drop_last() =~= nb0);
                assert forall|o: int|
                    0 <= o < p + 1 && (#[trigger] orig[o]).vertices@.len() > 0 implies
                    new_bricks@.contains(orig[o]) by {
                    if o == p {
                        assert(new_bricks@[new_bricks@.len() - 1] == orig[o]);
                    } else {
                        let a = choose|a: int| 0 <= a < nb0.len() && nb0[a] == orig[o];
                        assert(new_bricks@[a] == orig[o]);
                    }
                }
                assert forall|a: int, j: int, c: int, l: int|
                    0 <= a < new_bricks@.len() && 0 <= j < new_bricks@[a].vertices@.len() && 0 <= c
                        < new_bricks@.len() && 0 <= l < new_bricks@[c].vertices@.len() && (a != c
                        || j != l) implies !((#[trigger] new_bricks@[a].vertices@[j]).x
                    == (#[trigger] new_bricks@[c].vertices@[l]).x && new_bricks@[a].vertices@[j].y
                    == new_bricks@[c].vertices@[l].y) by {
                    let last = new_bricks@.len() - 1;
                    if a < last && c < last {
                        assert(nb0[a].vertices@[j] == new_bricks@[a].vertices@[j]);
                        assert(nb0[c].vertices@[l] == new_bricks@[c].vertices@[l]);
                    } else if a == last && c == last {
                        assert(cell_at(*old(field), p, j) == new_bricks@[a].vertices@[j]);
                        assert(cell_at(*old(field), p, l) == new_bricks@[c].vertices@[l]);
                        assert(valid_cell(*old(field), p, j) && valid_cell(*old(field), p, l));
                    } else if a == last {
                        let o = choose|o: int| 0 <= o < p && orig[o] == new_bricks@[c];
                        assert(cell_at(*old(field), p, j) == new_bricks@[a].vertices@[j]);
                        assert(cell_at(*old(field), o, l) == new_bricks@[c].vertices@[l]);
                        assert(valid_cell(*old(field), p, j) && valid_cell(*old(field), o, l));
                    } else {
                        let o = choose|o: int| 0 <= o < p && orig[o] == new_bricks@[a];
                        assert(cell_at(*old(field), o, j) == new_bricks@[a].vertices@[j]);
                        assert(cell_at(*old(field), p, l) == new_bricks@[c].vertices@[l]);
                        assert(valid_cell(*old(field), o, j) && valid_cell(*old(field), p, l));
                    }
                }
            }
        }
        proof {
            p = p + 1;
        }
    }
    field.bricks = new_bricks;
    proof {
        assert(orig.subrange(0, orig.len() as int) =~= orig);
        assert(cells_in_bounds(*field)) by {
            assert forall|i: int, j: int|
                valid_cell(*field, i, j) implies 0 <= (#[trigger] cell_at(*field, i, j)).x
                < field.width && 0 <= cell_at(*field, i, j).y < field.height by {
                let o = choose|o: int| 0 <= o < orig.len() && orig[o] == field.bricks@[i];
                assert(cell_at(*old(field), o, j) == cell_at(*field, i, j));
                assert(valid_cell(*old(field), o, j));
            }
        }
        assert(cells_distinct(*field)) by {
            lemma_distinct_bridge(*field);
        }
        assert forall|x: int, y: int|
            #[trigger] occupied_at(*field, x, y) <==> occupied_at(*old(field), x, y) by {
            if occupied_at(*field, x, y) {
                let (i, j) = choose|i: int, j: int|
                    valid_cell(*field, i, j) && (#[trigger] cell_at(*field, i, j)).x == x
                        && cell_at(*field, i, j).y == y;
                let o = choose|o: int| 0 <= o < orig.len() && orig[o] == field.bricks@[i];
                assert(cell_at(*old(field), o, j) == cell_at(*field, i, j));
                assert(valid_cell(*old(field), o, j));
            }
            if occupied_at(*old(field), x, y) {
                let (o, j) = choose|o: int, j: int|
                    valid_cell(*old(field), o, j) && (#[trigger] cell_at(*old(field), o, j)).x == x
                        && cell_at(*old(field), o, j).y == y;
                assert(orig[o].vertices@.len() > 0);
                assert(field.bricks@.contains(orig[o]));
                let a = choose|a: int| 0 <= a < field.bricks@.len() && field.bricks@[a] == orig[o];
                assert(cell_at(*field, a, j) == cell_at(*old(field), o, j));
                assert(valid_cell(*field, a, j));
            }
        }
        assert forall|x: int, y: int, col: BrickColor|
            #[trigger] occupied_with(*field, x, y, col) <==> occupied_with(
            *old(field),
            x,
            y,
            col,
        ) by {
            if occupied_with(*field, x, y, col) {
                let (i, j) = choose|i: int, j: int|
                    valid_cell(*field, i, j) && (#[trigger] cell_at(*field, i, j)).x == x
                        && cell_at(*field, i, j).y == y && field.bricks@[i].color == col;
                let o = choose|o: int| 0 <= o < orig.len() && orig[o] == field.bricks@[i];
                assert(cell_at(*old(field), o, j) == cell_at(*field, i, j));
                assert(valid_cell(*old(field), o, j));
                assert(old(field).bricks@[o].color == col);
            }
            if occupied_with(*old(field), x, y, col) {
                let (o, j) = choose|o: int, j: int|
                    valid_cell(*old(field), o, j) && (#[trigger] cell_at(*old(field), o, j)).x == x
                        && cell_at(*old(field), o, j).y == y && old(field).bricks@[o].color == col;
                assert(orig[o].vertices@.len() > 0);
                assert(field.bricks@.contains(orig[o]));
                let a = choose|a: int| 0 <= a < field.bricks@.len() && field.bricks@[a] == orig[o];
                assert(cell_at(*field, a, j) == cell_at(*old(field), o, j));
                assert(valid_cell(*field, a, j));
                assert(field.bricks@[a].color == col);
            }
        }
    }
}

/// The cell `c` touches at least one other cell of the group `s`.
pub open spec fn has_neighbor_in(c: Point, s: Seq<Point>) -> bool {
    exists|j: int| 0 <= j < s.len() && s[j] != c && touching(c, #[trigger] s[j])
}





/// Tests whether the cell at `idx` touches any other cell of the same group.
pub fn cell_has_neighbor(v: &Vec<Point>, idx: usize) -> (r: bool)
    requires
        idx < v@.len(),
    ensures
        r == has_neighbor_in(v@[idx as int], v@),
{
    let c = v[idx];
    let n = v.len();
    let mut j: usize = 0;
    while j < n
        invariant
            n == v@.len(),
            idx < n,
            j <= n,
            c == v@[idx as int],
            forall|j2: int|
                0 <= j2 < j ==> !(#[trigger] v@[j2] != c && touching(c, v@[j2])),
        decreases n - j,
    {
        let other = v[j];
        if !(other.x == c.x && other.y == c.y) && crate::point::are_touching(&c, &other) {
            proof {
                assert(v@[j as int] != c && touching(c, v@[j as int]));
            }
            return true;
        }
        j += 1;
    }
    proof {
        if has_neighbor_in(c, v@) {
            let j2 = choose|j2: int| 0 <= j2 < v@.len() && v@[j2] != c && touching(c, #[trigger] v@[j2]);
        }
    }
    false
}

/// Some brick of the sequence is exactly the singleton `c` with colour `col`.
pub open spec fn singleton_in_bricks(bs: Seq<DeadBrick>, c: Point, col: BrickColor) -> bool {
    exists|a: int|
        0 <= a < bs.len() && (#[trigger] bs[a]).vertices@ == seq![c] && bs[a].color == col
}

/// The cells of `a` that touch some other cell of the universe `u`, order
/// kept.
pub open spec fn keeps_within(a: Seq<Point>, u: Seq<Point>) -> Seq<Point> {
    a.filter(|c: Point| has_neighbor_in(c, u))
}

/// The cells of `a` that touch no other cell of the universe `u`, order kept.
pub open spec fn drops_within(a: Seq<Point>, u: Seq<Point>) -> Seq<Point> {
    a.filter(|c: Point| !has_neighbor_in(c, u))
}

/// What connectivity repair leaves inside a brick: a brick of at most one
/// cell stays whole, a larger one keeps exactly the cells that touch another
/// of its own cells.
pub open spec fn peel_remnant(a: Seq<Point>) -> Seq<Point> {
    if a.len() <= 1 {
        a
    } else {
        keeps_within(a, a)
    }
}

/// Membership facts of the two peel filters: kept cells touch a neighbour,
/// dropped cells touch none, both come from `a`, and every cell of `a` lands
/// on its side.
pub proof fn lemma_peel_filters(a: Seq<Point>, u: Seq<Point>)
    ensures
        keeps_within(a, u).len() <= a.len(),
        drops_within(a, u).len() <= a.len(),
        forall|i: int|
            0 <= i < keeps_within(a, u).len() ==> has_neighbor_in(
                #[trigger] keeps_within(a, u)[i],
                u,
            ) && a.contains(keeps_within(a, u)[i]),
        forall|i: int|
            0 <= i < drops_within(a, u).len() ==> !has_neighbor_in(
                #[trigger] drops_within(a, u)[i],
                u,
            ) && a.contains(drops_within(a, u)[i]),
        forall|j: int|
            0 <= j < a.len() && has_neighbor_in(#[trigger] a[j], u) ==> keeps_within(
                a,
                u,
            ).contains(a[j]),
        forall|j: int|
            0 <= j < a.len() && !has_neighbor_in(#[trigger] a[j], u) ==> drops_within(
                a,
                u,
            ).contains(a[j]),
    decreases a.len(),
{
    reveal(Seq::filter);
    let ks = keeps_within(a, u);
    let ds = drops_within(a, u);
    if a.len() > 0 {
        lemma_peel_filters(a.drop_last(), u);
        let ksd = keeps_within(a.drop_last(), u);
        let dsd = drops_within(a.drop_last(), u);
        assert forall|i: int|
            0 <= i < ks.len() implies has_neighbor_in(#[trigger] ks[i], u) && a.contains(
            ks[i],
        ) by {
            if has_neighbor_in(a.last(), u) && i == ks.len() - 1 {
                assert(ks[i] == a.last());
                assert(a[a.len() - 1] == a.last());
            } else {
                assert(ks[i] == ksd[i]);
                let j = choose|j: int| 0 <= j < a.drop_last().len() && a.drop_last()[j] == ksd[i];
                assert(a[j] == ks[i]);
            }
        }
        assert forall|i: int|
            0 <= i < ds.len() implies !has_neighbor_in(#[trigger] ds[i], u) && a.contains(
            ds[i],
        ) by {
            if !has_neighbor_in(a.last(), u) && i == ds.len() - 1 {
                assert(ds[i] == a.last());
                assert(a[a.len() - 1] == a.last());
            } else {
                assert(ds[i] == dsd[i]);
                let j = choose|j: int| 0 <= j < a.drop_last().len() && a.drop_last()[j] == dsd[i];
                assert(a[j] == ds[i]);
            }
        }
        assert forall|j: int|
            0 <= j < a.len() && has_neighbor_in(#[trigger] a[j], u) implies ks.contains(a[j]) by {
            if j == a.len() - 1 {
                assert(ks[ks.len() - 1] == a[j]);
            } else {
                assert(a.drop_last()[j] == a[j]);
                assert(ksd.contains(a[j]));
                let i = choose|i: int| 0 <= i < ksd.len() && ksd[i] == a[j];
                assert(ks[i] == a[j]);
            }
        }
        assert forall|j: int|
            0 <= j < a.len() && !has_neighbor_in(#[trigger] a[j], u) implies ds.contains(a[j]) by {
            if j == a.len() - 1 {
                assert(ds[ds.len() - 1] == a[j]);
            } else {
                assert(a.drop_last()[j] == a[j]);
                assert(dsd.contains(a[j]));
                let i = choose|i: int| 0 <= i < dsd.len() && dsd[i] == a[j];
                assert(ds[i] == a[j]);
            }
        }
    }
}

/// On a brick with pairwise distinct cells the two peel filters are pairwise
/// distinct too, within each side and across the sides.
pub proof fn lemma_peel_filters_distinct(a: Seq<Point>, u: Seq<Point>)
    requires
        forall|i: int, j: int| 0 <= i < j < a.len() ==> #[trigger] a[i] != #[trigger] a[j],
    ensures
        forall|i: int, j: int|
            0 <= i < j < keeps_within(a, u).len() ==> #[trigger] keeps_within(a, u)[i]
                != #[trigger] keeps_within(a, u)[j],
        forall|i: int, j: int|
            0 <= i < j < drops_within(a, u).len() ==> #[trigger] drops_within(a, u)[i]
                != #[trigger] drops_within(a, u)[j],
        forall|i: int, j: int|
            0 <= i < keeps_within(a, u).len() && 0 <= j < drops_within(a, u).len()
                ==> #[trigger] keeps_within(a, u)[i] != #[trigger] drops_within(a, u)[j],
    decreases a.len(),
{
    reveal(Seq::filter);
    let ks = keeps_within(a, u);
    let ds = drops_within(a, u);
    lemma_peel_filters(a, u);
    assert forall|i: int, j: int|
        0 <= i < ks.len() && 0 <= j < ds.len() implies #[trigger] ks[i] != #[trigger] ds[j] by {
        assert(has_neighbor_in(ks[i], u) && !has_neighbor_in(ds[j], u));
    }
    if a.len() > 0 {
        lemma_peel_filters(a.drop_last(), u);
        assert forall|i: int, j: int|
            0 <= i < j < a.drop_last().len() implies #[trigger] a.drop_last()[i]
            != #[trigger] a.drop_last()[j] by {
            assert(a.drop_last()[i] == a[i] && a.drop_last()[j] == a[j]);
        }
        lemma_peel_filters_distinct(a.drop_last(), u);
        let ksd = keeps_within(a.drop_last(), u);
        let dsd = drops_within(a.drop_last(), u);
        assert forall|i: int, j: int|
            0 <= i < j < ks.len() implies #[trigger] ks[i] != #[trigger] ks[j] by {
            if has_neighbor_in(a.last(), u) && j == ks.len() - 1 {
                assert(ks[j] == a.last());
                assert(ks[i] == ksd[i]);
                let j2 = choose|j2: int|
                    0 <= j2 < a.drop_last().len() && a.drop_last()[j2] == ksd[i];
                assert(a[j2] == ks[i] && a[a.len() - 1] == a.last());
            } else {
                assert(ks[i] == ksd[i] && ks[j] == ksd[j]);
            }
        }
        assert forall|i: int, j: int|
            0 <= i < j < ds.len() implies #[trigger] ds[i] != #[trigger] ds[j] by {
            if !has_neighbor_in(a.last(), u) && j == ds.len() - 1 {
                assert(ds[j] == a.last());
                assert(ds[i] == dsd[i]);
                let j2 = choose|j2: int|
                    0 <= j2 < a.drop_last().len() && a.drop_last()[j2] == dsd[i];
                assert(a[j2] == ds[i] && a[a.len() - 1] == a.last());
            } else {
                assert(ds[i] == dsd[i] && ds[j] == dsd[j]);
            }
        }
    }
}

/// Replacing one brick changes the cell count by the difference of the two
/// bricks.
pub proof fn lemma_cells_count_update(bs: Seq<DeadBrick>, i: int, nb: DeadBrick)
    requires
        0 <= i < bs.len(),
    ensures
        cells_count(bs.update(i, nb)) == cells_count(bs) - bs[i].vertices@.len()
            + nb.vertices@.len(),
    decreases bs.len(),
{
    if i == bs.len() - 1 {
        assert(bs.update(i, nb).drop_last() =~= bs.drop_last());
        assert(bs.update(i, nb).last() == nb);
    } else {
        lemma_cells_count_update(bs.drop_last(), i, nb);
        assert(bs.update(i, nb).drop_last() =~= bs.drop_last().update(i, nb));
        assert(bs.update(i, nb).last() == bs.last());
    }
}

/// Cell counting splits across any cut of the brick sequence.
pub proof fn lemma_cells_count_split(bs: Seq<DeadBrick>, k: int)
    requires
        0 <= k <= bs.len(),
    ensures
        cells_count(bs) == cells_count(bs.subrange(0, k)) + cells_count(
            bs.subrange(k, bs.len() as int),
        ),
    decreases bs.len(),
{
    if k == bs.len() {
        assert(bs.subrange(0, k) =~= bs);
        assert(bs.subrange(k, bs.len() as int).len() == 0);
    } else {
        let dl = bs.drop_last();
        lemma_cells_count_split(dl, k);
        assert(dl.subrange(0, k) =~= bs.subrange(0, k));
        assert(bs.subrange(k, bs.len() as int).drop_last() =~= dl.subrange(k, dl.len() as int));
        assert(bs.subrange(k, bs.len() as int).last() == bs.last());
    }
}

/// A sequence of singleton bricks holds exactly one cell per brick.
pub proof fn lemma_cells_count_ones(bs: Seq<DeadBrick>)
    requires
        forall|a: int| 0 <= a < bs.len() ==> (#[trigger] bs[a]).vertices@.len() == 1,
    ensures
        cells_count(bs) == bs.len(),
    decreases bs.len(),
{
    if bs.len() > 0 {
        lemma_cells_count_ones(bs.drop_last());
    }
}

/// Splits a brick's cells into those that touch another cell of the same
/// brick and those that touch none, order kept on both sides.
pub fn partition_group(v: &Vec<Point>) -> (r: (Vec<Point>, Vec<Point>))
    ensures
        r.0@ == keeps_within(v@, v@),
        r.1@ == drops_within(v@, v@),
        r.0@.len() + r.1@.len() == v@.len(),
{
    let n = v.len();
    let mut kept: Vec<Point> = Vec::new();
    let mut peeled: Vec<Point> = Vec::new();
    proof {
        reveal(Seq::filter);
        assert(kept@ =~= keeps_within(v@.subrange(0, 0), v@));
        assert(peeled@ =~= drops_within(v@.subrange(0, 0), v@));
    }
    let mut j: usize = 0;
    while j < n
        invariant
            n == v@.len(),
            j <= n,
            kept@ == keeps_within(v@.subrange(0, j as int), v@),
            peeled@ == drops_within(v@.subrange(0, j as int), v@),
            kept@.len() + peeled@.len() == j,
        decreases n - j,
    {
        let has = cell_has_neighbor(v, j);
        let p = v[j];
        proof {
            reveal(Seq::filter);
            assert(v@.subrange(0, j + 1).drop_last() =~= v@.subrange(0, j as int));
            assert(v@.subrange(0, j + 1).last() == v@[j as int]);
        }
        if has {
            kept.push(p);
        } else {
            peeled.push(p);
        }
        j += 1;
    }
    proof {
        assert(v@.subrange(0, n as int) =~= v@);
    }
    (kept, peeled)
}

/// Each collected singleton holds one neighbourless cell of a larger brick
/// among the first `upto`, with that brick's colour.
pub open spec fn singles_from(orig: Seq<DeadBrick>, upto: int, s: Seq<DeadBrick>) -> bool {
    forall|k: int|
        0 <= k < s.len() ==> (#[trigger] s[k]).vertices@.len() == 1 && exists|o: int, j0: int|
            0 <= o < upto && 0 <= j0 < orig[o].vertices@.len() && orig[o].vertices@.len() > 1
                && #[trigger] orig[o].vertices@[j0] == s[k].vertices@[0] && !has_neighbor_in(
                orig[o].vertices@[j0],
                orig[o].vertices@,
            ) && orig[o].color == s[k].color
}

/// Every neighbourless cell of a larger brick among the first `upto` has a
/// singleton of its own in `s`.
pub open spec fn singles_cover(orig: Seq<DeadBrick>, upto: int, s: Seq<DeadBrick>) -> bool {
    forall|o: int, j0: int|
        0 <= o < upto && 0 <= j0 < orig[o].vertices@.len() && orig[o].vertices@.len() > 1
            && !has_neighbor_in(#[trigger] orig[o].vertices@[j0], orig[o].vertices@)
            ==> singleton_in_bricks(s, orig[o].vertices@[j0], orig[o].color)
}

/// One peel step: appending one singleton per peeled cell of brick `i` to a
/// collection drawn from the earlier bricks keeps the collection's origin,
/// coverage and distinctness.
#[verifier::rlimit(100)]
proof fn lemma_peel_step(
    f0: Field,
    orig: Seq<DeadBrick>,
    i: int,
    s0: Seq<DeadBrick>,
    sn: Seq<DeadBrick>,
    pseq: Seq<Point>,
)
    requires
        field_inv(f0),
        orig == f0.bricks@,
        0 <= i < orig.len(),
        orig[i].vertices@.len() > 1,
        pseq == drops_within(orig[i].vertices@, orig[i].vertices@),
        sn.len() == s0.len() + pseq.len(),
        forall|k: int| 0 <= k < s0.len() ==> #[trigger] sn[k] == s0[k],
        forall|k2: int|
            s0.len() <= k2 < sn.len() ==> (#[trigger] sn[k2]).vertices@ == seq![
                pseq[k2 - s0.len()],
            ] && sn[k2].color == orig[i].color,
        singles_from(orig, i, s0),
        singles_cover(orig, i, s0),
        bricks_distinct(s0),
    ensures
        singles_from(orig, i + 1, sn),
        singles_cover(orig, i + 1, sn),
        bricks_distinct(sn),
{
    let base = s0.len() as int;
    let g = orig[i].vertices@;
    assert forall|j1: int, j2: int|
        0 <= j1 < j2 < g.len() implies #[trigger] g[j1] != #[trigger] g[j2] by {
        assert(cell_at(f0, i, j1) == g[j1]);
        assert(cell_at(f0, i, j2) == g[j2]);
        assert(valid_cell(f0, i, j1) && valid_cell(f0, i, j2));
    }
    lemma_peel_filters(g, g);
    lemma_peel_filters_distinct(g, g);
    assert(singles_from(orig, i + 1, sn)) by {
        assert forall|k: int|
            0 <= k < sn.len() implies (#[trigger] sn[k]).vertices@.len() == 1 && exists|
            o: int,
            j0: int,
        |
            0 <= o < i + 1 && 0 <= j0 < orig[o].vertices@.len() && orig[o].vertices@.len() > 1
                && #[trigger] orig[o].vertices@[j0] == sn[k].vertices@[0] && !has_neighbor_in(
                orig[o].vertices@[j0],
                orig[o].vertices@,
            ) && orig[o].color == sn[k].color by {
            if k < base {
                assert(sn[k] == s0[k]);
                let (o, j0) = choose|o: int, j0: int|
                    0 <= o < i && 0 <= j0 < orig[o].vertices@.len() && orig[o].vertices@.len() > 1
                        && #[trigger] orig[o].vertices@[j0] == s0[k].vertices@[0]
                        && !has_neighbor_in(orig[o].vertices@[j0], orig[o].vertices@)
                        && orig[o].color == s0[k].color;
                assert(orig[o].vertices@[j0] == sn[k].vertices@[0]);
            } else {
                let s2 = k - base;
                assert(sn[k].vertices@ == seq![pseq[s2]]);
                assert(!has_neighbor_in(pseq[s2], g) && g.contains(pseq[s2]));
                let j0 = choose|j0: int| 0 <= j0 < g.len() && g[j0] == pseq[s2];
                assert(orig[i].vertices@[j0] == sn[k].vertices@[0]);
            }
        }
    }
    assert(singles_cover(orig, i + 1, sn)) by {
        assert forall|o: int, j0: int|
            0 <= o < i + 1 && 0 <= j0 < orig[o].vertices@.len() && orig[o].vertices@.len() > 1
                && !has_neighbor_in(#[trigger] orig[o].vertices@[j0], orig[o].vertices@) implies
            singleton_in_bricks(sn, orig[o].vertices@[j0], orig[o].color) by {
            if o < i {
                assert(singleton_in_bricks(s0, orig[o].vertices@[j0], orig[o].color));
                let a = choose|a: int|
                    0 <= a < s0.len() && (#[trigger] s0[a]).vertices@ == seq![
                        orig[o].vertices@[j0],
                    ] && s0[a].color == orig[o].color;
                assert(sn[a] == s0[a]);
            } else {
                assert(drops_within(g, g).contains(g[j0]));
                let s2 = choose|s2: int| 0 <= s2 < pseq.len() && pseq[s2] == g[j0];
                assert(sn[base + s2].vertices@ == seq![g[j0]]);
            }
        }
    }
    assert(bricks_distinct(sn)) by {
        assert forall|a1: int, j1: int, a2: int, j2: int|
            0 <= a1 < sn.len() && 0 <= j1 < sn[a1].vertices@.len() && 0 <= a2 < sn.len() && 0 <= j2
                < sn[a2].vertices@.len() && (a1 != a2 || j1 != j2) implies !(
        (#[trigger] sn[a1].vertices@[j1]).x == (#[trigger] sn[a2].vertices@[j2]).x
            && sn[a1].vertices@[j1].y == sn[a2].vertices@[j2].y) by {
            let c1 = sn[a1].vertices@[j1];
            let c2 = sn[a2].vertices@[j2];
            let (o1, l1) = choose|o: int, j0: int|
                0 <= o < i + 1 && 0 <= j0 < orig[o].vertices@.len() && orig[o].vertices@.len() > 1
                    && #[trigger] orig[o].vertices@[j0] == sn[a1].vertices@[0]
                    && !has_neighbor_in(orig[o].vertices@[j0], orig[o].vertices@) && orig[o].color
                    == sn[a1].color;
            let (o2, l2) = choose|o: int, j0: int|
                0 <= o < i + 1 && 0 <= j0 < orig[o].vertices@.len() && orig[o].vertices@.len() > 1
                    && #[trigger] orig[o].vertices@[j0] == sn[a2].vertices@[0]
                    && !has_neighbor_in(orig[o].vertices@[j0], orig[o].vertices@) && orig[o].color
                    == sn[a2].color;
            assert(j1 == 0 && j2 == 0);
            assert(c1 == cell_at(f0, o1, l1));
            assert(c2 == cell_at(f0, o2, l2));
            assert(valid_cell(f0, o1, l1) && valid_cell(f0, o2, l2));
            if o1 == o2 && l1 == l2 {
                // two singleton slots would hold the very same cell; the
                // batch holds pairwise distinct peeled cells and earlier
                // entries come from other bricks
                if a1 < base && a2 < base {
                    assert(sn[a1] == s0[a1] && sn[a2] == s0[a2]);
                    assert(!(s0[a1].vertices@[0].x == s0[a2].vertices@[0].x
                        && s0[a1].vertices@[0].y == s0[a2].vertices@[0].y));
                    assert(false);
                } else if a1 >= base && a2 >= base {
                    assert(c1 == pseq[a1 - base] && c2 == pseq[a2 - base]);
                    assert(pseq[a1 - base] != pseq[a2 - base]);
                    assert(false);
                } else {
                    let ai: int = if a1 < base {
                        a1
                    } else {
                        a2
                    };
                    let (oi, li) = choose|o: int, j0: int|
                        0 <= o < i && 0 <= j0 < orig[o].vertices@.len()
                            && orig[o].vertices@.len() > 1 && #[trigger] orig[o].vertices@[j0]
                            == s0[ai].vertices@[0] && !has_neighbor_in(
                            orig[o].vertices@[j0],
                            orig[o].vertices@,
                        ) && orig[o].color == s0[ai].color;
                    let aj: int = if a1 < base {
                        a2
                    } else {
                        a1
                    };
                    assert(sn[ai] == s0[ai]);
                    let cj = sn[aj].vertices@[0];
                    assert(cj == pseq[aj - base]);
                    assert(g.contains(pseq[aj - base]));
                    let lj = choose|l: int| 0 <= l < g.len() && g[l] == pseq[aj - base];
                    assert(s0[ai].vertices@[0] == cell_at(f0, oi, li));
                    assert(cj == cell_at(f0, i, lj));
                    assert(valid_cell(f0, oi, li) && valid_cell(f0, i, lj));
                    assert(oi < i);
                    assert(false);
                }
            }
        }
    }
}

/// The peel proper: shrinks every brick of more than one cell to the cells
/// that keep a neighbour, and hands back one singleton brick per peeled cell.
/// The peeled cells leave the field, so none of the returned singletons
/// overlaps it.
#[verifier::rlimit(100)]
fn peel_cells(field: &mut Field) -> (singles: Vec<DeadBrick>)
    requires
        field_inv(*old(field)),
    ensures
        field_inv(*final(field)),
        final(field).width == old(field).width,
        final(field).height == old(field).height,
        final(field).bricks@.len() == old(field).bricks@.len(),
        forall|i: int|
            0 <= i < old(field).bricks@.len() ==> (#[trigger] final(field).bricks@[i]).vertices@
                == peel_remnant(old(field).bricks@[i].vertices@) && final(field).bricks@[i].color
                == old(field).bricks@[i].color,
        singles_from(old(field).bricks@, old(field).bricks@.len() as int, singles@),
        singles_cover(old(field).bricks@, old(field).bricks@.len() as int, singles@),
        bricks_distinct(singles@),
        forall|k: int|
            0 <= k < singles@.len() ==> (#[trigger] singles@[k]).vertices@.len() == 1
                && !occupied_at(
                *final(field),
                singles@[k].vertices@[0].x as int,
                singles@[k].vertices@[0].y as int,
            ) && 0 <= singles@[k].vertices@[0].x < final(field).width && 0
                <= singles@[k].vertices@[0].y < final(field).height,
        cells_count(final(field).bricks@) + singles@.len() == cells_count(old(field).bricks@),
{
    let ghost orig = old(field).bricks@;
    let mut singles: Vec<DeadBrick> = Vec::new();
    let nb = field.bricks.len();
    let mut i: usize = 0;
    while i < nb
        invariant
            field_inv(*old(field)),
            orig == old(field).bricks@,
            nb == orig.len(),
            field.bricks@.len() == nb,
            field.width == old(field).width,
            field.height == old(field).height,
            i <= nb,
            forall|i2: int| i <= i2 < nb ==> field.bricks@[i2] == orig[i2],
            forall|i2: int|
                0 <= i2 < i ==> (#[trigger] field.bricks@[i2]).vertices@ == peel_remnant(
                    orig[i2].vertices@,
                ) && field.bricks@[i2].color == orig[i2].color,
            singles_from(orig, i as int, singles@),
            singles_cover(orig, i as int, singles@),
            bricks_distinct(singles@),
            cells_count(field.bricks@) + singles@.len() == cells_count(orig),
        decreases nb - i,
    {
        let ghost g = orig[i as int].vertices@;
        proof {
            assert(field.bricks@[i as int] == orig[i as int]);
        }
        let n_i = field.bricks[i].vertices.len();
        if n_i > 1 {
            let (kept, peeled) = partition_group(&field.bricks[i].vertices);
            let ghost pseq = peeled@;
            let color = field.bricks[i].color;
            let ghost pre = *field;
            field.bricks.set(i, DeadBrick { vertices: kept, color });
            proof {
                lemma_cells_count_update(pre.bricks@, i as int, field.bricks@[i as int]);
            }
            let ghost s0 = singles@;
            let ghost base = singles@.len() as int;
            let ns = peeled.len();
            let mut s: usize = 0;
            while s < ns
                invariant
                    ns == pseq.len(),
                    peeled@ == pseq,
                    s <= ns,
                    singles@.len() == base + s,
                    0 <= base == s0.len(),
                    forall|k: int| 0 <= k < base ==> #[trigger] singles@[k] == s0[k],
                    forall|k2: int|
                        base <= k2 < base + s ==> (#[trigger] singles@[k2]).vertices@ == seq![
                            pseq[k2 - base],
                        ] && singles@[k2].color == color,
                decreases ns - s,
            {
                let mut sv: Vec<Point> = Vec::new();
                sv.push(peeled[s]);
                proof {
                    assert(sv@ =~= seq![pseq[s as int]]);
                }
                singles.push(DeadBrick { vertices: sv, color });
                proof {
                    assert(singles@[base + s as int].vertices@ == seq![pseq[s as int]]);
                }
                s += 1;
            }
            proof {
                lemma_peel_step(*old(field), orig, i as int, s0, singles@, pseq);
                assert(cells_count(field.bricks@) + singles@.len() == cells_count(orig)) by {
                    assert(field.bricks@[i as int].vertices@.len() + pseq.len() == g.len());
                }
                assert forall|i2: int|
                    0 <= i2 < i + 1 implies (#[trigger] field.bricks@[i2]).vertices@
                    == peel_remnant(orig[i2].vertices@) && field.bricks@[i2].color
                    == orig[i2].color by {
                    if i2 == i {
                        assert(field.bricks@[i2].vertices@ == keeps_within(g, g));
                    }
                }
            }
        } else {
            proof {
                assert(peel_remnant(g) == g);
                assert(singles_from(orig, i + 1, singles@)) by {
                    assert forall|k: int|
                        0 <= k < singles@.len() implies (#[trigger] singles@[k]).vertices@.len()
                        == 1 && exists|o: int, j0: int|
                        0 <= o < i + 1 && 0 <= j0 < orig[o].vertices@.len()
                            && orig[o].vertices@.len() > 1 && #[trigger] orig[o].vertices@[j0]
                            == singles@[k].vertices@[0] && !has_neighbor_in(
                            orig[o].vertices@[j0],
                            orig[o].vertices@,
                        ) && orig[o].color == singles@[k].color by {
                        let (o, j0) = choose|o: int, j0: int|
                            0 <= o < i && 0 <= j0 < orig[o].vertices@.len()
                                && orig[o].vertices@.len() > 1 && #[trigger] orig[o].vertices@[j0]
                                == singles@[k].vertices@[0] && !has_neighbor_in(
                                orig[o].vertices@[j0],
                                orig[o].vertices@,
                            ) && orig[o].color == singles@[k].color;
                    }
                }
            }
        }
        i += 1;
    }
    proof {
        assert forall|i2: int, j: int|
            valid_cell(*field, i2, j) implies orig[i2].vertices@.contains(
            #[trigger] cell_at(*field, i2, j),
        ) by {
            let a = orig[i2].vertices@;
            if a.len() <= 1 {
                assert(cell_at(*field, i2, j) == a[j]);
            } else {
                lemma_peel_filters(a, a);
                assert(cell_at(*field, i2, j) == keeps_within(a, a)[j]);
            }
        }
        assert(cells_in_bounds(*field)) by {
            assert forall|i2: int, j: int|
                valid_cell(*field, i2, j) implies 0 <= (#[trigger] cell_at(*field, i2, j)).x
                < field.width && 0 <= cell_at(*field, i2, j).y < field.height by {
                let j0 = choose|j0: int|
                    0 <= j0 < orig[i2].vertices@.len() && orig[i2].vertices@[j0] == cell_at(
                        *field,
                        i2,
                        j,
                    );
                assert(cell_at(*old(field), i2, j0) == cell_at(*field, i2, j));
                assert(valid_cell(*old(field), i2, j0));
            }
        }
        assert(cells_distinct(*field)) by {
            assert forall|i2: int, j: int, k: int, l: int|
                valid_cell(*field, i2, j) && valid_cell(*field, k, l) && (i2 != k || j != l)
                implies !((#[trigger] cell_at(*field, i2, j)).x == (#[trigger] cell_at(
                *field,
                k,
                l,
            )).x && cell_at(*field, i2, j).y == cell_at(*field, k, l).y) by {
                if i2 == k {
                    let a = orig[i2].vertices@;
                    assert forall|j1: int, j2: int|
                        0 <= j1 < j2 < a.len() implies #[trigger] a[j1] != #[trigger] a[j2] by {
                        assert(cell_at(*old(field), i2, j1) == a[j1]);
                        assert(cell_at(*old(field), i2, j2) == a[j2]);
                    }
                    if a.len() <= 1 {
                        assert(cell_at(*field, i2, j) == a[j] && cell_at(*field, k, l) == a[l]);
                        assert(cell_at(*old(field), i2, j) == a[j]);
                        assert(cell_at(*old(field), i2, l) == a[l]);
                    } else {
                        lemma_peel_filters_distinct(a, a);
                        assert(cell_at(*field, i2, j) == keeps_within(a, a)[j]);
                        assert(cell_at(*field, k, l) == keeps_within(a, a)[l]);
                        assert(keeps_within(a, a)[j] != keeps_within(a, a)[l]);
                    }
                } else {
                    let j0 = choose|j0: int|
                        0 <= j0 < orig[i2].vertices@.len() && orig[i2].vertices@[j0] == cell_at(
                            *field,
                            i2,
                            j,
                        );
                    let l0 = choose|l0: int|
                        0 <= l0 < orig[k].vertices@.len() && orig[k].vertices@[l0] == cell_at(
                            *field,
                            k,
                            l,
                        );
                    assert(cell_at(*old(field), i2, j0) == cell_at(*field, i2, j));
                    assert(cell_at(*old(field), k, l0) == cell_at(*field, k, l));
                    assert(valid_cell(*old(field), i2, j0) && valid_cell(*old(field), k, l0));
                }
            }
        }
        assert forall|k: int|
            0 <= k < singles@.len() implies (#[trigger] singles@[k]).vertices@.len() == 1
            && !occupied_at(
            *field,
            singles@[k].vertices@[0].x as int,
            singles@[k].vertices@[0].y as int,
        ) && 0 <= singles@[k].vertices@[0].x < field.width && 0 <= singles@[k].vertices@[0].y
            < field.height by {
            let (o, j0) = choose|o: int, j0: int|
                0 <= o < nb && 0 <= j0 < orig[o].vertices@.len() && orig[o].vertices@.len() > 1
                    && #[trigger] orig[o].vertices@[j0] == singles@[k].vertices@[0]
                    && !has_neighbor_in(orig[o].vertices@[j0], orig[o].vertices@)
                    && orig[o].color == singles@[k].color;
            let c = singles@[k].vertices@[0];
            assert(cell_at(*old(field), o, j0) == c);
            assert(valid_cell(*old(field), o, j0));
            if occupied_at(*field, c.x as int, c.y as int) {
                let (i2, j) = choose|i2: int, j: int|
                    valid_cell(*field, i2, j) && (#[trigger] cell_at(*field, i2, j)).x == c.x
                        && cell_at(*field, i2, j).y == c.y;
                let j1 = choose|j1: int|
                    0 <= j1 < orig[i2].vertices@.len() && orig[i2].vertices@[j1] == cell_at(
                        *field,
                        i2,
                        j,
                    );
                assert(cell_at(*old(field), i2, j1) == cell_at(*field, i2, j));
                assert(valid_cell(*old(field), i2, j1));
                if i2 != o || j1 != j0 {
                    assert(false);
                } else {
                    // the surviving copy would be the peeled cell itself,
                    // which the remnant filter excluded
                    let a = orig[o].vertices@;
                    assert(a.len() > 1);
                    lemma_peel_filters(a, a);
                    assert(cell_at(*field, i2, j) == keeps_within(a, a)[j]);
                    assert(has_neighbor_in(keeps_within(a, a)[j], a));
                    assert(keeps_within(a, a)[j] == a[j0]);
                    assert(false);
                }
            }
        }
    }
    singles
}

/// Appends prepared singleton bricks whose cells are free, inside the grid,
/// and pairwise distinct; the brick list simply grows by them, in order.
#[verifier::rlimit(100)]
fn push_singletons(field: &mut Field, singles: Vec<DeadBrick>)
    requires
        field_inv(*old(field)),
        bricks_distinct(singles@),
        forall|k: int|
            0 <= k < singles@.len() ==> (#[trigger] singles@[k]).vertices@.len() == 1
                && !occupied_at(
                *old(field),
                singles@[k].vertices@[0].x as int,
                singles@[k].vertices@[0].y as int,
            ) && 0 <= singles@[k].vertices@[0].x < old(field).width && 0
                <= singles@[k].vertices@[0].y < old(field).height,
    ensures
        field_inv(*final(field)),
        final(field).width == old(field).width,
        final(field).height == old(field).height,
        final(field).bricks@ == old(field).bricks@ + singles@,
{
    let ghost s_all = singles@;
    let mut rest = singles;
    proof {
        assert(field.bricks@ =~= old(field).bricks@ + s_all.subrange(0, 0));
        assert(rest@ == s_all.subrange(0, s_all.len() as int));
    }
    let ghost mut p: int = 0;
    while rest.len() > 0
        invariant
            field_inv(*old(field)),
            field_inv(*field),
            field.width == old(field).width,
            field.height == old(field).height,
            bricks_distinct(s_all),
            forall|k: int|
                0 <= k < s_all.len() ==> (#[trigger] s_all[k]).vertices@.len() == 1 && 0
                    <= s_all[k].vertices@[0].x < old(field).width && 0 <= s_all[k].vertices@[0].y
                    < old(field).height,
            0 <= p <= s_all.len(),
            field.bricks@ == old(field).bricks@ + s_all.subrange(0, p),
            rest@ == s_all.subrange(p, s_all.len() as int),
            forall|k: int|
                p <= k < s_all.len() ==> !occupied_at(
                    *field,
                    (#[trigger] s_all[k]).vertices@[0].x as int,
                    s_all[k].vertices@[0].y as int,
                ),
        decreases rest@.len(),
    {
        let b = rest.remove(0);
        let ghost pre = *field;
        proof {
            assert(b == s_all[p]);
            assert(rest@ =~= s_all.subrange(p + 1, s_all.len() as int));
        }
        field.bricks.push(b);
        proof {
            let ghost c = s_all[p].vertices@[0];
            assert(field.bricks@ =~= old(field).bricks@ + s_all.subrange(0, p + 1));
            let last = field.bricks@.len() - 1;
            assert(field.bricks@[last] == s_all[p]);
            assert forall|i2: int, j2: int|
                0 <= i2 < last && valid_cell(*field, i2, j2) implies cell_at(*field, i2, j2)
                == cell_at(pre, i2, j2) && valid_cell(pre, i2, j2) by {}
            assert(cells_in_bounds(*field)) by {
                assert forall|i2: int, j2: int|
                    valid_cell(*field, i2, j2) implies 0 <= (#[trigger] cell_at(*field, i2, j2)).x
                    < field.width && 0 <= cell_at(*field, i2, j2).y < field.height by {
                    if i2 == last {
                        assert(cell_at(*field, i2, j2) == c);
                    } else {
                        assert(cell_at(*field, i2, j2) == cell_at(pre, i2, j2));
                        assert(valid_cell(pre, i2, j2));
                    }
                }
            }
            assert(cells_distinct(*field)) by {
                assert forall|i2: int, j2: int, k2: int, l2: int|
                    valid_cell(*field, i2, j2) && valid_cell(*field, k2, l2) && (i2 != k2 || j2
                        != l2) implies !((#[trigger] cell_at(*field, i2, j2)).x
                    == (#[trigger] cell_at(*field, k2, l2)).x && cell_at(*field, i2, j2).y
                    == cell_at(*field, k2, l2).y) by {
                    if i2 == last && k2 == last {
                        assert(j2 == 0 && l2 == 0);
                        assert(false);
                    } else if i2 == last {
                        if cell_at(*field, i2, j2).x == cell_at(*field, k2, l2).x && cell_at(
                            *field,
                            i2,
                            j2,
                        ).y == cell_at(*field, k2, l2).y {
                            assert(cell_at(pre, k2, l2) == cell_at(*field, k2, l2));
                            assert(occupied_at(pre, c.x as int, c.y as int));
                            assert(false);
                        }
                    } else if k2 == last {
                        if cell_at(*field, i2, j2).x == cell_at(*field, k2, l2).x && cell_at(
                            *field,
                            i2,
                            j2,
                        ).y == cell_at(*field, k2, l2).y {
                            assert(cell_at(pre, i2, j2) == cell_at(*field, i2, j2));
                            assert(occupied_at(pre, c.x as int, c.y as int));
                            assert(false);
                        }
                    } else {
                        assert(cell_at(pre, i2, j2) == cell_at(*field, i2, j2));
                        assert(cell_at(pre, k2, l2) == cell_at(*field, k2, l2));
                    }
                }
            }
            assert forall|k: int|
                p + 1 <= k < s_all.len() implies !occupied_at(
                *field,
                (#[trigger] s_all[k]).vertices@[0].x as int,
                s_all[k].vertices@[0].y as int,
            ) by {
                let ck = s_all[k].vertices@[0];
                if occupied_at(*field, ck.x as int, ck.y as int) {
                    let (i2, j2) = choose|i2: int, j2: int|
                        valid_cell(*field, i2, j2) && (#[trigger] cell_at(*field, i2, j2)).x
                            == ck.x as int && cell_at(*field, i2, j2).y == ck.y as int;
                    if i2 == last {
                        assert(cell_at(*field, i2, j2) == c);
                        assert(!(c.x == ck.x && c.y == ck.y));
                        assert(false);
                    } else {
                        assert(cell_at(pre, i2, j2) == cell_at(*field, i2, j2));
                        assert(occupied_at(pre, ck.x as int, ck.y as int));
                        assert(false);
                    }
                }
            }
            p = p + 1;
        }
    }
    proof {
        assert(s_all.subrange(0, s_all.len() as int) =~= s_all);
    }
}

/// Connectivity repair: every cell that touches no other cell of its own
/// brick, in a brick of more than one cell, is peeled out and reinserted as a
/// brand-new singleton brick inheriting the colour. The test is a local
/// isolation check against the brick's own cells, not a connected-component
/// decomposition: two cells adjacent to each other but cut off from the rest
/// of their brick stay together.
#[verifier::rlimit(100)]
pub fn split_disconnected_subbricks(field: &mut Field)
    requires
        field_inv(*old(field)),
    ensures
        field_inv(*final(field)),
        final(field).width == old(field).width,
        final(field).height == old(field).height,
        final(field).bricks@.len() >= old(field).bricks@.len(),
        // each original brick keeps exactly its cells that touch another of
        // its own, in order; a brick of at most one cell stays whole
        forall|i: int|
            0 <= i < old(field).bricks@.len() ==> (#[trigger] final(field).bricks@[i]).vertices@
                == peel_remnant(old(field).bricks@[i].vertices@) && final(field).bricks@[i].color
                == old(field).bricks@[i].color,
        // everything appended is a singleton holding a peeled cell
        singles_from(
            old(field).bricks@,
            old(field).bricks@.len() as int,
            final(field).bricks@.subrange(
                old(field).bricks@.len() as int,
                final(field).bricks@.len() as int,
            ),
        ),
        // a neighbourless cell of a larger brick always ends up isolated in
        // its own brick, with the old brick's colour
        forall|o: int, j0: int|
            valid_cell(*old(field), o, j0) && old(field).bricks@[o].vertices@.len() > 1
                && !has_neighbor_in(
                #[trigger] cell_at(*old(field), o, j0),
                old(field).bricks@[o].vertices@,
            ) ==> singleton_in_bricks(
                final(field).bricks@,
                cell_at(*old(field), o, j0),
                old(field).bricks@[o].color,
            ),
        // a cell that keeps a neighbour, or sits in a brick of one cell,
        // stays with its brick
        forall|o: int, j0: int|
            valid_cell(*old(field), o, j0) && (old(field).bricks@[o].vertices@.len() <= 1
                || has_neighbor_in(
                #[trigger] cell_at(*old(field), o, j0),
                old(field).bricks@[o].vertices@,
            )) ==> final(field).bricks@[o].vertices@.contains(cell_at(*old(field), o, j0)),
        // occupancy is rearranged between bricks, never changed, colour kept
        forall|x: int, y: int|
            #[trigger] occupied_at(*final(field), x, y) <==> occupied_at(*old(field), x, y),
        forall|x: int, y: int, col: BrickColor|
            #[trigger] occupied_with(*final(field), x, y, col) <==> occupied_with(
                *old(field),
                x,
                y,
                col,
            ),
        cells_count(final(field).bricks@) == cells_count(old(field).bricks@),
{
    let ghost orig = old(field).bricks@;
    let ghost n0 = old(field).bricks@.len() as int;
    let singles = peel_cells(field);
    let ghost s_all = singles@;
    let ghost mid = *field;
    push_singletons(field, singles);
    proof {
        assert(field.bricks@ == mid.bricks@ + s_all);
        assert(field.bricks@.subrange(0, n0) =~= mid.bricks@);
        assert(field.bricks@.subrange(n0, field.bricks@.len() as int) =~= s_all);
        assert(cells_count(field.bricks@) == cells_count(orig)) by {
            lemma_cells_count_split(field.bricks@, n0);
            lemma_cells_count_ones(s_all);
        }
        assert forall|o: int, j0: int|
            valid_cell(*old(field), o, j0) && orig[o].vertices@.len() > 1 && !has_neighbor_in(
                #[trigger] cell_at(*old(field), o, j0),
                orig[o].vertices@,
            ) implies singleton_in_bricks(
            field.bricks@,
            cell_at(*old(field), o, j0),
            orig[o].color,
        ) by {
            assert(singleton_in_bricks(s_all, orig[o].vertices@[j0], orig[o].color));
            let a = choose|a: int|
                0 <= a < s_all.len() && (#[trigger] s_all[a]).vertices@ == seq![
                    orig[o].vertices@[j0],
                ] && s_all[a].color == orig[o].color;
            assert(field.bricks@[n0 + a] == s_all[a]);
        }
        assert forall|o: int, j0: int|
            valid_cell(*old(field), o, j0) && (orig[o].vertices@.len() <= 1 || has_neighbor_in(
                #[trigger] cell_at(*old(field), o, j0),
                orig[o].vertices@,
            )) implies field.bricks@[o].vertices@.contains(cell_at(*old(field), o, j0)) by {
            let a = orig[o].vertices@;
            assert(field.bricks@[o].vertices@ == peel_remnant(a));
            if a.len() <= 1 {
                assert(peel_remnant(a)[j0] == a[j0]);
            } else {
                lemma_peel_filters(a, a);
                assert(keeps_within(a, a).contains(a[j0]));
            }
        }
        assert forall|x: int, y: int|
            #[trigger] occupied_at(*field, x, y) <==> occupied_at(*old(field), x, y) by {
            if occupied_at(*field, x, y) {
                let (i, j) = choose|i: int, j: int|
                    valid_cell(*field, i, j) && (#[trigger] cell_at(*field, i, j)).x == x
                        && cell_at(*field, i, j).y == y;
                if i < n0 {
                    let a = orig[i].vertices@;
                    assert(cell_at(*field, i, j) == peel_remnant(a)[j]);
                    if a.len() <= 1 {
                        assert(cell_at(*old(field), i, j) == cell_at(*field, i, j));
                        assert(valid_cell(*old(field), i, j));
                    } else {
                        lemma_peel_filters(a, a);
                        assert(a.contains(keeps_within(a, a)[j]));
                        let j0 = choose|j0: int| 0 <= j0 < a.len() && a[j0] == cell_at(*field, i, j);
                        assert(cell_at(*old(field), i, j0) == cell_at(*field, i, j));
                        assert(valid_cell(*old(field), i, j0));
                    }
                } else {
                    assert(field.bricks@[i] == s_all[i - n0]);
                    let (o, j0) = choose|o: int, l: int|
                        0 <= o < n0 && 0 <= l < orig[o].vertices@.len()
                            && orig[o].vertices@.len() > 1 && #[trigger] orig[o].vertices@[l]
                            == s_all[i - n0].vertices@[0] && !has_neighbor_in(
                            orig[o].vertices@[l],
                            orig[o].vertices@,
                        ) && orig[o].color == s_all[i - n0].color;
                    assert(j == 0);
                    assert(cell_at(*old(field), o, j0) == cell_at(*field, i, j));
                    assert(valid_cell(*old(field), o, j0));
                }
            }
            if occupied_at(*old(field), x, y) {
                let (o, j0) = choose|o: int, j0: int|
                    valid_cell(*old(field), o, j0) && (#[trigger] cell_at(*old(field), o, j0)).x
                        == x && cell_at(*old(field), o, j0).y == y;
                let a = orig[o].vertices@;
                if a.len() <= 1 || has_neighbor_in(cell_at(*old(field), o, j0), a) {
                    assert(field.bricks@[o].vertices@.contains(cell_at(*old(field), o, j0)));
                    let j = choose|j: int|
                        0 <= j < field.bricks@[o].vertices@.len() && field.bricks@[o].vertices@[j]
                            == cell_at(*old(field), o, j0);
                    assert(cell_at(*field, o, j) == cell_at(*old(field), o, j0));
                    assert(valid_cell(*field, o, j));
                } else {
                    assert(singleton_in_bricks(field.bricks@, cell_at(*old(field), o, j0),
                        orig[o].color));
                    let i = choose|i: int|
                        0 <= i < field.bricks@.len() && (#[trigger] field.bricks@[i]).vertices@
                            == seq![cell_at(*old(field), o, j0)] && field.bricks@[i].color
                            == orig[o].color;
                    assert(cell_at(*field, i, 0) == cell_at(*old(field), o, j0));
                    assert(valid_cell(*field, i, 0));
                }
            }
        }
        assert forall|x: int, y: int, col: BrickColor|
            #[trigger] occupied_with(*field, x, y, col) <==> occupied_with(
            *old(field),
            x,
            y,
            col,
        ) by {
            if occupied_with(*field, x, y, col) {
                let (i, j) = choose|i: int, j: int|
                    valid_cell(*field, i, j) && (#[trigger] cell_at(*field, i, j)).x == x
                        && cell_at(*field, i, j).y == y && field.bricks@[i].color == col;
                if i < n0 {
                    let a = orig[i].vertices@;
                    assert(field.bricks@[i].color == orig[i].color);
                    assert(cell_at(*field, i, j) == peel_remnant(a)[j]);
                    if a.len() <= 1 {
                        assert(cell_at(*old(field), i, j) == cell_at(*field, i, j));
                        assert(valid_cell(*old(field), i, j));
                    } else {
                        lemma_peel_filters(a, a);
                        assert(a.contains(keeps_within(a, a)[j]));
                        let j0 = choose|j0: int| 0 <= j0 < a.len() && a[j0] == cell_at(*field, i, j);
                        assert(cell_at(*old(field), i, j0) == cell_at(*field, i, j));
                        assert(valid_cell(*old(field), i, j0));
                    }
                } else {
                    assert(field.bricks@[i] == s_all[i - n0]);
                    let (o, j0) = choose|o: int, l: int|
                        0 <= o < n0 && 0 <= l < orig[o].vertices@.len()
                            && orig[o].vertices@.len() > 1 && #[trigger] orig[o].vertices@[l]
                            == s_all[i - n0].vertices@[0] && !has_neighbor_in(
                            orig[o].vertices@[l],
                            orig[o].vertices@,
                        ) && orig[o].color == s_all[i - n0].color;
                    assert(j == 0);
                    assert(cell_at(*old(field), o, j0) == cell_at(*field, i, j));
                    assert(valid_cell(*old(field), o, j0));
                    assert(old(field).bricks@[o].color == col);
                }
            }
            if occupied_with(*old(field), x, y, col) {
                let (o, j0) = choose|o: int, j0: int|
                    valid_cell(*old(field), o, j0) && (#[trigger] cell_at(*old(field), o, j0)).x
                        == x && cell_at(*old(field), o, j0).y == y && old(field).bricks@[o].color
                        == col;
                let a = orig[o].vertices@;
                if a.len() <= 1 || has_neighbor_in(cell_at(*old(field), o, j0), a) {
                    assert(field.bricks@[o].vertices@.contains(cell_at(*old(field), o, j0)));
                    let j = choose|j: int|
                        0 <= j < field.bricks@[o].vertices@.len() && field.bricks@[o].vertices@[j]
                            == cell_at(*old(field), o, j0);
                    assert(cell_at(*field, o, j) == cell_at(*old(field), o, j0));
                    assert(valid_cell(*field, o, j));
                    assert(field.bricks@[o].color == col);
                } else {
                    assert(singleton_in_bricks(field.bricks@, cell_at(*old(field), o, j0),
                        orig[o].color));
                    let i = choose|i: int|
                        0 <= i < field.bricks@.len() && (#[trigger] field.bricks@[i]).vertices@
                            == seq![cell_at(*old(field), o, j0)] && field.bricks@[i].color
                            == orig[o].color;
                    assert(cell_at(*field, i, 0) == cell_at(*old(field), o, j0));
                    assert(valid_cell(*field, i, 0));
                    assert(field.bricks@[i].color == col);
                }
            }
        }
    }
}

/// Sum of the row indices of a brick's cells.
pub open spec fn ys_sum(s: Seq<Point>) -> int
    decreases s.len(),
{
    if s.len() == 0 {
        0
    } else {
        ys_sum(s.drop_last()) + s.last().y
    }
}

/// Sum of the row indices of every settled cell.
pub open spec fn ys_total(bs: Seq<DeadBrick>) -> int
    decreases bs.len(),
{
    if bs.len() == 0 {
        0
    } else {
        ys_total(bs.drop_last()) + ys_sum(bs.last().vertices@)
    }
}

proof fn lemma_cells_count_nonneg(bs: Seq<DeadBrick>)
    ensures
        cells_count(bs) >= 0,
    decreases bs.len(),
{
    if bs.len() > 0 {
        lemma_cells_count_nonneg(bs.drop_last());
    }
}

/// A uniform downward shift adds the shift once per cell to the row sum.
proof fn lemma_ys_sum_shift(a: Seq<Point>, b: Seq<Point>, k: int)
    requires
        shifted_down(a, b, k),
    ensures
        ys_sum(b) == ys_sum(a) + k * a.len(),
    decreases a.len(),
{
    if a.len() == 0 {
        assert(k * 0 == 0) by (nonlinear_arith);
    } else {
        assert(shifted_down(a.drop_last(), b.drop_last(), k)) by {
            assert forall|j: int|
                0 <= j < a.drop_last().len() implies (#[trigger] b.drop_last()[j]).x
                == a.drop_last()[j].x && b.drop_last()[j].y == a.drop_last()[j].y + k by {
                assert(b[j].x == a[j].x && b[j].y == a[j].y + k);
            }
        }
        lemma_ys_sum_shift(a.drop_last(), b.drop_last(), k);
        assert(b.last().y == a.last().y + k) by {
            assert(b[a.len() - 1].x == a[a.len() - 1].x && b[a.len() - 1].y == a[a.len() - 1].y
                + k);
        }
        assert(k * (a.len() - 1) + k == k * a.len()) by (nonlinear_arith);
    }
}

/// Replacing one brick changes the row sum by the difference of the bricks.
proof fn lemma_ys_total_update(bs: Seq<DeadBrick>, i: int, nb: DeadBrick)
    requires
        0 <= i < bs.len(),
    ensures
        ys_total(bs.update(i, nb)) == ys_total(bs) - ys_sum(bs[i].vertices@) + ys_sum(
            nb.vertices@,
        ),
    decreases bs.len(),
{
    if i == bs.len() - 1 {
        assert(bs.update(i, nb).drop_last() =~= bs.drop_last());
        assert(bs.update(i, nb).last() == nb);
    } else {
        lemma_ys_total_update(bs.drop_last(), i, nb);
        assert(bs.update(i, nb).drop_last() =~= bs.drop_last().update(i, nb));
        assert(bs.update(i, nb).last() == bs.last());
    }
}

proof fn lemma_ys_sum_bound(s: Seq<Point>, h: int)
    requires
        forall|j: int| 0 <= j < s.len() ==> (#[trigger] s[j]).y < h,
    ensures
        ys_sum(s) <= (h - 1) * s.len(),
    decreases s.len(),
{
    if s.len() == 0 {
        assert((h - 1) * 0 == 0) by (nonlinear_arith);
    } else {
        assert forall|j: int|
            0 <= j < s.drop_last().len() implies (#[trigger] s.drop_last()[j]).y < h by {
            assert(s[j].y < h);
        }
        lemma_ys_sum_bound(s.drop_last(), h);
        assert(s.last().y < h);
        assert((h - 1) * (s.len() - 1) + (h - 1) == (h - 1) * s.len()) by (nonlinear_arith);
    }
}

/// Inside the grid, the row sum never exceeds the bottom row times the cell
/// count.
proof fn lemma_ys_total_bound(bs: Seq<DeadBrick>, h: int)
    requires
        forall|i: int, j: int|
            0 <= i < bs.len() && 0 <= j < bs[i].vertices@.len()
                ==> (#[trigger] bs[i].vertices@[j]).y < h,
    ensures
        ys_total(bs) <= (h - 1) * cells_count(bs),
    decreases bs.len(),
{
    if bs.len() > 0 {
        let dl = bs.drop_last();
        assert forall|i: int, j: int|
            0 <= i < dl.len() && 0 <= j < dl[i].vertices@.len() implies (#[trigger] dl[i].vertices@[j]).y
            < h by {
            assert(bs[i].vertices@[j].y < h);
        }
        lemma_ys_total_bound(dl, h);
        assert forall|j: int|
            0 <= j < bs.last().vertices@.len() implies (#[trigger] bs.last().vertices@[j]).y
            < h by {
            assert(bs[bs.len() - 1].vertices@[j].y < h);
        }
        lemma_ys_sum_bound(bs.last().vertices@, h);
        assert((h - 1) * cells_count(dl) + (h - 1) * bs.last().vertices@.len() == (h - 1)
            * cells_count(bs)) by (nonlinear_arith)
            requires
                cells_count(bs) == cells_count(dl) + bs.last().vertices@.len(),
        ;
    }
}

/// Comparing brick lists brick by brick bounds the total cell count; a list
/// that lost a cell somewhere counts strictly fewer.
proof fn lemma_cells_count_pointwise(a: Seq<DeadBrick>, b: Seq<DeadBrick>)
    requires
        a.len() == b.len(),
        forall|i: int|
            0 <= i < a.len() ==> (#[trigger] b[i]).vertices@.len() <= a[i].vertices@.len(),
    ensures
        cells_count(b) <= cells_count(a),
        forall|w: int|
            0 <= w < a.len() && (#[trigger] b[w]).vertices@.len() < a[w].vertices@.len()
                ==> cells_count(b) < cells_count(a),
    decreases a.len(),
{
    if a.len() > 0 {
        assert forall|i: int|
            0 <= i < a.drop_last().len() implies (#[trigger] b.drop_last()[i]).vertices@.len()
            <= a.drop_last()[i].vertices@.len() by {
            assert(b[i].vertices@.len() <= a[i].vertices@.len());
        }
        lemma_cells_count_pointwise(a.drop_last(), b.drop_last());
        assert(b[a.len() - 1].vertices@.len() <= a[a.len() - 1].vertices@.len());
        assert forall|w: int|
            0 <= w < a.len() && (#[trigger] b[w]).vertices@.len() < a[w].vertices@.len() implies
            cells_count(b) < cells_count(a) by {
            if w < a.len() - 1 {
                assert(b.drop_last()[w].vertices@.len() < a.drop_last()[w].vertices@.len());
            }
        }
    }
}

/// Whether a brick can descend depends only on the cells and the height,
/// not on how the bricks are represented.
proof fn lemma_can_descend_same_cells(f1: Field, f2: Field, idx: int)
    requires
        f1.height == f2.height,
        f1.bricks@.len() == f2.bricks@.len(),
        forall|i: int|
            0 <= i < f1.bricks@.len() ==> (#[trigger] f1.bricks@[i]).vertices@
                == f2.bricks@[i].vertices@,
        0 <= idx < f1.bricks@.len(),
    ensures
        dead_can_descend(f1, idx) == dead_can_descend(f2, idx),
{
    assert(f1.bricks@[idx].vertices@ == f2.bricks@[idx].vertices@);
    assert forall|i: int, j: int|
        valid_cell(f1, i, j) implies valid_cell(f2, i, j) && #[trigger] cell_at(f1, i, j)
        == cell_at(f2, i, j) by {
        assert(f1.bricks@[i].vertices@ == f2.bricks@[i].vertices@);
    }
    assert forall|i: int, j: int|
        valid_cell(f2, i, j) implies valid_cell(f1, i, j) && #[trigger] cell_at(f2, i, j)
        == cell_at(f1, i, j) by {
        assert(f1.bricks@[i].vertices@ == f2.bricks@[i].vertices@);
    }
    assert forall|j: int|
        0 <= j < f1.bricks@[idx].vertices@.len() implies (occupied_by_other(
            f1,
            idx,
            (#[trigger] cell_at(f1, idx, j)).x as int,
            cell_at(f1, idx, j).y + 1,
        ) == occupied_by_other(
            f2,
            idx,
            cell_at(f2, idx, j).x as int,
            cell_at(f2, idx, j).y + 1,
        )) by {
        if occupied_by_other(f1, idx, cell_at(f1, idx, j).x as int, cell_at(f1, idx, j).y + 1) {
            let (i2, j2) = choose|i2: int, j2: int|
                valid_cell(f1, i2, j2) && i2 != idx && (#[trigger] cell_at(f1, i2, j2)).x
                    == cell_at(f1, idx, j).x as int && cell_at(f1, i2, j2).y == cell_at(
                    f1,
                    idx,
                    j,
                ).y + 1;
            assert(cell_at(f2, i2, j2) == cell_at(f1, i2, j2));
        }
        if occupied_by_other(f2, idx, cell_at(f2, idx, j).x as int, cell_at(f2, idx, j).y + 1) {
            let (i2, j2) = choose|i2: int, j2: int|
                valid_cell(f2, i2, j2) && i2 != idx && (#[trigger] cell_at(f2, i2, j2)).x
                    == cell_at(f2, idx, j).x as int && cell_at(f2, i2, j2).y == cell_at(
                    f2,
                    idx,
                    j,
                ).y + 1;
            assert(cell_at(f1, i2, j2) == cell_at(f2, i2, j2));
        }
    }
    if dead_can_descend(f1, idx) {
        assert forall|j: int|
            0 <= j < f2.bricks@[idx].vertices@.len() implies !occupied_by_other(
            f2,
            idx,
            (#[trigger] cell_at(f2, idx, j)).x as int,
            cell_at(f2, idx, j).y + 1,
        ) by {
            assert(cell_at(f1, idx, j) == cell_at(f2, idx, j));
        }
    }
    if dead_can_descend(f2, idx) {
        assert forall|j: int|
            0 <= j < f1.bricks@[idx].vertices@.len() implies !occupied_by_other(
            f1,
            idx,
            (#[trigger] cell_at(f1, idx, j)).x as int,
            cell_at(f1, idx, j).y + 1,
        ) by {
            assert(cell_at(f1, idx, j) == cell_at(f2, idx, j));
        }
    }
}

/// One full gravity pass after another until no brick can fall further: each
/// brick is lowered against the bricks as the pass finds them, and a pass
/// that moved anything triggers another pass.
#[verifier::rlimit(100)]
pub fn settle_all(field: &mut Field)
    requires
        field_inv(*old(field)),
        forall|i: int|
            0 <= i < old(field).bricks@.len()
                ==> (#[trigger] old(field).bricks@[i]).vertices@.len() > 0,
    ensures
        field_inv(*final(field)),
        final(field).width == old(field).width,
        final(field).height == old(field).height,
        final(field).bricks@.len() == old(field).bricks@.len(),
        forall|i: int|
            0 <= i < old(field).bricks@.len() ==> (#[trigger] final(field).bricks@[i]).color
                == old(field).bricks@[i].color && final(field).bricks@[i].vertices@.len() == old(
                field,
            ).bricks@[i].vertices@.len(),
        forall|x: int, y: int|
            #[trigger] occupied_at(*final(field), x, y) ==> exists|y0: int|
                y0 <= y && occupied_at(*old(field), x, y0),
        forall|x: int, y: int, col: BrickColor|
            #[trigger] occupied_with(*final(field), x, y, col) ==> exists|y0: int|
                y0 <= y && occupied_with(*old(field), x, y0, col),
        cells_count(final(field).bricks@) == cells_count(old(field).bricks@),
        // the field is fully settled: nothing can descend any further
        forall|i: int|
            0 <= i < final(field).bricks@.len() ==> !(#[trigger] dead_can_descend(
                *final(field),
                i,
            )),
{
    let mut moving = true;
    while moving
        invariant
            field_inv(*field),
            field.width == old(field).width,
            field.height == old(field).height,
            field.bricks@.len() == old(field).bricks@.len(),
            forall|i: int|
                0 <= i < old(field).bricks@.len() ==> (#[trigger] field.bricks@[i]).color == old(
                    field,
                ).bricks@[i].color && field.bricks@[i].vertices@.len() == old(
                    field,
                ).bricks@[i].vertices@.len() && field.bricks@[i].vertices@.len() > 0,
            forall|x: int, y: int|
                #[trigger] occupied_at(*field, x, y) ==> exists|y0: int|
                    y0 <= y && occupied_at(*old(field), x, y0),
            forall|x: int, y: int, col: BrickColor|
                #[trigger] occupied_with(*field, x, y, col) ==> exists|y0: int|
                    y0 <= y && occupied_with(*old(field), x, y0, col),
            cells_count(field.bricks@) == cells_count(old(field).bricks@),
            !moving ==> forall|i: int|
                0 <= i < field.bricks@.len() ==> !(#[trigger] dead_can_descend(*field, i)),
        decreases field.height * cells_count(field.bricks@) - ys_total(field.bricks@) + (if moving {
            1int
        } else {
            0int
        }),
    {
        let ghost pass0 = *field;
        let mut any_lowered = false;
        let n = field.bricks.len();
        let mut i: usize = 0;
        while i < n
            invariant
                n == field.bricks@.len(),
                i <= n,
                field_inv(*field),
                field.width == old(field).width,
                field.height == old(field).height,
                field.bricks@.len() == old(field).bricks@.len(),
                forall|i2: int|
                    0 <= i2 < old(field).bricks@.len() ==> (#[trigger] field.bricks@[i2]).color
                        == old(field).bricks@[i2].color && field.bricks@[i2].vertices@.len()
                        == old(field).bricks@[i2].vertices@.len()
                        && field.bricks@[i2].vertices@.len() > 0,
                forall|x: int, y: int|
                    #[trigger] occupied_at(*field, x, y) ==> exists|y0: int|
                        y0 <= y && occupied_at(*old(field), x, y0),
                forall|x: int, y: int, col: BrickColor|
                    #[trigger] occupied_with(*field, x, y, col) ==> exists|y0: int|
                        y0 <= y && occupied_with(*old(field), x, y0, col),
                cells_count(field.bricks@) == cells_count(old(field).bricks@),
                ys_total(field.bricks@) >= ys_total(pass0.bricks@) + (if any_lowered {
                    1int
                } else {
                    0int
                }),
                !any_lowered ==> forall|i2: int|
                    0 <= i2 < i ==> !(#[trigger] dead_can_descend(*field, i2)),
            decreases n - i,
        {
            let ghost pre = *field;
            let lowered = did_lower_dead_brick(field, i);
            proof {
                let k = choose|k: int|
                    0 <= k && shifted_down(
                        pre.bricks@[i as int].vertices@,
                        field.bricks@[i as int].vertices@,
                        k,
                    ) && (lowered <==> k > 0);
                assert(field.bricks@ =~= pre.bricks@.update(i as int, field.bricks@[i as int]));
                lemma_ys_total_update(pre.bricks@, i as int, field.bricks@[i as int]);
                lemma_ys_sum_shift(
                    pre.bricks@[i as int].vertices@,
                    field.bricks@[i as int].vertices@,
                    k,
                );
                lemma_cells_count_update(pre.bricks@, i as int, field.bricks@[i as int]);
                assert(k * pre.bricks@[i as int].vertices@.len() >= k) by (nonlinear_arith)
                    requires
                        k >= 0,
                        pre.bricks@[i as int].vertices@.len() >= 1,
                ;
                assert forall|x: int, y: int|
                    #[trigger] occupied_at(*field, x, y) implies exists|y0: int|
                    y0 <= y && occupied_at(*old(field), x, y0) by {
                    let (i2, j2) = choose|i2: int, j2: int|
                        valid_cell(*field, i2, j2) && (#[trigger] cell_at(*field, i2, j2)).x == x
                            && cell_at(*field, i2, j2).y == y;
                    if i2 == i {
                        assert(cell_at(pre, i2, j2).x == x && cell_at(pre, i2, j2).y == y - k);
                        assert(valid_cell(pre, i2, j2));
                        assert(occupied_at(pre, x, y - k));
                        let y1 = choose|y1: int| y1 <= y - k && occupied_at(*old(field), x, y1);
                    } else {
                        assert(cell_at(pre, i2, j2) == cell_at(*field, i2, j2));
                        assert(valid_cell(pre, i2, j2));
                        assert(occupied_at(pre, x, y));
                        let y1 = choose|y1: int| y1 <= y && occupied_at(*old(field), x, y1);
                    }
                }
                assert forall|x: int, y: int, col: BrickColor|
                    #[trigger] occupied_with(*field, x, y, col) implies exists|y0: int|
                    y0 <= y && occupied_with(*old(field), x, y0, col) by {
                    let (i2, j2) = choose|i2: int, j2: int|
                        valid_cell(*field, i2, j2) && (#[trigger] cell_at(*field, i2, j2)).x == x
                            && cell_at(*field, i2, j2).y == y && field.bricks@[i2].color == col;
                    assert(pre.bricks@[i2].color == col);
                    if i2 == i {
                        assert(cell_at(pre, i2, j2).x == x && cell_at(pre, i2, j2).y == y - k);
                        assert(valid_cell(pre, i2, j2));
                        assert(occupied_with(pre, x, y - k, col));
                        let y1 = choose|y1: int|
                            y1 <= y - k && occupied_with(*old(field), x, y1, col);
                    } else {
                        assert(cell_at(pre, i2, j2) == cell_at(*field, i2, j2));
                        assert(valid_cell(pre, i2, j2));
                        assert(occupied_with(pre, x, y, col));
                        let y1 = choose|y1: int| y1 <= y && occupied_with(*old(field), x, y1, col);
                    }
                }
            }
            proof {
                if !any_lowered && !lowered {
                    let k0 = choose|k: int|
                        0 <= k && shifted_down(
                            pre.bricks@[i as int].vertices@,
                            field.bricks@[i as int].vertices@,
                            k,
                        ) && (lowered <==> k > 0);
                    assert(field.bricks@[i as int].vertices@ =~= pre.bricks@[i as int].vertices@)
                        by {
                        assert forall|j: int|
                            0 <= j < pre.bricks@[i as int].vertices@.len() implies
                            field.bricks@[i as int].vertices@[j]
                            == pre.bricks@[i as int].vertices@[j] by {
                            assert((#[trigger] field.bricks@[i as int].vertices@[j]).x
                                == pre.bricks@[i as int].vertices@[j].x
                                && field.bricks@[i as int].vertices@[j].y
                                == pre.bricks@[i as int].vertices@[j].y + k0);
                        }
                    }
                    assert forall|i2: int|
                        0 <= i2 < field.bricks@.len() implies (#[trigger] field.bricks@[i2]).vertices@
                        == pre.bricks@[i2].vertices@ by {}
                    assert forall|i2: int|
                        0 <= i2 < i + 1 implies !(#[trigger] dead_can_descend(*field, i2)) by {
                        if i2 < i {
                            lemma_can_descend_same_cells(pre, *field, i2);
                        }
                    }
                }
            }
            if lowered {
                any_lowered = true;
            }
            i += 1;
        }
        moving = any_lowered;
        proof {
            lemma_cells_count_nonneg(field.bricks@);
            assert forall|i2: int, j2: int|
                0 <= i2 < field.bricks@.len() && 0 <= j2 < field.bricks@[i2].vertices@.len()
                implies (#[trigger] field.bricks@[i2].vertices@[j2]).y < field.height by {
                assert(cell_at(*field, i2, j2).y < field.height);
                assert(valid_cell(*field, i2, j2));
            }
            lemma_ys_total_bound(field.bricks@, field.height as int);
            assert((field.height - 1) * cells_count(field.bricks@) <= field.height * cells_count(
                field.bricks@,
            )) by (nonlinear_arith)
                requires
                    cells_count(field.bricks@) >= 0,
            ;
        }
    }
}

/// A brick list whose bricks all hold at least one cell counts at least one
/// cell per brick; one whose bricks are all empty counts none.
proof fn lemma_cells_count_min_len(bs: Seq<DeadBrick>)
    ensures
        (forall|a: int| 0 <= a < bs.len() ==> (#[trigger] bs[a]).vertices@.len() > 0)
            ==> cells_count(bs) >= bs.len(),
        (forall|a: int| 0 <= a < bs.len() ==> (#[trigger] bs[a]).vertices@.len() == 0)
            ==> cells_count(bs) == 0,
    decreases bs.len(),
{
    if bs.len() > 0 {
        lemma_cells_count_min_len(bs.drop_last());
    }
}

/// The row-clear & cascade engine: detect the full rows, drop their cells,
/// delete emptied bricks, repair connectivity, let gravity resettle every
/// brick, and repeat until no full row remains. Cells are only ever removed
/// or moved straight down, and a field without a full row is left untouched.
#[verifier::rlimit(100)]
pub fn remove_full_rows(field: &mut Field)
    requires
        field_inv(*old(field)),
    ensures
        field_inv(*final(field)),
        final(field).width == old(field).width,
        final(field).height == old(field).height,
        !has_full_row(*final(field)),
        !has_full_row(*old(field)) ==> *final(field) == *old(field),
        forall|x: int, y: int|
            #[trigger] occupied_at(*final(field), x, y) ==> exists|y0: int|
                y0 <= y && occupied_at(*old(field), x, y0),
        forall|x: int, y: int, col: BrickColor|
            #[trigger] occupied_with(*final(field), x, y, col) ==> exists|y0: int|
                y0 <= y && occupied_with(*old(field), x, y0, col),
        cells_count(final(field).bricks@) <= cells_count(old(field).bricks@),
        // once the engine has worked, the field is fully settled
        has_full_row(*old(field)) ==> forall|i: int|
            0 <= i < final(field).bricks@.len() ==> !(#[trigger] dead_can_descend(
                *final(field),
                i,
            )),
        // a field whose every cell sits in a full row is cleared completely
        has_full_row(*old(field)) && (forall|x: int, y: int|
            #[trigger] occupied_at(*old(field), x, y) ==> row_full(*old(field), y)) ==> final(field).bricks@.len() == 0,
    decreases cells_count(field.bricks@),
{
    let full_rows = find_full_rows(field);
    if full_rows.len() == 0 {
        proof {
            assert forall|x: int, y: int|
                #[trigger] occupied_at(*field, x, y) implies exists|y0: int|
                y0 <= y && occupied_at(*old(field), x, y0) by {
                assert(occupied_at(*old(field), x, y));
            }
            assert forall|x: int, y: int, col: BrickColor|
                #[trigger] occupied_with(*field, x, y, col) implies exists|y0: int|
                y0 <= y && occupied_with(*old(field), x, y0, col) by {
                assert(occupied_with(*old(field), x, y, col));
            }
        }
        return ;
    }
    let ghost m0 = *field;
    remove_rows_cells(field, &full_rows);
    let ghost m1 = *field;
    proof {
        // at least one cell stood in a full row, so the count strictly drops
        let r = full_rows@[0] as int;
        assert(row_full(m0, r));
        assert(occupied_at(m0, 1, r));
        let (i0, j0) = choose|i0: int, j0: int|
            valid_cell(m0, i0, j0) && (#[trigger] cell_at(m0, i0, j0)).x == 1 && cell_at(
                m0,
                i0,
                j0,
            ).y == r;
        assert(full_rows@.contains(cell_at(m0, i0, j0).y));
        assert(!cell_kept(full_rows@, cell_at(m0, i0, j0))) by {
            reveal(cell_kept);
        }
        assert(m1.bricks@[i0].vertices@.len() < m0.bricks@[i0].vertices@.len()) by {
            assert(group_filtered(full_rows@, m0.bricks@[i0].vertices@, m1.bricks@[i0].vertices@));
            assert(m0.bricks@[i0].vertices@[j0] == cell_at(m0, i0, j0));
            assert(!cell_kept(full_rows@, m0.bricks@[i0].vertices@[j0]));
        }
        assert forall|i: int|
            0 <= i < m0.bricks@.len() implies (#[trigger] m1.bricks@[i]).vertices@.len()
            <= m0.bricks@[i].vertices@.len() by {
            assert(group_filtered(full_rows@, m0.bricks@[i].vertices@, m1.bricks@[i].vertices@));
        }
        lemma_cells_count_pointwise(m0.bricks@, m1.bricks@);
        assert(cells_count(m1.bricks@) < cells_count(m0.bricks@));
    }
    remove_empty_bricks(field);
    let ghost m2 = *field;
    split_disconnected_subbricks(field);
    let ghost m3 = *field;
    remove_empty_bricks(field);
    let ghost m4 = *field;
    proof {
        assert forall|a: int|
            0 <= a < m4.bricks@.len() implies (#[trigger] m4.bricks@[a]).vertices@.len() > 0 by {}
    }
    settle_all(field);
    let ghost m5 = *field;
    proof {
        assert(cells_count(m5.bricks@) == cells_count(m4.bricks@));
        assert(cells_count(m4.bricks@) == cells_count(m3.bricks@));
        assert(cells_count(m3.bricks@) == cells_count(m2.bricks@));
        assert(cells_count(m2.bricks@) == cells_count(m1.bricks@));
        assert(cells_count(field.bricks@) < cells_count(old(field).bricks@));
        lemma_cells_count_nonneg(field.bricks@);
        lemma_cells_count_nonneg(old(field).bricks@);
    }
    remove_full_rows(field);
    proof {
        assert forall|x: int, y: int|
            #[trigger] occupied_at(*field, x, y) implies exists|y0: int|
            y0 <= y && occupied_at(*old(field), x, y0) by {
            let y5 = choose|y5: int| y5 <= y && #[trigger] occupied_at(m5, x, y5);
            let y4 = choose|y4: int| y4 <= y5 && #[trigger] occupied_at(m4, x, y4);
            assert(occupied_at(m3, x, y4));
            assert(occupied_at(m2, x, y4));
            assert(occupied_at(m1, x, y4));
            assert(occupied_at(m0, x, y4));
        }
        assert forall|x: int, y: int, col: BrickColor|
            #[trigger] occupied_with(*field, x, y, col) implies exists|y0: int|
            y0 <= y && occupied_with(*old(field), x, y0, col) by {
            let y5 = choose|y5: int| y5 <= y && #[trigger] occupied_with(m5, x, y5, col);
            let y4 = choose|y4: int| y4 <= y5 && #[trigger] occupied_with(m4, x, y4, col);
            assert(occupied_with(m3, x, y4, col));
            assert(occupied_with(m2, x, y4, col));
            assert(occupied_with(m1, x, y4, col));
            assert(occupied_with(m0, x, y4, col));
        }
        assert forall|i: int|
            0 <= i < field.bricks@.len() implies !(#[trigger] dead_can_descend(*field, i)) by {
            if !has_full_row(m5) {
                assert(*field == m5);
            }
        }
        if forall|x: int, y: int|
            #[trigger] occupied_at(m0, x, y) ==> row_full(m0, y) {
            // the clearing pass drops every cell: each one's row is full, so
            // each is listed for removal
            assert forall|i: int|
                0 <= i < m1.bricks@.len() implies (#[trigger] m1.bricks@[i]).vertices@.len()
                == 0 by {
                if m1.bricks@[i].vertices@.len() > 0 {
                    assert(group_filtered(full_rows@, m0.bricks@[i].vertices@,
                        m1.bricks@[i].vertices@));
                    let c = m1.bricks@[i].vertices@[0];
                    assert(cell_kept(full_rows@, c));
                    assert(cell_at(m1, i, 0) == c && valid_cell(m1, i, 0));
                    assert(occupied_at(m1, c.x as int, c.y as int));
                    assert(occupied_at(m0, c.x as int, c.y as int));
                    assert(row_full(m0, c.y as int));
                    assert(0 <= c.y < m0.height);
                    assert(full_rows@.contains(c.y));
                    assert(!cell_kept(full_rows@, c)) by {
                        reveal(cell_kept);
                    }
                }
            }
            lemma_cells_count_min_len(m1.bricks@);
            assert(cells_count(m4.bricks@) == 0);
            lemma_cells_count_min_len(m4.bricks@);
            assert(m4.bricks@.len() == 0);
            assert(m5.bricks@.len() == 0);
            assert(!has_full_row(m5)) by {
                if has_full_row(m5) {
                    let r = choose|r: int| 0 <= r < m5.height && #[trigger] row_full(m5, r);
                    assert(occupied_at(m5, 1, r));
                    let (i2, j2) = choose|i2: int, j2: int|
                        valid_cell(m5, i2, j2) && (#[trigger] cell_at(m5, i2, j2)).x == 1
                            && cell_at(m5, i2, j2).y == r;
                }
            }
            assert(*field == m5);
        }
    }
}

/// Copies a point list cell for cell.
fn copy_points(v: &Vec<Point>) -> (r: Vec<Point>)
    ensures
        r@ == v@,
{
    let mut r: Vec<Point> = Vec::new();
    let n = v.len();
    let mut j: usize = 0;
    while j < n
        invariant
            n == v@.len(),
            j <= n,
            r@.len() == j,
            forall|j2: int| 0 <= j2 < j ==> #[trigger] r@[j2] == v@[j2],
        decreases n - j,
    {
        r.push(v[j]);
        j += 1;
    }
    proof {
        assert(r@ =~= v@);
    }
    r
}

/// Legality-gated rotation of the falling brick: commits the rotation only
/// if the future width still fits inside the right border and the rotated
/// cells, placed one row below the master node, overlap no settled cell;
/// otherwise the brick is left untouched.
pub fn try_rotate_brick(brick: &mut Brick, master_node_position: &Point, field: &Field) -> (committed: bool)
    requires
        crate::brick::brick_wf(*old(brick)),
        -0x4000_0000 <= master_node_position.x <= 0x4000_0000,
        -0x4000_0000 <= master_node_position.y <= 0x4000_0000,
    ensures
        committed == (master_node_position.x + crate::brick::spec_get_height(*old(brick))
            < field.width && !(exists|k: int|
            0 <= k < crate::brick::rotate_pts(old(brick).vertices@).len() && occupied_at(
                *field,
                (#[trigger] crate::brick::rotate_pts(old(brick).vertices@)[k]).x
                    + master_node_position.x,
                master_node_position.y + 1 - crate::brick::rotate_pts(old(brick).vertices@)[k].y,
            ))),
        committed ==> final(brick).vertices@ == crate::brick::rotate_pts(old(brick).vertices@)
            && final(brick).orientation == (if old(brick).orientation
            == crate::brick::BrickOrientation::Horizontal {
            crate::brick::BrickOrientation::Vertical
        } else {
            crate::brick::BrickOrientation::Horizontal
        }) && final(brick).width_horizontal == old(brick).width_horizontal
            && final(brick).height_horizontal == old(brick).height_horizontal
            && final(brick).color == old(brick).color && crate::brick::brick_wf(*final(brick)),
        !committed ==> *final(brick) == *old(brick),
        crate::brick::brick_dims_ok(*old(brick)) && committed ==> crate::brick::brick_dims_ok(
            *final(brick),
        ),
{
    let future_width = crate::brick::get_height(brick) as i32;
    let fits_in_field = master_node_position.x + future_width < field.width as i32;
    if !fits_in_field {
        return false;
    }
    let requested_vertices = copy_points(&brick.vertices);
    let mut requested = Brick {
        vertices: requested_vertices,
        width_horizontal: brick.width_horizontal,
        height_horizontal: brick.height_horizontal,
        orientation: brick.orientation,
        color: brick.color,
    };
    crate::brick::rotate(&mut requested);
    let mut future_mn = *master_node_position;
    crate::point::translate_by(&mut future_mn, &Point { x: 0, y: 1 });
    let future_vertices = crate::utility::get_screen_translated_vertices(
        &requested.vertices,
        &future_mn,
    );
    let ghost rp = crate::brick::rotate_pts(old(brick).vertices@);
    proof {
        assert(requested.vertices@ == rp);
        assert forall|k: int|
            0 <= k < rp.len() implies (#[trigger] future_vertices@[k]).x == rp[k].x
            + master_node_position.x && future_vertices@[k].y == master_node_position.y + 1
            - rp[k].y by {
            assert(future_vertices@[k].x == requested.vertices@[k].x + future_mn.x);
        }
    }
    let blocked = will_have_collision(&future_vertices, field);
    proof {
        if blocked {
            let k = choose|k: int|
                0 <= k < future_vertices@.len() && occupied_at(
                    *field,
                    (#[trigger] future_vertices@[k]).x as int,
                    future_vertices@[k].y as int,
                );
            assert(occupied_at(
                *field,
                rp[k].x + master_node_position.x,
                master_node_position.y + 1 - rp[k].y,
            ));
        } else {
            assert forall|k: int|
                0 <= k < rp.len() implies !occupied_at(
                *field,
                (#[trigger] rp[k]).x + master_node_position.x,
                master_node_position.y + 1 - rp[k].y,
            ) by {
                assert(!occupied_at(
                    *field,
                    future_vertices@[k].x as int,
                    future_vertices@[k].y as int,
                ));
            }
        }
    }
    if blocked {
        return false;
    }
    crate::brick::rotate(brick);
    true
}

/// Occupancy of the field as it stands the moment the piece lands: the old
/// settled cells plus the piece's screen-translated cells.
pub open spec fn landed_occupied_at(f: Field, b: Brick, mn: Point, x: int, y: int) -> bool {
    occupied_at(f, x, y) || (exists|k: int|
        0 <= k < b.vertices@.len() && (#[trigger] b.vertices@[k]).x + mn.x == x && mn.y
            - b.vertices@[k].y == y)
}

pub open spec fn landed_row_full(f: Field, b: Brick, mn: Point, row: int) -> bool {
    forall|c: int| 1 <= c < f.width - 1 ==> #[trigger] landed_occupied_at(f, b, mn, c, row)
}

pub open spec fn landed_has_full_row(f: Field, b: Brick, mn: Point) -> bool {
    exists|r: int| 0 <= r < f.height && #[trigger] landed_row_full(f, b, mn, r)
}

/// Consumes the falling brick: its absolute cells become a new settled brick
/// and the row-clear & cascade engine runs at once. The controller has
/// already checked that the cells are legal, inside the grid and free.
#[verifier::rlimit(100)]
pub fn land_brick(brick: &Brick, master_node_position: &Point, field: &mut Field)
    requires
        field_inv(*old(field)),
        crate::brick::brick_wf(*brick),
        -0x4000_0000 <= master_node_position.x <= 0x4000_0000,
        -0x4000_0000 <= master_node_position.y <= 0x4000_0000,
        forall|k: int|
            0 <= k < brick.vertices@.len() ==> 0 <= (#[trigger] brick.vertices@[k]).x
                + master_node_position.x < old(field).width && 0 <= master_node_position.y
                - brick.vertices@[k].y < old(field).height && !occupied_at(
                *old(field),
                brick.vertices@[k].x + master_node_position.x,
                master_node_position.y - brick.vertices@[k].y,
            ),
        forall|k1: int, k2: int|
            0 <= k1 < k2 < brick.vertices@.len() ==> !((#[trigger] brick.vertices@[k1]).x
                == (#[trigger] brick.vertices@[k2]).x && brick.vertices@[k1].y
                == brick.vertices@[k2].y),
    ensures
        field_inv(*final(field)),
        final(field).width == old(field).width,
        final(field).height == old(field).height,
        !has_full_row(*final(field)),
        // every remaining cell is a former settled cell or a landed cell, in
        // the same column, no higher than where it was
        forall|x: int, y: int|
            #[trigger] occupied_at(*final(field), x, y) ==> exists|y0: int|
                y0 <= y && (occupied_at(*old(field), x, y0) || exists|k: int|
                    0 <= k < brick.vertices@.len() && (#[trigger] brick.vertices@[k]).x
                        + master_node_position.x == x && master_node_position.y
                        - brick.vertices@[k].y == y0),
        // when the landing completes no row, the piece simply joins the field
        // as one new settled brick and nothing else changes
        !landed_has_full_row(*old(field), *brick, *master_node_position) ==> final(field).bricks@.len() == old(field).bricks@.len() + 1,
        !landed_has_full_row(*old(field), *brick, *master_node_position) ==> forall|i: int|
            0 <= i < old(field).bricks@.len() ==> #[trigger] final(field).bricks@[i] == old(
                field,
            ).bricks@[i],
        !landed_has_full_row(*old(field), *brick, *master_node_position) ==> final(field).bricks@[old(field).bricks@.len() as int].color == brick.color && final(field).bricks@[old(field).bricks@.len() as int].vertices@.len() == brick.vertices@.len(),
        !landed_has_full_row(*old(field), *brick, *master_node_position) ==> forall|k: int|
            0 <= k < brick.vertices@.len()
                ==> (#[trigger] final(field).bricks@[old(field).bricks@.len() as int].vertices@[k]).x
                == brick.vertices@[k].x + master_node_position.x && final(field).bricks@[old(field).bricks@.len() as int].vertices@[k].y == master_node_position.y
                - brick.vertices@[k].y,
        // when the landing completes a row, the engine runs and leaves the
        // field fully settled
        landed_has_full_row(*old(field), *brick, *master_node_position) ==> forall|i: int|
            0 <= i < final(field).bricks@.len() ==> !(#[trigger] dead_can_descend(
                *final(field),
                i,
            )),
{
    let vertices = crate::utility::get_screen_translated_vertices(
        &brick.vertices,
        master_node_position,
    );
    let ghost vs = vertices@;
    field.bricks.push(DeadBrick { vertices, color: brick.color });
    let ghost m1 = *field;
    proof {
        let last = m1.bricks@.len() - 1;
        assert(m1.bricks@[last].vertices@ == vs);
        assert forall|i2: int, j2: int|
            0 <= i2 < last && valid_cell(m1, i2, j2) implies cell_at(m1, i2, j2) == cell_at(
            *old(field),
            i2,
            j2,
        ) && valid_cell(*old(field), i2, j2) by {}
        assert(cells_in_bounds(m1)) by {
            assert forall|i2: int, j2: int|
                valid_cell(m1, i2, j2) implies 0 <= (#[trigger] cell_at(m1, i2, j2)).x < m1.width
                && 0 <= cell_at(m1, i2, j2).y < m1.height by {
                if i2 == last {
                    assert(cell_at(m1, i2, j2) == vs[j2]);
                    assert(vs[j2].x == brick.vertices@[j2].x + master_node_position.x);
                } else {
                    assert(valid_cell(*old(field), i2, j2));
                }
            }
        }
        assert(cells_distinct(m1)) by {
            assert forall|i2: int, j2: int, k2: int, l2: int|
                valid_cell(m1, i2, j2) && valid_cell(m1, k2, l2) && (i2 != k2 || j2 != l2) implies
                !((#[trigger] cell_at(m1, i2, j2)).x == (#[trigger] cell_at(m1, k2, l2)).x
                && cell_at(m1, i2, j2).y == cell_at(m1, k2, l2).y) by {
                if i2 == last && k2 == last {
                    assert(cell_at(m1, i2, j2) == vs[j2] && cell_at(m1, k2, l2) == vs[l2]);
                    assert(vs[j2].x == brick.vertices@[j2].x + master_node_position.x);
                    assert(vs[l2].x == brick.vertices@[l2].x + master_node_position.x);
                } else if i2 == last || k2 == last {
                    let jn: int = if i2 == last { j2 } else { l2 };
                    let io: int = if i2 == last { k2 } else { i2 };
                    let jo: int = if i2 == last { l2 } else { j2 };
                    if cell_at(m1, i2, j2).x == cell_at(m1, k2, l2).x && cell_at(m1, i2, j2).y
                        == cell_at(m1, k2, l2).y {
                        assert(cell_at(m1, last, jn) == vs[jn]);
                        assert(vs[jn].x == brick.vertices@[jn].x + master_node_position.x);
                        assert(cell_at(*old(field), io, jo) == cell_at(m1, io, jo));
                        assert(occupied_at(
                            *old(field),
                            brick.vertices@[jn].x + master_node_position.x,
                            master_node_position.y - brick.vertices@[jn].y,
                        ));
                        assert(false);
                    }
                }
            }
        }
    }
    proof {
        let last = m1.bricks@.len() - 1;
        assert forall|x: int, y: int|
            #![trigger occupied_at(m1, x, y)]
            #![trigger landed_occupied_at(*old(field), *brick, *master_node_position, x, y)]
            occupied_at(m1, x, y) == landed_occupied_at(
            *old(field),
            *brick,
            *master_node_position,
            x,
            y,
        ) by {
            if occupied_at(m1, x, y) {
                let (i2, j2) = choose|i2: int, j2: int|
                    valid_cell(m1, i2, j2) && (#[trigger] cell_at(m1, i2, j2)).x == x && cell_at(
                        m1,
                        i2,
                        j2,
                    ).y == y;
                if i2 < last {
                    assert(cell_at(*old(field), i2, j2) == cell_at(m1, i2, j2));
                    assert(valid_cell(*old(field), i2, j2));
                    assert(occupied_at(*old(field), x, y));
                } else {
                    assert(cell_at(m1, i2, j2) == vs[j2]);
                    assert(brick.vertices@[j2].x + master_node_position.x == x
                        && master_node_position.y - brick.vertices@[j2].y == y);
                }
            }
            if landed_occupied_at(*old(field), *brick, *master_node_position, x, y) {
                if occupied_at(*old(field), x, y) {
                    let (i2, j2) = choose|i2: int, j2: int|
                        valid_cell(*old(field), i2, j2) && (#[trigger] cell_at(
                            *old(field),
                            i2,
                            j2,
                        )).x == x && cell_at(*old(field), i2, j2).y == y;
                    assert(cell_at(m1, i2, j2) == cell_at(*old(field), i2, j2));
                    assert(valid_cell(m1, i2, j2));
                } else {
                    let k = choose|k: int|
                        0 <= k < brick.vertices@.len() && (#[trigger] brick.vertices@[k]).x
                            + master_node_position.x == x && master_node_position.y
                            - brick.vertices@[k].y == y;
                    assert(cell_at(m1, last, k) == vs[k]);
                    assert(valid_cell(m1, last, k));
                }
            }
        }
        assert forall|r: int|
            #![trigger row_full(m1, r)]
            #![trigger landed_row_full(*old(field), *brick, *master_node_position, r)]
            row_full(m1, r) == landed_row_full(*old(field), *brick, *master_node_position, r) by {
            if row_full(m1, r) {
                assert forall|c: int|
                    1 <= c < old(field).width - 1 implies #[trigger] landed_occupied_at(
                    *old(field),
                    *brick,
                    *master_node_position,
                    c,
                    r,
                ) by {
                    assert(occupied_at(m1, c, r));
                }
            }
            if landed_row_full(*old(field), *brick, *master_node_position, r) {
                assert forall|c: int|
                    1 <= c < m1.width - 1 implies #[trigger] occupied_at(m1, c, r) by {
                    assert(landed_occupied_at(*old(field), *brick, *master_node_position, c, r));
                }
            }
        }
        assert(has_full_row(m1) == landed_has_full_row(*old(field), *brick, *master_node_position))
            by {
            if has_full_row(m1) {
                let r = choose|r: int| 0 <= r < m1.height && #[trigger] row_full(m1, r);
                assert(landed_row_full(*old(field), *brick, *master_node_position, r));
            }
            if landed_has_full_row(*old(field), *brick, *master_node_position) {
                let r = choose|r: int|
                    0 <= r < old(field).height && #[trigger] landed_row_full(
                        *old(field),
                        *brick,
                        *master_node_position,
                        r,
                    );
                assert(row_full(m1, r));
            }
        }
    }
    remove_full_rows(field);
    proof {
        if !landed_has_full_row(*old(field), *brick, *master_node_position) {
            assert(*field == m1);
            assert(field.bricks@[old(field).bricks@.len() as int].vertices@ == vs);
        }
        assert forall|x: int, y: int|
            #[trigger] occupied_at(*field, x, y) implies exists|y0: int|
            y0 <= y && (occupied_at(*old(field), x, y0) || exists|k: int|
                0 <= k < brick.vertices@.len() && (#[trigger] brick.vertices@[k]).x
                    + master_node_position.x == x && master_node_position.y
                    - brick.vertices@[k].y == y0) by {
            let y0 = choose|y0: int| y0 <= y && #[trigger] occupied_at(m1, x, y0);
            let (i2, j2) = choose|i2: int, j2: int|
                valid_cell(m1, i2, j2) && (#[trigger] cell_at(m1, i2, j2)).x == x && cell_at(
                    m1,
                    i2,
                    j2,
                ).y == y0;
            if i2 < m1.bricks@.len() - 1 {
                assert(cell_at(*old(field), i2, j2) == cell_at(m1, i2, j2));
                assert(valid_cell(*old(field), i2, j2));
                assert(occupied_at(*old(field), x, y0));
            } else {
                assert(cell_at(m1, i2, j2) == vs[j2]);
                assert(brick.vertices@[j2].x + master_node_position.x == x
                    && master_node_position.y - brick.vertices@[j2].y == y0);
            }
        }
    }
}

/// Legality-gated move one column to the right: commits only if the brick
/// still fits inside the right border and the shifted cells are free.
pub fn move_brick_right(brick: &Brick, master_node_position: &mut Point, field: &Field) -> (committed: bool)
    requires
        crate::brick::brick_wf(*brick),
        -0x4000_0000 <= old(master_node_position).x <= 0x4000_0000,
        -0x4000_0000 <= old(master_node_position).y <= 0x4000_0000,
    ensures
        committed == (old(master_node_position).x + 1 + crate::brick::spec_get_width(*brick)
            < field.width && !(exists|k: int|
            0 <= k < brick.vertices@.len() && occupied_at(
                *field,
                (#[trigger] brick.vertices@[k]).x + old(master_node_position).x + 1,
                old(master_node_position).y - brick.vertices@[k].y,
            ))),
        committed ==> final(master_node_position).x == old(master_node_position).x + 1
            && final(master_node_position).y == old(master_node_position).y,
        !committed ==> *final(master_node_position) == *old(master_node_position),
{
    let mut future_mn = *master_node_position;
    crate::point::translate_by(&mut future_mn, &Point { x: 1, y: 0 });
    let width = crate::brick::get_width(brick) as i32;
    let fits_in_field = future_mn.x + width < field.width as i32;
    if !fits_in_field {
        return false;
    }
    let future_vertices = crate::utility::get_screen_translated_vertices(
        &brick.vertices,
        &future_mn,
    );
    let blocked = will_have_collision(&future_vertices, field);
    proof {
        assert forall|k: int|
            0 <= k < brick.vertices@.len() implies (#[trigger] future_vertices@[k]).x
            == brick.vertices@[k].x + old(master_node_position).x + 1 && future_vertices@[k].y
            == old(master_node_position).y - brick.vertices@[k].y by {}
        if blocked {
            let k = choose|k: int|
                0 <= k < future_vertices@.len() && occupied_at(
                    *field,
                    (#[trigger] future_vertices@[k]).x as int,
                    future_vertices@[k].y as int,
                );
            assert(occupied_at(
                *field,
                brick.vertices@[k].x + old(master_node_position).x + 1,
                old(master_node_position).y - brick.vertices@[k].y,
            ));
        } else {
            assert forall|k: int|
                0 <= k < brick.vertices@.len() implies !occupied_at(
                *field,
                (#[trigger] brick.vertices@[k]).x + old(master_node_position).x + 1,
                old(master_node_position).y - brick.vertices@[k].y,
            ) by {
                assert(!occupied_at(
                    *field,
                    future_vertices@[k].x as int,
                    future_vertices@[k].y as int,
                ));
            }
        }
    }
    if blocked {
        return false;
    }
    crate::point::translate_by(master_node_position, &Point { x: 1, y: 0 });
    true
}

/// Legality-gated move one column to the left: commits only if the brick
/// stays right of the left border and the shifted cells are free.
pub fn move_brick_left(brick: &Brick, master_node_position: &mut Point, field: &Field) -> (committed: bool)
    requires
        crate::brick::brick_wf(*brick),
        -0x4000_0000 <= old(master_node_position).x <= 0x4000_0000,
        -0x4000_0000 <= old(master_node_position).y <= 0x4000_0000,
    ensures
        committed == (old(master_node_position).x - 1 > 0 && !(exists|k: int|
            0 <= k < brick.vertices@.len() && occupied_at(
                *field,
                (#[trigger] brick.vertices@[k]).x + old(master_node_position).x - 1,
                old(master_node_position).y - brick.vertices@[k].y,
            ))),
        committed ==> final(master_node_position).x == old(master_node_position).x - 1
            && final(master_node_position).y == old(master_node_position).y,
        !committed ==> *final(master_node_position) == *old(master_node_position),
{
    let mut future_mn = *master_node_position;
    crate::point::translate_by(&mut future_mn, &Point { x: -1, y: 0 });
    let fits_in_field = future_mn.x > 0;
    if !fits_in_field {
        return false;
    }
    let future_vertices = crate::utility::get_screen_translated_vertices(
        &brick.vertices,
        &future_mn,
    );
    let blocked = will_have_collision(&future_vertices, field);
    proof {
        assert forall|k: int|
            0 <= k < brick.vertices@.len() implies (#[trigger] future_vertices@[k]).x
            == brick.vertices@[k].x + old(master_node_position).x - 1 && future_vertices@[k].y
            == old(master_node_position).y - brick.vertices@[k].y by {}
        if blocked {
            let k = choose|k: int|
                0 <= k < future_vertices@.len() && occupied_at(
                    *field,
                    (#[trigger] future_vertices@[k]).x as int,
                    future_vertices@[k].y as int,
                );
            assert(occupied_at(
                *field,
                brick.vertices@[k].x + old(master_node_position).x - 1,
                old(master_node_position).y - brick.vertices@[k].y,
            ));
        } else {
            assert forall|k: int|
                0 <= k < brick.vertices@.len() implies !occupied_at(
                *field,
                (#[trigger] brick.vertices@[k]).x + old(master_node_position).x - 1,
                old(master_node_position).y - brick.vertices@[k].y,
            ) by {
                assert(!occupied_at(
                    *field,
                    future_vertices@[k].x as int,
                    future_vertices@[k].y as int,
                ));
            }
        }
    }
    if blocked {
        return false;
    }
    crate::point::translate_by(master_node_position, &Point { x: -1, y: 0 });
    true
}

/// Puts the master node back to the top row for a freshly spawned brick,
/// clamped so that the brick's bounding box stays inside the right border.
pub fn reset_master_node(brick: &Brick, master_node_position: &mut Point, field: &Field)
    requires
        -0x4000_0000 <= old(master_node_position).x <= 0x4000_0000,
    ensures
        final(master_node_position).y == 0,
        final(master_node_position).x as int == (if old(master_node_position).x
            + brick.width_horizontal >= field.width {
            field.width - brick.width_horizontal - 1
        } else {
            old(master_node_position).x as int
        }),
{
    master_node_position.y = 0;
    if master_node_position.x + brick.width_horizontal as i32 >= field.width as i32 {
        master_node_position.x = field.width as i32 - brick.width_horizontal as i32 - 1;
    }
}

} // verus!
