use brickfall::brick::{build_brick, calculate_height, calculate_width, generate_brick, get_height,
    get_width, rotate, BrickOrientation, DeadBrick};
use brickfall::field::{can_descend_dead_brick, cell_has_neighbor, create_field,
    did_lower_dead_brick, does_vertex_exist, find_full_rows, will_have_collision, Field};
use brickfall::point::{are_touching, translate_by, translate_to_screen, Point};
use brickfall::utility::{get_screen_translated_vertices, get_translated_vertices, key_code,
    key_from_code, shorten_interval, Keys};

fn pt(x: i32, y: i32) -> Point {
    Point { x, y }
}

fn i_brick_vertices() -> Vec<Point> {
    vec![pt(0, 0), pt(0, 1), pt(0, 2)]
}

#[test]
fn touching_is_orthogonal_adjacency() {
    assert!(are_touching(&pt(1, 5), &pt(1, 6)));
    assert!(are_touching(&pt(1, 5), &pt(2, 5)));
    assert!(are_touching(&pt(1, 5), &pt(1, 5)));
    assert!(!are_touching(&pt(1, 5), &pt(2, 6)));
    assert!(!are_touching(&pt(1, 5), &pt(1, 7)));
}

#[test]
fn translate_to_screen_flips_y() {
    let r = translate_to_screen(&pt(1, 2), &pt(3, 7));
    assert_eq!(r.x, 4);
    assert_eq!(r.y, 5);
}

#[test]
fn translate_by_shifts_in_place() {
    let mut p = pt(2, 3);
    translate_by(&mut p, &pt(0, 1));
    assert_eq!(p.x, 2);
    assert_eq!(p.y, 4);
}

#[test]
fn bounding_box_of_castle_shape() {
    let castle = vec![pt(0, 0), pt(1, 1), pt(1, 0), pt(2, 0)];
    assert_eq!(calculate_width(&castle), 3);
    assert_eq!(calculate_height(&castle), 2);
    assert_eq!(calculate_width(&i_brick_vertices()), 1);
    assert_eq!(calculate_height(&i_brick_vertices()), 3);
}

#[test]
fn rotation_moves_each_point_about_the_pivot() {
    let mut b = build_brick(i_brick_vertices());
    rotate(&mut b);
    assert_eq!(b.vertices, vec![pt(0, 0), pt(1, 0), pt(2, 0)]);
    assert!(matches!(b.orientation, BrickOrientation::Vertical));
    assert_eq!(get_width(&b), 3);
    assert_eq!(get_height(&b), 1);
}

#[test]
fn rotating_four_times_restores_the_piece() {
    let mut b = build_brick(vec![pt(0, 0), pt(1, 0), pt(1, 1), pt(2, 1)]);
    let original = b.vertices.clone();
    for _ in 0..4 {
        rotate(&mut b);
    }
    assert_eq!(b.vertices, original);
    assert!(matches!(b.orientation, BrickOrientation::Horizontal));
}

#[test]
fn generated_brick_is_from_the_catalog() {
    let b = generate_brick();
    let catalog = vec![
        vec![pt(0, 0), pt(0, 1), pt(0, 2)],
        vec![pt(0, 0), pt(1, 0), pt(1, 1), pt(2, 1)],
        vec![pt(0, 0), pt(0, 1), pt(1, 1), pt(1, 0)],
        vec![pt(0, 0), pt(1, 0), pt(0, 1)],
        vec![pt(0, 0), pt(1, 1), pt(1, 0), pt(2, 0)],
    ];
    assert!(catalog.contains(&b.vertices));
    assert!(matches!(b.orientation, BrickOrientation::Horizontal));
    assert_eq!(get_width(&b), calculate_width(&b.vertices));
    assert_eq!(get_height(&b), calculate_height(&b.vertices));
}

fn singleton_brick(x: i32, y: i32) -> DeadBrick {
    let b = build_brick(vec![pt(0, 0)]);
    DeadBrick { vertices: vec![pt(x, y)], color: b.color }
}

#[test]
fn empty_field_has_no_occupancy_and_no_full_rows() {
    let f = create_field(7, 10);
    assert_eq!(f.bricks.len(), 0);
    assert!(!does_vertex_exist(&f, 5, 1));
    assert!(find_full_rows(&f).is_empty());
}

#[test]
fn collision_oracle_detects_exact_overlap_only() {
    let mut f = create_field(7, 10);
    f.bricks.push(singleton_brick(1, 9));
    assert!(will_have_collision(&vec![pt(1, 9)], &f));
    assert!(!will_have_collision(&vec![pt(2, 9), pt(3, 9)], &f));
}

#[test]
fn full_row_detection_lists_rows_bottom_up() {
    let mut f = create_field(7, 10);
    let cells: Vec<Point> = (1..=5).map(|x| pt(x, 9)).collect();
    let color = singleton_brick(0, 0).color;
    f.bricks.push(DeadBrick { vertices: cells, color });
    f.bricks.push(singleton_brick(1, 8));
    let rows = find_full_rows(&f);
    assert_eq!(rows, vec![9]);
}

#[test]
fn descent_stops_at_the_floor_and_on_other_bricks() {
    let mut f = create_field(7, 10);
    f.bricks.push(singleton_brick(1, 9));
    f.bricks.push(singleton_brick(1, 5));
    assert!(!can_descend_dead_brick(&f, 0));
    assert!(can_descend_dead_brick(&f, 1));
    f.bricks.push(singleton_brick(1, 4));
    assert!(!can_descend_dead_brick(&f, 2));
}

#[test]
fn two_stacked_singletons_settle_onto_the_floor() {
    let mut f = create_field(7, 10);
    f.bricks.push(singleton_brick(1, 5));
    f.bricks.push(singleton_brick(1, 6));
    assert!(did_lower_dead_brick(&mut f, 1));
    assert!(did_lower_dead_brick(&mut f, 0));
    assert!(!did_lower_dead_brick(&mut f, 1));
    assert!(!did_lower_dead_brick(&mut f, 0));
    assert_eq!(f.bricks.len(), 2);
    assert_eq!(f.bricks[0].vertices, vec![pt(1, 8)]);
    assert_eq!(f.bricks[1].vertices, vec![pt(1, 9)]);
}

#[test]
fn neighbourless_cell_is_detected_and_adjacent_pair_is_not() {
    let lonely = vec![pt(0, 0), pt(5, 5)];
    assert!(!cell_has_neighbor(&lonely, 0));
    assert!(!cell_has_neighbor(&lonely, 1));
    let pair = vec![pt(1, 5), pt(1, 6), pt(4, 4)];
    assert!(cell_has_neighbor(&pair, 0));
    assert!(cell_has_neighbor(&pair, 1));
    assert!(!cell_has_neighbor(&pair, 2));
}

#[test]
fn screen_translation_maps_a_whole_piece() {
    let v = i_brick_vertices();
    let screened = get_screen_translated_vertices(&v, &pt(2, 9));
    assert_eq!(screened, vec![pt(2, 9), pt(2, 8), pt(2, 7)]);
    let lowered = get_translated_vertices(&screened, &pt(0, 1));
    assert_eq!(lowered, vec![pt(2, 10), pt(2, 9), pt(2, 8)]);
}

#[test]
fn interval_shrinks_by_one_part_in_a_thousand() {
    assert_eq!(shorten_interval(1000), 999);
    assert_eq!(shorten_interval(500), 499);
    assert_eq!(shorten_interval(1), 0);
}

#[test]
fn key_codes_round_trip_and_unknown_codes_are_ignored() {
    for k in [Keys::Up, Keys::Right, Keys::Left, Keys::Abort] {
        assert_eq!(key_from_code(key_code(k)), Some(k));
    }
    assert_eq!(key_from_code(0), None);
    assert_eq!(key_from_code(5), None);
}

#[test]
fn a_field_is_built_with_its_bounds() {
    let f: Field = create_field(7, 10);
    assert_eq!(f.width, 7);
    assert_eq!(f.height, 10);
}

#[test]
fn clearing_a_single_full_row_empties_the_field() {
    let mut f = create_field(7, 10);
    let cells: Vec<Point> = (1..=5).map(|x| pt(x, 9)).collect();
    let color = singleton_brick(0, 0).color;
    f.bricks.push(DeadBrick { vertices: cells, color });
    assert_eq!(find_full_rows(&f), vec![9]);
    brickfall::field::remove_full_rows(&mut f);
    assert_eq!(f.bricks.len(), 0);
    assert!(!does_vertex_exist(&f, 9, 1));
    assert!(find_full_rows(&f).is_empty());
}

#[test]
fn cascade_clears_exposed_rows_and_resettles_debris() {
    let mut f = create_field(7, 10);
    let color = singleton_brick(0, 0).color;
    let mut cells: Vec<Point> = (1..=5).map(|x| pt(x, 9)).collect();
    cells.push(pt(1, 8));
    f.bricks.push(DeadBrick { vertices: cells, color });
    brickfall::field::remove_full_rows(&mut f);
    assert_eq!(f.bricks.len(), 1);
    assert_eq!(f.bricks[0].vertices, vec![pt(1, 9)]);
    assert!(find_full_rows(&f).is_empty());
}

#[test]
fn running_the_engine_twice_changes_nothing_the_second_time() {
    let mut f = create_field(7, 10);
    let color = singleton_brick(0, 0).color;
    let mut cells: Vec<Point> = (1..=5).map(|x| pt(x, 9)).collect();
    cells.push(pt(2, 8));
    f.bricks.push(DeadBrick { vertices: cells, color });
    brickfall::field::remove_full_rows(&mut f);
    let after_first: Vec<Vec<Point>> = f.bricks.iter().map(|b| b.vertices.clone()).collect();
    brickfall::field::remove_full_rows(&mut f);
    let after_second: Vec<Vec<Point>> = f.bricks.iter().map(|b| b.vertices.clone()).collect();
    assert_eq!(after_first, after_second);
}

#[test]
fn a_neighbourless_cell_is_peeled_into_its_own_brick() {
    let mut f = create_field(7, 10);
    let color = singleton_brick(0, 0).color;
    f.bricks.push(DeadBrick { vertices: vec![pt(1, 5), pt(1, 6), pt(4, 8)], color });
    brickfall::field::split_disconnected_subbricks(&mut f);
    assert_eq!(f.bricks.len(), 2);
    assert_eq!(f.bricks[0].vertices, vec![pt(1, 5), pt(1, 6)]);
    assert_eq!(f.bricks[1].vertices, vec![pt(4, 8)]);
    assert_eq!(f.bricks[1].color, color);
}

#[test]
fn an_adjacent_pair_cut_off_from_its_brick_is_never_split() {
    let mut f = create_field(7, 10);
    let color = singleton_brick(0, 0).color;
    f.bricks.push(DeadBrick { vertices: vec![pt(1, 1), pt(1, 2), pt(4, 5), pt(4, 6)], color });
    brickfall::field::split_disconnected_subbricks(&mut f);
    assert_eq!(f.bricks.len(), 1);
    assert_eq!(f.bricks[0].vertices, vec![pt(1, 1), pt(1, 2), pt(4, 5), pt(4, 6)]);
}

#[test]
fn settling_passes_bring_stacked_bricks_to_the_floor() {
    let mut f = create_field(7, 10);
    f.bricks.push(singleton_brick(1, 5));
    f.bricks.push(singleton_brick(1, 6));
    brickfall::field::settle_all(&mut f);
    assert_eq!(f.bricks.len(), 2);
    assert_eq!(f.bricks[0].vertices, vec![pt(1, 8)]);
    assert_eq!(f.bricks[1].vertices, vec![pt(1, 9)]);
}

#[test]
fn rotation_is_committed_only_when_the_future_width_fits() {
    let f = create_field(7, 10);
    let mut b = build_brick(i_brick_vertices());
    assert!(brickfall::field::try_rotate_brick(&mut b, &pt(2, 0), &f));
    assert!(matches!(b.orientation, BrickOrientation::Vertical));
    assert_eq!(b.vertices, vec![pt(0, 0), pt(1, 0), pt(2, 0)]);

    let mut c = build_brick(i_brick_vertices());
    let before = c.vertices.clone();
    assert!(!brickfall::field::try_rotate_brick(&mut c, &pt(4, 0), &f));
    assert!(matches!(c.orientation, BrickOrientation::Horizontal));
    assert_eq!(c.vertices, before);
}

#[test]
fn landing_a_brick_settles_it_into_the_field() {
    let mut f = create_field(7, 10);
    let b = build_brick(vec![pt(0, 0), pt(0, 1), pt(1, 1), pt(1, 0)]);
    let piece_color = b.color;
    brickfall::field::land_brick(&b, &pt(1, 9), &mut f);
    assert_eq!(f.bricks.len(), 1);
    assert_eq!(f.bricks[0].vertices, vec![pt(1, 9), pt(1, 8), pt(2, 8), pt(2, 9)]);
    assert_eq!(f.bricks[0].color, piece_color);
    assert!(find_full_rows(&f).is_empty());
}

#[test]
fn sideways_moves_respect_borders_and_bricks() {
    let mut f = create_field(7, 10);
    let b = build_brick(i_brick_vertices());
    let mut mn = pt(2, 5);
    assert!(brickfall::field::move_brick_right(&b, &mut mn, &f));
    assert_eq!(mn, pt(3, 5));
    assert!(brickfall::field::move_brick_right(&b, &mut mn, &f));
    assert_eq!(mn, pt(4, 5));
    assert!(brickfall::field::move_brick_right(&b, &mut mn, &f));
    assert_eq!(mn, pt(5, 5));
    assert!(!brickfall::field::move_brick_right(&b, &mut mn, &f));
    assert_eq!(mn, pt(5, 5));
    let mut mn2 = pt(2, 5);
    f.bricks.push(singleton_brick(1, 4));
    assert!(!brickfall::field::move_brick_left(&b, &mut mn2, &f));
    assert_eq!(mn2, pt(2, 5));
}

#[test]
fn a_spawned_brick_is_clamped_inside_the_right_border() {
    let f = create_field(7, 10);
    let b = build_brick(vec![pt(0, 0), pt(1, 0), pt(1, 1), pt(2, 1)]);
    let mut mn = pt(5, 4);
    brickfall::field::reset_master_node(&b, &mut mn, &f);
    assert_eq!(mn, pt(3, 0));
    let mut mn2 = pt(2, 7);
    brickfall::field::reset_master_node(&b, &mut mn2, &f);
    assert_eq!(mn2, pt(2, 0));
}
