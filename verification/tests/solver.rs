use std::sync::atomic::{AtomicBool, Ordering};
use talos::field::Field;
use talos::solver::{can_be_placed, have_enough_space, solve_impl};
use talos::tetris::{Tetromino, Tetrominoes, I, J, L, O, T};

/// The cells that bear `label`, moved so that their bounding box starts at
/// the origin, in reading order.
fn shape_of(field: &Field, label: u16) -> Vec<(u8, u8)> {
    let mut cells = Vec::new();
    for y in 0..field.height() {
        for x in 0..field.width() {
            if field.cell(x, y) == label {
                cells.push((x, y));
            }
        }
    }
    let left = cells.iter().map(|c| c.0).min().unwrap_or(0);
    let top = cells.iter().map(|c| c.1).min().unwrap_or(0);
    cells.iter().map(|c| (c.0 - left, c.1 - top)).collect()
}

fn is_rotation_of(kind: &Tetromino, shape: &[(u8, u8)]) -> bool {
    kind.variants.iter().any(|variant| {
        let mut blocks: Vec<(u8, u8)> = variant.blocks.iter().map(|b| (b.x, b.y)).collect();
        blocks.sort_by_key(|b| (b.1, b.0));
        blocks == shape
    })
}

/// Whether the field is a tiling by the pieces in the order given: piece
/// `k` bears the label `k + 1` and covers a rotation of its kind.
fn is_tiling(field: &Field, pieces: &[&Tetromino]) -> bool {
    let area = field.width() as usize * field.height() as usize;
    if !field.is_full() || field.filled() != area || field.free_count() != 0 {
        return false;
    }
    if area != 4 * pieces.len() {
        return false;
    }
    for y in 0..field.height() {
        for x in 0..field.width() {
            let label = field.cell(x, y);
            if label == 0 || label as usize > pieces.len() {
                return false;
            }
        }
    }
    pieces.iter().enumerate().all(|(k, kind)| {
        let shape = shape_of(field, k as u16 + 1);
        shape.len() == 4 && is_rotation_of(kind, &shape)
    })
}

fn is_empty(field: &Field) -> bool {
    let area = field.width() as usize * field.height() as usize;
    field.filled() == 0
        && field.current() == 1
        && field.free_count() == area
        && (0..field.height()).all(|y| (0..field.width()).all(|x| field.cell(x, y) == 0))
}

#[test]
fn too_few_pieces_give_no_solution() {
    let catalogue = Tetrominoes::new();
    let pieces = catalogue.collection_from_string("O1L1J1").unwrap();
    let mut field = Field::new(4, 4);
    assert!(!solve_impl(&mut field, &pieces, 0, None));
    assert!(is_empty(&field));
    assert_eq!(field.operations(), 129);
}

#[test]
fn four_by_four_is_tiled() {
    let catalogue = Tetrominoes::new();
    for spec in ["O2L2", "O1I1L1J1", "L2J2", "I4", "O4", "T4"] {
        let pieces = catalogue.collection_from_string(spec).unwrap();
        let mut field = Field::new(4, 4);
        assert!(solve_impl(&mut field, &pieces, 0, None));
        assert!(field.is_full());
        assert_eq!(field.filled(), 16);
        assert_eq!(field.free_count(), 0);
        assert_eq!(field.current(), 5);
        assert!(is_tiling(&field, &pieces));
    }
}

#[test]
fn two_squares_with_l_and_j_do_not_tile_four_by_four() {
    let catalogue = Tetrominoes::new();
    for spec in ["O2L1J1", "O1L1O1J1", "J1L1O2", "L1O2J1"] {
        let pieces = catalogue.collection_from_string(spec).unwrap();
        assert_eq!(pieces.len(), 4);
        let mut field = Field::new(4, 4);
        assert!(!solve_impl(&mut field, &pieces, 0, None));
        assert!(is_empty(&field));
    }
}

#[test]
fn piece_larger_than_the_grid_gives_no_solution() {
    let catalogue = Tetrominoes::new();
    let pieces = catalogue.collection_from_string("O1").unwrap();
    let mut field = Field::new(1, 1);
    assert!(!solve_impl(&mut field, &pieces, 0, None));
    assert!(is_empty(&field));
    assert_eq!(field.operations(), 0);
}

#[test]
fn malformed_piece_string_fails_before_any_search() {
    let catalogue = Tetrominoes::new();
    let error = catalogue.collection_from_string("Q1").unwrap_err();
    assert_eq!(error.message(), "Invalid tetromino character: Q");
}

#[test]
fn seven_by_four_is_tiled() {
    let catalogue = Tetrominoes::new();
    let pieces = catalogue.collection_from_string("I2T2S1Z1L1").unwrap();
    let mut field = Field::new(7, 4);
    assert!(solve_impl(&mut field, &pieces, 0, None));
    assert!(is_tiling(&field, &pieces));
    assert!(field.operations() >= 7);
}

#[test]
fn search_is_the_same_every_time() {
    let catalogue = Tetrominoes::new();
    let pieces = catalogue.collection_from_string("L2J2T4").unwrap();
    let mut first = Field::new(8, 4);
    let mut second = Field::new(8, 4);
    assert!(solve_impl(&mut first, &pieces, 0, None));
    assert!(solve_impl(&mut second, &pieces, 0, None));
    assert_eq!(first.render(), second.render());
    assert_eq!(first.operations(), second.operations());
}

#[test]
fn grid_whose_area_is_no_multiple_of_four_is_never_tiled() {
    let catalogue = Tetrominoes::new();
    for spec in ["O2", "L2", "I2", "T1S1", "J1Z1L1"] {
        let pieces = catalogue.collection_from_string(spec).unwrap();
        let mut field = Field::new(3, 3);
        assert!(!solve_impl(&mut field, &pieces, 0, None));
        assert!(is_empty(&field));
    }
}

#[test]
fn search_stops_as_soon_as_the_grid_is_full() {
    let catalogue = Tetrominoes::new();
    let pieces = catalogue.collection_from_string("I2O3").unwrap();
    let mut field = Field::new(4, 2);
    assert!(solve_impl(&mut field, &pieces, 0, None));
    assert!(field.is_full());
    assert_eq!(field.current(), 3);
    assert_eq!(field.render(), "|1111|\n|2222|\n");
    // the upright rotation does not fit; the flat one is put down twice
    assert_eq!(field.operations(), 2);
}

#[test]
fn placements_are_counted_whether_or_not_they_stay() {
    let catalogue = Tetrominoes::new();
    let pieces = catalogue.collection_from_string("O1I2").unwrap();
    let mut field = Field::new(4, 3);
    // upright bars do not fit a grid of three rows, and once the square
    // lies there at most one row is left for a flat bar
    assert!(!solve_impl(&mut field, &pieces, 0, None));
    assert!(is_empty(&field));
    assert_eq!(field.operations(), 12);
}

#[test]
fn search_takes_the_first_solution_in_the_order_of_its_choices() {
    let catalogue = Tetrominoes::new();
    let pieces = catalogue.collection_from_string("O2L2").unwrap();
    let mut field = Field::new(4, 4);
    assert!(solve_impl(&mut field, &pieces, 0, None));
    assert_eq!(field.render(), "|1122|\n|1122|\n|3334|\n|3444|\n");
    assert_eq!(field.operations(), 4);

    let pieces = catalogue.collection_from_string("I2T2S1Z1L1").unwrap();
    let mut field = Field::new(7, 4);
    assert!(solve_impl(&mut field, &pieces, 0, None));
    assert_eq!(field.render(), "|1277755|\n|1276554|\n|1266344|\n|1263334|\n");
    assert_eq!(field.operations(), 125);
}

#[test]
fn search_from_the_end_of_the_list_fails() {
    let catalogue = Tetrominoes::new();
    let pieces = catalogue.collection_from_string("I2").unwrap();
    let mut field = Field::new(4, 2);
    assert!(!solve_impl(&mut field, &pieces, 2, None));
    assert!(!solve_impl(&mut field, &pieces, 7, None));
    assert!(!solve_impl(&mut field, &pieces, 1, None));
    assert!(is_empty(&field));
    assert!(!solve_impl(&mut field, &[], 0, None));
}

#[test]
fn search_goes_on_from_a_partly_filled_field() {
    let mut field = Field::new(4, 4);
    let o = O();
    let i = I();
    field.add(&o.variants[0], 0, 0);
    let pieces = [&i, &o, &i];
    assert!(solve_impl(&mut field, &pieces, 0, None));
    assert!(field.is_full());
    assert_eq!(field.cell(0, 0), 1);
    assert_eq!(field.current(), 5);
    let all = [&o, &i, &o, &i];
    assert!(is_tiling(&field, &all));
}

#[test]
fn dead_region_is_pruned_without_recursion() {
    let l = L();
    let pieces = [&l, &l];
    let mut field = Field::new(3, 3);
    assert!(!solve_impl(&mut field, &pieces, 0, None));
    assert!(is_empty(&field));
    // eight placements of the first piece, each taken back at once
    assert_eq!(field.operations(), 8);
}

#[test]
fn region_of_wrong_size_leaves_not_enough_space() {
    let mut field = Field::new(4, 4);
    assert!(have_enough_space(&field));
    let j = J();
    let t = T();
    // cuts the corner cell (0, 0) off from the rest
    field.add(&t.variants[0], 0, 0);
    assert!(!have_enough_space(&field));
    field.remove(&t.variants[0], 0, 0);
    assert!(have_enough_space(&field));
    // leaves one region of twelve cells
    field.add(&j.variants[2], 0, 0);
    assert!(have_enough_space(&field));
    // leaves regions of two and six cells
    field.add(&j.variants[2], 2, 1);
    assert!(!have_enough_space(&field));
}

#[test]
fn full_field_has_enough_space() {
    let mut field = Field::new(2, 2);
    field.add(&O().variants[0], 0, 0);
    assert!(field.is_full());
    assert!(have_enough_space(&field));
}

#[test]
fn shape_can_be_placed_on_empty_cells_only() {
    let mut field = Field::new(4, 3);
    let o = O();
    let l = L();
    let i = I();
    let square = &o.variants[0];
    assert!(can_be_placed(&field, square, 0, 0));
    assert!(can_be_placed(&field, square, 2, 1));
    field.add(square, 1, 0);
    for (x, y) in [(0, 0), (1, 0), (2, 0), (0, 1), (1, 1), (2, 1)] {
        assert!(!can_be_placed(&field, square, x, y));
    }
    assert!(can_be_placed(&field, &l.variants[0], 0, 0));
    assert!(can_be_placed(&field, &l.variants[3], 1, 1));
    assert!(!can_be_placed(&field, &l.variants[1], 1, 1));
    assert!(!can_be_placed(&field, &l.variants[1], 0, 1));
    assert!(can_be_placed(&field, &i.variants[1], 0, 2));
}

#[test]
fn search_that_finds_the_flag_set_gives_up() {
    let catalogue = Tetrominoes::new();
    let pieces = catalogue.collection_from_string("O2L2").unwrap();
    let done = AtomicBool::new(true);
    let mut field = Field::new(4, 4);
    assert!(!solve_impl(&mut field, &pieces, 0, Some(&done)));
    assert!(is_empty(&field));
    assert_eq!(field.operations(), 0);
    assert!(done.load(Ordering::SeqCst));
}

#[test]
fn search_that_succeeds_sets_the_flag() {
    let catalogue = Tetrominoes::new();
    let pieces = catalogue.collection_from_string("O2L2").unwrap();
    let done = AtomicBool::new(false);
    let mut field = Field::new(4, 4);
    assert!(solve_impl(&mut field, &pieces, 0, Some(&done)));
    assert!(is_tiling(&field, &pieces));
    assert!(done.load(Ordering::SeqCst));
}

#[test]
fn search_that_fails_leaves_the_flag() {
    let catalogue = Tetrominoes::new();
    let pieces = catalogue.collection_from_string("O1L1J1").unwrap();
    let done = AtomicBool::new(false);
    let mut field = Field::new(4, 4);
    assert!(!solve_impl(&mut field, &pieces, 0, Some(&done)));
    assert!(is_empty(&field));
    assert!(!done.load(Ordering::SeqCst));
}
