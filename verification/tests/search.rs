use std::collections::HashSet;
use std::sync::atomic::{AtomicBool, Ordering};
use talos::field::Field;
use talos::search::run_worker;
use talos::tetris::{Tetromino, Tetrominoes};

fn shape_with_label(field: &Field, label: u16) -> Vec<(u8, u8)> {
    let mut cells = Vec::new();
    for y in 0..field.height() {
        for x in 0..field.width() {
            if field.cell(x, y) == label {
                cells.push((x, y));
            }
        }
    }
    let left = cells.iter().map(|c| c.0).min().unwrap_or(0);
    let top = cells.iter().map(|c| c.1).min().unwrap_or(0);
    cells.iter().map(|c| (c.0 - left, c.1 - top)).collect()
}

/// The name of the kind of `pieces` that has `shape` among its rotations.
fn kind_of(pieces: &[&Tetromino], shape: &[(u8, u8)]) -> Option<String> {
    pieces
        .iter()
        .find(|kind| {
            kind.variants.iter().any(|variant| {
                let mut blocks: Vec<(u8, u8)> = variant.blocks.iter().map(|b| (b.x, b.y)).collect();
                blocks.sort_by_key(|b| (b.1, b.0));
                blocks == shape
            })
        })
        .map(|kind| kind.name().to_string())
}

/// The kinds of the pieces on a full field, in the order of their labels, if
/// the field is a tiling by a reordering of `pieces`.
fn tiling_order(field: &Field, pieces: &[&Tetromino]) -> Option<Vec<String>> {
    let area = field.width() as usize * field.height() as usize;
    if !field.is_full() || field.free_count() != 0 || area != 4 * pieces.len() {
        return None;
    }
    let mut order = Vec::new();
    for label in 1..=pieces.len() as u16 {
        let shape = shape_with_label(field, label);
        if shape.len() != 4 {
            return None;
        }
        order.push(kind_of(pieces, &shape)?);
    }
    let mut found = order.clone();
    found.sort();
    let mut asked: Vec<String> = pieces.iter().map(|kind| kind.name().to_string()).collect();
    asked.sort();
    if found == asked {
        Some(order)
    } else {
        None
    }
}

#[test]
fn worker_finds_a_valid_tiling() {
    let catalogue = Tetrominoes::new();
    let pieces = catalogue.collection_from_string("O1I1L1J1").unwrap();
    let done = AtomicBool::new(false);
    let field = run_worker(&Field::new(4, 4), &pieces, Some(&done)).unwrap();
    assert!(tiling_order(&field, &pieces).is_some());
    assert!(done.load(Ordering::SeqCst));
    assert!(field.operations() >= 4);
}

#[test]
fn worker_without_flag_finds_a_valid_tiling() {
    let catalogue = Tetrominoes::new();
    let pieces = catalogue.collection_from_string("I2T2S1Z1L1").unwrap();
    let field = run_worker(&Field::new(7, 4), &pieces, None).unwrap();
    assert!(tiling_order(&field, &pieces).is_some());
}

#[test]
fn only_the_first_of_the_workers_wins() {
    let catalogue = Tetrominoes::new();
    let pieces = catalogue.collection_from_string("O2L2").unwrap();
    for workers in 1..=16 {
        let done = AtomicBool::new(false);
        let mut winners = Vec::new();
        for _ in 0..workers {
            if let Some(field) = run_worker(&Field::new(4, 4), &pieces, Some(&done)) {
                winners.push(field);
            }
        }
        assert_eq!(winners.len(), 1);
        assert!(tiling_order(&winners[0], &pieces).is_some());
    }
}

#[test]
fn workers_report_no_solution_for_an_unsolvable_puzzle() {
    let catalogue = Tetrominoes::new();
    for spec in ["O2", "I1L1", "T2", "S1Z1J1"] {
        let pieces = catalogue.collection_from_string(spec).unwrap();
        for workers in 1..=16 {
            let done = AtomicBool::new(false);
            for _ in 0..workers {
                assert!(run_worker(&Field::new(3, 3), &pieces, Some(&done)).is_none());
            }
            assert!(!done.load(Ordering::SeqCst));
        }
    }
}

#[test]
fn worker_finds_no_tiling_by_two_squares_with_l_and_j() {
    let catalogue = Tetrominoes::new();
    let pieces = catalogue.collection_from_string("O2L1J1").unwrap();
    for _ in 0..20 {
        assert!(run_worker(&Field::new(4, 4), &pieces, None).is_none());
    }
}

#[test]
fn worker_gives_no_solution_for_too_few_pieces() {
    let catalogue = Tetrominoes::new();
    let pieces = catalogue.collection_from_string("O1L1J1").unwrap();
    assert!(run_worker(&Field::new(4, 4), &pieces, None).is_none());
}

#[test]
fn worker_gives_no_solution_where_no_piece_fits() {
    let catalogue = Tetrominoes::new();
    let pieces = catalogue.collection_from_string("O1").unwrap();
    assert!(run_worker(&Field::new(1, 1), &pieces, None).is_none());
}

#[test]
fn worker_goes_on_from_what_the_field_holds() {
    let catalogue = Tetrominoes::new();
    let o = catalogue.get("O").unwrap();
    let mut start = Field::new(4, 4);
    start.add(&o.variants[0], 0, 0);
    let pieces = catalogue.collection_from_string("O1L2").unwrap();
    let field = run_worker(&start, &pieces, None).unwrap();
    assert!(field.is_full());
    assert_eq!(field.cell(0, 0), 1);
    assert_eq!(field.cell(1, 1), 1);
    assert_eq!(field.current(), 5);
    let all = catalogue.collection_from_string("O2L2").unwrap();
    assert!(tiling_order(&field, &all).is_some());
    // the field handed in is left as it was
    assert_eq!(start.filled(), 4);
    assert_eq!(start.current(), 2);
    assert_eq!(start.render(), "|11  |\n|11  |\n|    |\n|    |\n");
}

#[test]
fn worker_leaves_the_list_of_pieces_as_it_was() {
    let catalogue = Tetrominoes::new();
    let pieces = catalogue.collection_from_string("I2T2S1Z1L1").unwrap();
    let before: Vec<String> = pieces.iter().map(|kind| kind.name().to_string()).collect();
    let _ = run_worker(&Field::new(7, 4), &pieces, None);
    let after: Vec<String> = pieces.iter().map(|kind| kind.name().to_string()).collect();
    assert_eq!(before, after);
}

#[test]
fn workers_place_the_pieces_in_different_orders() {
    let catalogue = Tetrominoes::new();
    let pieces = catalogue.collection_from_string("O1I1L1J1").unwrap();
    let mut orders = HashSet::new();
    for _ in 0..200 {
        let field = run_worker(&Field::new(4, 4), &pieces, None).unwrap();
        orders.insert(tiling_order(&field, &pieces).unwrap());
    }
    assert!(orders.len() > 1);
}
