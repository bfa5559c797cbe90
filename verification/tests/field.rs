use talos::field::Field;
use talos::tetris::{TetrominoVariant, I, L, O, T};

fn labels(field: &Field) -> Vec<Vec<u16>> {
    (0..field.height())
        .map(|y| (0..field.width()).map(|x| field.cell(x, y)).collect())
        .collect()
}

fn free_cells(field: &Field) -> Vec<(i32, i32)> {
    let mut cells = field.free_cells().to_vec();
    cells.sort();
    cells
}

#[test]
fn new_field_is_empty() {
    let field = Field::new(4, 3);
    assert_eq!(field.width(), 4);
    assert_eq!(field.height(), 3);
    assert_eq!(field.filled(), 0);
    assert_eq!(field.current(), 1);
    assert_eq!(field.operations(), 0);
    assert_eq!(field.free_count(), 12);
    assert!(!field.is_full());
    assert_eq!(labels(&field), vec![vec![0; 4]; 3]);
    let mut expected = Vec::new();
    for x in 0..4 {
        for y in 0..3 {
            expected.push((x, y));
        }
    }
    assert_eq!(free_cells(&field), expected);
}

#[test]
fn field_without_cells_is_full() {
    let field = Field::new(0, 5);
    assert_eq!(field.free_count(), 0);
    assert!(field.is_full());
    assert_eq!(field.render(), "||\n||\n||\n||\n||\n");
}

#[test]
fn largest_field_has_all_its_cells() {
    let field = Field::new(255, 255);
    assert_eq!(field.free_count(), 65025);
    assert_eq!(field.cell(254, 254), 0);
    assert!(!field.is_full());
}

#[test]
fn add_labels_the_cells_of_the_shape() {
    let mut field = Field::new(4, 3);
    let l = L();
    field.add(&l.variants[0], 1, 0);
    assert_eq!(
        labels(&field),
        vec![vec![0, 1, 0, 0], vec![0, 1, 0, 0], vec![0, 1, 1, 0]]
    );
    assert_eq!(field.filled(), 4);
    assert_eq!(field.current(), 2);
    assert_eq!(field.operations(), 1);
    assert_eq!(field.free_count(), 8);
    for cell in [(1, 0), (1, 1), (1, 2), (2, 2)] {
        assert!(!field.free_cells().contains(cell));
    }
    assert!(field.free_cells().contains((0, 0)));
    let t = T();
    field.add(&t.variants[3], 2, 0);
    assert_eq!(
        labels(&field),
        vec![vec![0, 1, 0, 2], vec![0, 1, 2, 2], vec![0, 1, 1, 2]]
    );
    assert_eq!(field.filled(), 8);
    assert_eq!(field.current(), 3);
    assert_eq!(field.operations(), 2);
}

#[test]
fn add_then_remove_restores_the_field() {
    let mut field = Field::new(5, 4);
    let o = O();
    let t = T();
    field.add(&o.variants[0], 0, 0);
    let labels_before = labels(&field);
    let free_before = free_cells(&field);
    let filled_before = field.filled();
    let current_before = field.current();
    for (i, variant) in t.variants.iter().enumerate() {
        field.add(variant, 2, 1);
        assert_ne!(labels(&field), labels_before);
        assert_eq!(field.filled(), filled_before + 4);
        assert_eq!(field.current(), current_before + 1);
        field.remove(variant, 2, 1);
        assert_eq!(labels(&field), labels_before);
        assert_eq!(free_cells(&field), free_before);
        assert_eq!(field.filled(), filled_before);
        assert_eq!(field.current(), current_before);
        assert_eq!(field.operations(), 2 + i as u64);
    }
}

#[test]
fn field_is_full_when_every_cell_is_covered() {
    let mut field = Field::new(4, 2);
    let i = I();
    field.add(&i.variants[1], 0, 0);
    assert!(!field.is_full());
    field.add(&i.variants[1], 0, 1);
    assert!(field.is_full());
    assert_eq!(field.filled(), 8);
    assert_eq!(field.free_count(), 0);
    field.remove(&i.variants[1], 0, 1);
    assert!(!field.is_full());
    assert_eq!(free_cells(&field), vec![(0, 1), (1, 1), (2, 1), (3, 1)]);
}

#[test]
fn render_shows_labels_as_hexadecimal_digits() {
    let mut field = Field::new(4, 3);
    assert_eq!(field.render(), "|    |\n|    |\n|    |\n");
    let l = L();
    field.add(&l.variants[0], 1, 0);
    assert_eq!(field.render(), "| 1  |\n| 1  |\n| 11 |\n");
}

#[test]
fn render_uses_letters_from_the_tenth_piece_on() {
    let mut field = Field::new(4, 15);
    let flat: &TetrominoVariant = &I().variants[1];
    for y in 0..15 {
        field.add(flat, 0, y);
    }
    assert!(field.is_full());
    assert_eq!(
        field.render(),
        "|1111|\n|2222|\n|3333|\n|4444|\n|5555|\n|6666|\n|7777|\n|8888|\n|9999|\n\
         |aaaa|\n|bbbb|\n|cccc|\n|dddd|\n|eeee|\n|ffff|\n"
    );
}

#[test]
fn clone_is_a_field_of_its_own() {
    let mut field = Field::new(4, 3);
    field.add(&O().variants[0], 0, 0);
    let mut copy = field.clone();
    assert_eq!(labels(&copy), labels(&field));
    assert_eq!(free_cells(&copy), free_cells(&field));
    assert_eq!(copy.filled(), 4);
    assert_eq!(copy.current(), 2);
    assert_eq!(copy.operations(), 1);
    copy.add(&O().variants[0], 2, 0);
    assert_eq!(copy.filled(), 8);
    assert_eq!(field.filled(), 4);
    assert_eq!(field.cell(2, 0), 0);
    assert_eq!(copy.cell(2, 0), 2);
    assert!(field.free_cells().contains((2, 0)));
    assert!(!copy.free_cells().contains((2, 0)));
    field.remove(&O().variants[0], 0, 0);
    assert_eq!(copy.cell(0, 0), 1);
    assert_eq!(field.render(), "|    |\n|    |\n|    |\n");
    assert_eq!(copy.render(), "|1122|\n|1122|\n|    |\n");
}
