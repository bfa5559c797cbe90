use talos::tetris::{Block, Tetromino, TetrominoError, TetrominoVariant, Tetrominoes, I, J, L, O, S, T, Z};

fn blocks_of(variant: &TetrominoVariant) -> Vec<(u8, u8)> {
    variant.blocks.iter().map(|b: &Block| (b.x, b.y)).collect()
}

fn names_of(pieces: &[&Tetromino]) -> String {
    pieces.iter().map(|t| t.name()).collect()
}

#[test]
fn picture_is_read_row_by_row() {
    let variant = TetrominoVariant::from_string_lines(vec![" #", " #", "##"]);
    assert_eq!(variant.width, 2);
    assert_eq!(variant.height, 3);
    assert_eq!(blocks_of(&variant), vec![(1, 0), (1, 1), (0, 2), (1, 2)]);
}

#[test]
fn picture_without_marks_has_no_blocks() {
    let variant = TetrominoVariant::from_string_lines(vec!["   "]);
    assert_eq!(variant.width, 3);
    assert_eq!(variant.height, 1);
    assert!(variant.blocks.is_empty());
}

#[test]
fn straight_piece_has_two_rotations() {
    let kind = I();
    assert_eq!(kind.name(), "I");
    assert_eq!(kind.variants.len(), 2);
    assert_eq!((kind.variants[0].width, kind.variants[0].height), (1, 4));
    assert_eq!(blocks_of(&kind.variants[0]), vec![(0, 0), (0, 1), (0, 2), (0, 3)]);
    assert_eq!((kind.variants[1].width, kind.variants[1].height), (4, 1));
    assert_eq!(blocks_of(&kind.variants[1]), vec![(0, 0), (1, 0), (2, 0), (3, 0)]);
}

#[test]
fn square_piece_has_one_rotation() {
    let kind = O();
    assert_eq!(kind.name(), "O");
    assert_eq!(kind.variants().len(), 1);
    assert_eq!((kind.variants[0].width, kind.variants[0].height), (2, 2));
    assert_eq!(blocks_of(&kind.variants[0]), vec![(0, 0), (1, 0), (0, 1), (1, 1)]);
}

#[test]
fn j_and_l_are_mirror_images() {
    let j = J();
    let l = L();
    assert_eq!(j.variants.len(), 4);
    assert_eq!(l.variants.len(), 4);
    assert_eq!(blocks_of(&j.variants[0]), vec![(1, 0), (1, 1), (0, 2), (1, 2)]);
    assert_eq!(blocks_of(&j.variants[1]), vec![(0, 0), (0, 1), (1, 1), (2, 1)]);
    assert_eq!(blocks_of(&j.variants[2]), vec![(0, 0), (1, 0), (0, 1), (0, 2)]);
    assert_eq!(blocks_of(&j.variants[3]), vec![(0, 0), (1, 0), (2, 0), (2, 1)]);
    assert_eq!(blocks_of(&l.variants[0]), vec![(0, 0), (0, 1), (0, 2), (1, 2)]);
    assert_eq!(blocks_of(&l.variants[1]), vec![(0, 0), (1, 0), (2, 0), (0, 1)]);
    assert_eq!(blocks_of(&l.variants[2]), vec![(0, 0), (1, 0), (1, 1), (1, 2)]);
    assert_eq!(blocks_of(&l.variants[3]), vec![(2, 0), (0, 1), (1, 1), (2, 1)]);
    for a in &j.variants {
        let mut mirrored: Vec<(u8, u8)> =
            blocks_of(a).into_iter().map(|(x, y)| (a.width - 1 - x, y)).collect();
        mirrored.sort();
        assert!(l.variants.iter().any(|b| {
            let mut other = blocks_of(b);
            other.sort();
            (a.width, a.height) == (b.width, b.height) && mirrored == other
        }));
    }
}

#[test]
fn skew_and_t_pieces() {
    let s = S();
    let t = T();
    let z = Z();
    assert_eq!(s.variants.len(), 2);
    assert_eq!(t.variants.len(), 4);
    assert_eq!(z.variants.len(), 2);
    assert_eq!(blocks_of(&s.variants[0]), vec![(1, 0), (2, 0), (0, 1), (1, 1)]);
    assert_eq!(blocks_of(&s.variants[1]), vec![(0, 0), (0, 1), (1, 1), (1, 2)]);
    assert_eq!(blocks_of(&t.variants[0]), vec![(1, 0), (0, 1), (1, 1), (2, 1)]);
    assert_eq!(blocks_of(&t.variants[1]), vec![(0, 0), (0, 1), (1, 1), (0, 2)]);
    assert_eq!(blocks_of(&t.variants[2]), vec![(0, 0), (1, 0), (2, 0), (1, 1)]);
    assert_eq!(blocks_of(&t.variants[3]), vec![(1, 0), (0, 1), (1, 1), (1, 2)]);
    assert_eq!(blocks_of(&z.variants[0]), vec![(0, 0), (1, 0), (1, 1), (2, 1)]);
    assert_eq!(blocks_of(&z.variants[1]), vec![(1, 0), (0, 1), (1, 1), (0, 2)]);
}

#[test]
fn every_rotation_has_four_linked_blocks_inside_its_box() {
    for kind in [I(), J(), L(), O(), S(), T(), Z()] {
        for variant in &kind.variants {
            let blocks = blocks_of(variant);
            assert_eq!(blocks.len(), 4);
            let mut reached = vec![blocks[0]];
            let mut grew = true;
            while grew {
                grew = false;
                for b in &blocks {
                    let near = reached.iter().any(|r| {
                        (r.0 == b.0 && r.1.abs_diff(b.1) == 1) || (r.1 == b.1 && r.0.abs_diff(b.0) == 1)
                    });
                    if near && !reached.contains(b) {
                        reached.push(*b);
                        grew = true;
                    }
                }
            }
            assert_eq!(reached.len(), 4);
            for (x, y) in blocks {
                assert!(x < variant.width && y < variant.height);
            }
        }
    }
}

#[test]
fn rotations_of_a_kind_are_distinct() {
    for kind in [I(), J(), L(), O(), S(), T(), Z()] {
        for (i, a) in kind.variants.iter().enumerate() {
            for b in kind.variants.iter().skip(i + 1) {
                let mut first = blocks_of(a);
                let mut second = blocks_of(b);
                first.sort();
                second.sort();
                assert_ne!(first, second);
            }
        }
    }
}

#[test]
fn kind_made_from_rotations_keeps_them() {
    let kind = Tetromino::from_variants(
        "X",
        vec![TetrominoVariant::from_string_lines(vec!["##", "##"])],
    );
    assert_eq!(kind.name(), "X");
    assert_eq!(kind.variants.len(), 1);
    assert_eq!(blocks_of(&kind.variants()[0]), vec![(0, 0), (1, 0), (0, 1), (1, 1)]);
}

#[test]
fn catalogue_finds_the_seven_kinds() {
    let catalogue = Tetrominoes::new();
    for name in ["I", "J", "L", "O", "S", "T", "Z"] {
        assert_eq!(catalogue.get(name).unwrap().name(), name);
    }
    assert!(catalogue.get("Q").is_none());
    assert!(catalogue.get("").is_none());
    assert!(catalogue.get("i").is_none());
    assert!(catalogue.get("IJ").is_none());
}

#[test]
fn piece_string_lists_the_pieces_in_order() {
    let catalogue = Tetrominoes::new();
    let pieces = catalogue.collection_from_string("I2T2S1Z1L1").unwrap();
    assert_eq!(names_of(&pieces), "IITTSZL");
}

#[test]
fn piece_string_may_repeat_a_kind_and_ask_for_none() {
    let catalogue = Tetrominoes::new();
    let pieces = catalogue.collection_from_string("O1J0O9").unwrap();
    assert_eq!(names_of(&pieces), "OOOOOOOOOO");
    assert!(catalogue.collection_from_string("").unwrap().is_empty());
}

#[test]
fn unknown_kind_is_reported() {
    let catalogue = Tetrominoes::new();
    assert_eq!(
        catalogue.collection_from_string("Q1").unwrap_err(),
        TetrominoError::InvalidTetromino('Q')
    );
    assert_eq!(
        catalogue.collection_from_string("I2q1").unwrap_err(),
        TetrominoError::InvalidTetromino('q')
    );
    assert_eq!(
        catalogue.collection_from_string("2I").unwrap_err(),
        TetrominoError::InvalidTetromino('2')
    );
    assert_eq!(
        catalogue.collection_from_string("Q").unwrap_err(),
        TetrominoError::InvalidTetromino('Q')
    );
}

#[test]
fn invalid_count_is_reported() {
    let catalogue = Tetrominoes::new();
    assert_eq!(
        catalogue.collection_from_string("Ox").unwrap_err(),
        TetrominoError::InvalidCount('x')
    );
    assert_eq!(
        catalogue.collection_from_string("I1OO").unwrap_err(),
        TetrominoError::InvalidCount('O')
    );
    assert_eq!(
        catalogue.collection_from_string("T\u{0663}").unwrap_err(),
        TetrominoError::InvalidCount('\u{0663}')
    );
}

#[test]
fn missing_count_is_reported_with_the_kind() {
    let catalogue = Tetrominoes::new();
    assert_eq!(
        catalogue.collection_from_string("O").unwrap_err(),
        TetrominoError::InvalidCount('O')
    );
    assert_eq!(
        catalogue.collection_from_string("I2T").unwrap_err(),
        TetrominoError::InvalidCount('T')
    );
}

#[test]
fn first_error_wins() {
    let catalogue = Tetrominoes::new();
    assert_eq!(
        catalogue.collection_from_string("IxQ1").unwrap_err(),
        TetrominoError::InvalidCount('x')
    );
    assert_eq!(
        catalogue.collection_from_string("Q1Ix").unwrap_err(),
        TetrominoError::InvalidTetromino('Q')
    );
}

#[test]
fn error_message_names_the_character() {
    assert_eq!(
        TetrominoError::InvalidTetromino('Q').message(),
        "Invalid tetromino character: Q"
    );
    assert_eq!(TetrominoError::InvalidCount('x').message(), "Invalid count character: x");
}

#[test]
fn rotation_is_shown_with_its_box_and_picture() {
    let j = J();
    assert_eq!(j.variants[0].render(), "(2, 3)\n #\n #\n##\n");
    assert_eq!(j.variants[1].render(), "(3, 2)\n#  \n###\n");
    assert_eq!(I().variants[1].render(), "(4, 1)\n####\n");
    assert_eq!(S().variants[0].render(), "(3, 2)\n ##\n## \n");
}

#[test]
fn box_dimensions_are_shown_in_decimal() {
    let wide = "#".repeat(10) + &" ".repeat(245);
    let variant = TetrominoVariant::from_string_lines(vec![wide.as_str()]);
    assert_eq!(variant.width, 255);
    assert_eq!(variant.render(), format!("(255, 1)\n{}\n", wide));
    let rows = vec!["#"; 100];
    let tall = TetrominoVariant::from_string_lines(rows);
    assert_eq!(tall.render(), format!("(1, 100)\n{}", "#\n".repeat(100)));
    let empty = TetrominoVariant { width: 0, height: 10, blocks: Vec::new() };
    assert_eq!(empty.render(), format!("(0, 10)\n{}", "\n".repeat(10)));
}

#[test]
fn kind_is_shown_with_its_name_and_rotations() {
    assert_eq!(O().render(), "\"O\"\n(2, 2)\n##\n##\n");
    assert_eq!(
        Z().render(),
        "\"Z\"\n(3, 2)\n## \n ##\n(2, 3)\n #\n##\n# \n"
    );
    let none = Tetromino::from_variants("none", Vec::new());
    assert_eq!(none.render(), "\"none\"\n");
}
