//! The grid under search: labels, free cells and counters, changed in place.

use crate::cells::{Cell, CellSet};
use crate::grid::{glyph, Grid, Placement};
use crate::regions::{full_grid, in_grid};
use crate::tetris::TetrominoVariant;
use crate::text::push_char;
use vstd::prelude::*;

verus! {

/// Position of a cell in the row-major array of labels.
pub open spec fn cell_index(width: int, c: Cell) -> int {
    c.0 + width * c.1
}

/// The cells of a grid have different positions inside the array.
proof fn lemma_cell_index(width: int, height: int, a: Cell, b: Cell)
    requires
        in_grid(width, height, a),
        in_grid(width, height, b),
    ensures
        0 <= cell_index(width, a) < width * height,
        a != b ==> cell_index(width, a) != cell_index(width, b),
{
    assert(0 <= width * a.1 && width * a.1 + width <= width * height) by (nonlinear_arith)
        requires
            0 <= a.1 < height,
            0 < width,
    ;
    if a.1 < b.1 {
        assert(width * a.1 + width <= width * b.1) by (nonlinear_arith)
            requires
                a.1 < b.1,
                0 < width,
        ;
    } else if b.1 < a.1 {
        assert(width * b.1 + width <= width * a.1) by (nonlinear_arith)
            requires
                b.1 < a.1,
                0 < width,
        ;
    }
}

/// The labels of a grid, read from its array.
spec fn labels_of(width: int, height: int, cells: Seq<u16>) -> Map<Cell, int> {
    Map::new(|c: Cell| in_grid(width, height, c), |c: Cell| cells[cell_index(width, c)] as int)
}

/// Whether the first `n` blocks of the piece cover `c`.
spec fn covers_upto(p: Placement, n: int, c: Cell) -> bool {
    exists|i: int| 0 <= i < n && #[trigger] p.cell(i) == c
}

/// The cells that the first `n` blocks of the piece cover.
spec fn cells_upto(p: Placement, n: int) -> Set<Cell> {
    Set::new(|c: Cell| covers_upto(p, n, c))
}

/// The character that shows a label below sixteen.
fn label_glyph(label: u16) -> (mark: char)
    requires
        label <= 15,
    ensures
        mark == glyph(label as int),
{
    match label {
        0 => ' ',
        1 => '1',
        2 => '2',
        3 => '3',
        4 => '4',
        5 => '5',
        6 => '6',
        7 => '7',
        8 => '8',
        9 => '9',
        10 => 'a',
        11 => 'b',
        12 => 'c',
        13 => 'd',
        14 => 'e',
        _ => 'f',
    }
}

/// A grid of at most 255 x 255 cells on which tetrominoes are put down and
/// taken away again.
pub struct Field {
    width: u8,
    height: u8,
    cells: Vec<u16>,
    free: CellSet,
    filled: usize,
    current: u16,
    operations: u64,
    placed: Ghost<Seq<Placement>>,
}

impl View for Field {
    type V = Grid;

    closed spec fn view(&self) -> Grid {
        Grid {
            width: self.width as int,
            height: self.height as int,
            labels: labels_of(self.width as int, self.height as int, self.cells@),
            free: self.free@,
            filled: self.filled as int,
            current: self.current as int,
            placed: self.placed@,
        }
    }
}

impl Clone for Field {
    /// A copy of the field that shares nothing with it.
    fn clone(&self) -> (copy: Self)
        ensures
            copy@ == self@,
            copy.wf() == self.wf(),
            copy.spec_operations() == self.spec_operations(),
    {
        let cells = self.cells.clone();
        let free = self.free.clone();
        let copy = Field {
            width: self.width,
            height: self.height,
            cells,
            free,
            filled: self.filled,
            current: self.current,
            operations: self.operations,
            placed: self.placed,
        };
        proof {
            assert(copy.cells@ =~= self.cells@);
            assert(copy@.labels =~= self@.labels);
        }
        copy
    }
}

impl Field {
    /// Whether the field stands for a well-formed grid.
    pub closed spec fn wf(&self) -> bool {
        self@.wf() && self.cells@.len() == self.width * self.height
    }

    /// Number of pieces put down since the field was made, whether or not
    /// they were taken away again; it stops counting at `u64::MAX`.
    pub closed spec fn spec_operations(&self) -> int {
        self.operations as int
    }

    /// The counter of operations is a 64-bit number.
    pub proof fn lemma_operations_range(&self)
        ensures
            0 <= self.spec_operations() <= u64::MAX,
    {
    }

    /// A well-formed field stands for a well-formed grid.
    pub proof fn lemma_wf(&self)
        requires
            self.wf(),
        ensures
            self@.wf(),
    {
    }

    /// An empty field of the given dimensions.
    pub fn new(width: u8, height: u8) -> (field: Self)
        ensures
            field.wf(),
            field@ == Grid::empty(width as int, height as int),
            field.spec_operations() == 0,
    {
        let ghost w = width as int;
        let ghost h = height as int;
        let mut free = CellSet::new();
        for y in 0..height
            invariant
                w == width,
                h == height,
                free@ =~= full_grid(w, y as int),
        {
            for x in 0..width
                invariant
                    w == width,
                    h == height,
                    y < height,
                    forall|c: Cell|
                        free@.contains(c) <==> in_grid(w, y as int, c) || (c.1 == y && 0 <= c.0 < x),
            {
                free.insert((x as i32, y as i32));
            }
        }
        assert(width * height <= 255 * 255) by (nonlinear_arith)
            requires
                width <= 255,
                height <= 255,
        ;
        let area: usize = width as usize * height as usize;
        let field = Field {
            width,
            height,
            cells: vec![0u16; area],
            free,
            filled: 0,
            current: 1,
            operations: 0,
            placed: Ghost(Seq::empty()),
        };
        proof {
            Grid::lemma_empty_wf(w, h);
            assert(field@.labels =~= Grid::empty(w, h).labels) by {
                assert forall|c: Cell| in_grid(w, h, c) implies field@.labels[c] == 0 by {
                    lemma_cell_index(w, h, c, c);
                }
            }
        }
        field
    }

    /// Number of columns.
    pub fn width(&self) -> (w: u8)
        ensures
            w == self@.width,
    {
        self.width
    }

    /// Number of rows.
    pub fn height(&self) -> (h: u8)
        ensures
            h == self@.height,
    {
        self.height
    }

    /// Number of covered cells.
    pub fn filled(&self) -> (n: usize)
        ensures
            n == self@.filled,
    {
        self.filled
    }

    /// The number that the next piece will bear.
    pub fn current(&self) -> (n: u16)
        ensures
            n == self@.current,
    {
        self.current
    }

    /// Number of pieces put down so far, those taken away again included.
    pub fn operations(&self) -> (n: u64)
        ensures
            n == self.spec_operations(),
    {
        self.operations
    }

    /// Number of empty cells.
    pub fn free_count(&self) -> (n: usize)
        ensures
            n == self@.free.len(),
    {
        self.free.len()
    }

    /// The empty cells.
    pub fn free_cells(&self) -> (free: &CellSet)
        ensures
            free@ == self@.free,
    {
        &self.free
    }

    /// The number of the piece that covers the cell `(x, y)`, or zero.
    pub fn cell(&self, x: u8, y: u8) -> (label: u16)
        requires
            self.wf(),
            x < self@.width,
            y < self@.height,
        ensures
            label == self@.labels[(x as i32, y as i32)],
    {
        proof {
            let c: Cell = (x as i32, y as i32);
            lemma_cell_index(self.width as int, self.height as int, c, c);
            assert(self.width * y <= 255 * 255) by (nonlinear_arith)
                requires
                    self.width <= 255,
                    y <= 255,
            ;
        }
        self.cells[x as usize + self.width as usize * y as usize]
    }

    /// Writes `value` into the four cells of the shape anchored at `(x, y)`
    /// and keeps the set of free cells in step: the cells leave it when
    /// `value` is positive and enter it when `value` is zero.
    fn apply_tetromino_with_value(
        &mut self,
        tetromino_variant: &TetrominoVariant,
        x: u8,
        y: u8,
        value: u16,
    )
        requires
            old(self).cells@.len() == old(self).width * old(self).height,
            (Placement { shape: tetromino_variant@, x: x as int, y: y as int }).fits(
                old(self).width as int,
                old(self).height as int,
            ),
        ensures
            final(self).width == old(self).width,
            final(self).height == old(self).height,
            final(self).filled == old(self).filled,
            final(self).current == old(self).current,
            final(self).operations == old(self).operations,
            final(self).placed == old(self).placed,
            final(self).cells@.len() == old(self).cells@.len(),
            ({
                let p = Placement { shape: tetromino_variant@, x: x as int, y: y as int };
                let w = old(self).width as int;
                let h = old(self).height as int;
                &&& forall|c: Cell|
                    in_grid(w, h, c) ==> #[trigger] final(self).cells@[cell_index(w, c)] == (if p.covers(
                        c,
                    ) {
                        value
                    } else {
                        old(self).cells@[cell_index(w, c)]
                    })
                &&& value > 0 ==> final(self).free@ =~= old(self).free@.difference(p.cells())
                &&& value == 0 ==> final(self).free@ =~= old(self).free@.union(p.cells())
            }),
    {
        let ghost p = Placement { shape: tetromino_variant@, x: x as int, y: y as int };
        let ghost w = self.width as int;
        let ghost h = self.height as int;
        proof {
            p.lemma_cells(w, h);
        }
        for i in 0..4usize
            invariant
                p == (Placement { shape: tetromino_variant@, x: x as int, y: y as int }),
                w == self.width,
                h == self.height,
                p.fits(w, h),
                self.width == old(self).width,
                self.height == old(self).height,
                self.filled == old(self).filled,
                self.current == old(self).current,
                self.operations == old(self).operations,
                self.placed == old(self).placed,
                self.cells@.len() == w * h,
                old(self).cells@.len() == w * h,
                forall|j: int| 0 <= j < 4 ==> in_grid(w, h, #[trigger] p.cell(j)),
                forall|c: Cell|
                    in_grid(w, h, c) ==> #[trigger] self.cells@[cell_index(w, c)] == (if covers_upto(
                        p,
                        i as int,
                        c,
                    ) {
                        value
                    } else {
                        old(self).cells@[cell_index(w, c)]
                    }),
                value > 0 ==> self.free@ =~= old(self).free@.difference(cells_upto(p, i as int)),
                value == 0 ==> self.free@ =~= old(self).free@.union(cells_upto(p, i as int)),
        {
            let block = tetromino_variant.blocks[i];
            let cx: u8 = x + block.x;
            let cy: u8 = y + block.y;
            let ghost c: Cell = (cx as i32, cy as i32);
            let ghost labels_before = self.cells@;
            proof {
                assert(c == p.cell(i as int));
                lemma_cell_index(w, h, c, c);
                assert(self.width * cy <= 255 * 255) by (nonlinear_arith)
                    requires
                        self.width <= 255,
                        cy <= 255,
                ;
            }
            let position: usize = cx as usize + self.width as usize * cy as usize;
            self.cells.set(position, value);
            if value > 0 {
                self.free.remove((cx as i32, cy as i32));
            } else {
                self.free.insert((cx as i32, cy as i32));
            }
            proof {
                assert forall|d: Cell| covers_upto(p, i + 1, d) <==> covers_upto(p, i as int, d) || d
                    == c by {
                    if covers_upto(p, i + 1, d) {
                        let j = choose|j: int| 0 <= j < i + 1 && #[trigger] p.cell(j) == d;
                        if j < i {
                            assert(covers_upto(p, i as int, d));
                        }
                    }
                    if covers_upto(p, i as int, d) {
                        let j = choose|j: int| 0 <= j < i && #[trigger] p.cell(j) == d;
                        assert(p.cell(j) == d);
                    }
                    if d == c {
                        assert(p.cell(i as int) == d);
                    }
                }
                assert forall|d: Cell| in_grid(w, h, d) implies #[trigger] self.cells@[cell_index(w, d)]
                    == (if covers_upto(p, i + 1, d) {
                    value
                } else {
                    old(self).cells@[cell_index(w, d)]
                }) by {
                    lemma_cell_index(w, h, d, c);
                    assert(labels_before[cell_index(w, d)] == (if covers_upto(p, i as int, d) {
                        value
                    } else {
                        old(self).cells@[cell_index(w, d)]
                    }));
                }
            }
        }
        proof {
            assert forall|d: Cell| covers_upto(p, 4, d) <==> p.covers(d) by {
                if covers_upto(p, 4, d) {
                    let j = choose|j: int| 0 <= j < 4 && #[trigger] p.cell(j) == d;
                    assert(p.cell(j) == d);
                }
                if p.covers(d) {
                    let j = choose|j: int| 0 <= j < 4 && #[trigger] p.cell(j) == d;
                    assert(p.cell(j) == d);
                }
            }
            assert(cells_upto(p, 4) =~= p.cells());
        }
    }

    /// Puts the shape down with its corner at `(x, y)`: its four cells get
    /// the next number and leave the set of free cells.
    pub fn add(&mut self, tetromino_variant: &TetrominoVariant, x: u8, y: u8)
        requires
            old(self).wf(),
            old(self)@.can_place(tetromino_variant@, x as int, y as int),
        ensures
            final(self).wf(),
            final(self)@ == old(self)@.add(tetromino_variant@, x as int, y as int),
            final(self).spec_operations() == if old(self).spec_operations() < u64::MAX {
                old(self).spec_operations() + 1
            } else {
                old(self).spec_operations()
            },
    {
        let ghost p = Placement { shape: tetromino_variant@, x: x as int, y: y as int };
        let ghost before = self@;
        proof {
            before.lemma_add_wf(tetromino_variant@, x as int, y as int);
            p.lemma_cells(before.width, before.height);
            let after = before.add(tetromino_variant@, x as int, y as int);
            assert(after.width * after.height <= 255 * 255) by (nonlinear_arith)
                requires
                    0 <= after.width <= 255,
                    0 <= after.height <= 255,
            ;
            assert(after.current <= 0xffff);
        }
        let label = self.current;
        self.apply_tetromino_with_value(tetromino_variant, x, y, label);
        self.current += 1;
        self.filled += 4;
        if self.operations < u64::MAX {
            self.operations += 1;
        }
        self.placed = Ghost(self.placed@.push(p));
        proof {
            let after = before.add(tetromino_variant@, x as int, y as int);
            assert(self@.labels =~= after.labels);
            assert(self@.free =~= after.free);
        }
    }

    /// Takes away the piece that was put down last, which is the shape with
    /// its corner at `(x, y)`: its four cells become empty again.
    pub fn remove(&mut self, tetromino_variant: &TetrominoVariant, x: u8, y: u8)
        requires
            old(self).wf(),
            old(self)@.placed.len() > 0,
            old(self)@.placed.last() == (Placement {
                shape: tetromino_variant@,
                x: x as int,
                y: y as int,
            }),
        ensures
            final(self).wf(),
            final(self)@ == old(self)@.remove(),
            final(self).spec_operations() == old(self).spec_operations(),
    {
        let ghost p = Placement { shape: tetromino_variant@, x: x as int, y: y as int };
        let ghost before = self@;
        proof {
            before.lemma_remove_wf();
            assert(before.placed[before.placed.len() - 1].fits(before.width, before.height));
        }
        self.apply_tetromino_with_value(tetromino_variant, x, y, 0);
        self.current -= 1;
        self.filled -= 4;
        self.placed = Ghost(self.placed@.drop_last());
        proof {
            let after = before.remove();
            assert(self@.labels =~= after.labels);
            assert(self@.free =~= after.free);
        }
    }

    /// Whether every cell is covered.
    pub fn is_full(&self) -> (full: bool)
        requires
            self.wf(),
        ensures
            full == self@.is_full(),
    {
        assert(self.width * self.height <= 255 * 255) by (nonlinear_arith)
            requires
                self.width <= 255,
                self.height <= 255,
        ;
        self.filled == self.width as usize * self.height as usize
    }

    /// The picture of the field: one line per row, each row between two bars,
    /// an empty cell as a blank and a covered one as the hexadecimal digit of
    /// its piece. Only fields of at most fifteen pieces have a picture.
    pub fn render(&self) -> (text: String)
        requires
            self.wf(),
            self@.placed.len() <= 15,
        ensures
            text@ == self@.text(),
    {
        let mut text = String::new();
        for y in 0..self.height
            invariant
                self.wf(),
                self@.placed.len() <= 15,
                text@ == self@.rows_text(y as int),
        {
            push_char(&mut text, '|');
            let ghost start = text@;
            for x in 0..self.width
                invariant
                    self.wf(),
                    self@.placed.len() <= 15,
                    y < self.height,
                    text@ == start + self@.row_text(y as int, x as int),
            {
                let label = self.cell(x, y);
                proof {
                    assert(in_grid(self@.width, self@.height, (x as i32, y as i32)));
                    assert(0 <= label <= 15);
                }
                let mark = label_glyph(label);
                push_char(&mut text, mark);
                proof {
                    let row = self@.row_text(y as int, x as int);
                    assert(start + row.push(mark) =~= (start + row).push(mark));
                }
            }
            push_char(&mut text, '|');
            push_char(&mut text, '\n');
            proof {
                let row = self@.row_text(y as int, self@.width);
                assert((start + row).push('|').push('\n') =~= start + row.push('|').push('\n'));
            }
        }
        text
    }
}

} // verus!
