//! The mathematical model of a partly filled grid.
//!
//! A grid records, for each of its cells, the number of the piece that covers
//! it (zero for an empty cell), and the pieces in the order in which they were
//! placed. The piece placed first bears the number one.

use crate::cells::Cell;
use crate::regions::{full_grid, in_grid, lemma_full_grid_len};
use crate::tetris::{Block, Shape};
use vstd::prelude::*;
use vstd::set_lib::*;

verus! {

/// The cell that a block covers when its shape is anchored at `(x, y)`.
pub open spec fn block_cell(b: Block, x: int, y: int) -> Cell {
    ((x + b.x) as i32, (y + b.y) as i32)
}

/// A shape anchored at a cell of the grid: the top left corner of its
/// bounding box lies at `(x, y)`.
pub struct Placement {
    pub shape: Shape,
    pub x: int,
    pub y: int,
}

impl Placement {
    /// The cell covered by block `i`.
    pub open spec fn cell(self, i: int) -> Cell {
        block_cell(self.shape.blocks[i], self.x, self.y)
    }

    /// Whether the piece covers `c`.
    pub open spec fn covers(self, c: Cell) -> bool {
        exists|i: int| 0 <= i < self.shape.blocks.len() && #[trigger] self.cell(i) == c
    }

    /// The cells that the piece covers.
    pub open spec fn cells(self) -> Set<Cell> {
        Set::new(|c: Cell| self.covers(c))
    }

    /// Whether the piece is a tetromino whose bounding box lies inside a grid
    /// of the given dimensions.
    pub open spec fn fits(self, width: int, height: int) -> bool {
        &&& self.shape.is_tetromino()
        &&& 0 <= self.x
        &&& 0 <= self.y
        &&& self.x + self.shape.width <= width
        &&& self.y + self.shape.height <= height
    }

    /// A piece that fits covers four different cells of the grid.
    pub proof fn lemma_cells(self, width: int, height: int)
        requires
            self.fits(width, height),
            width <= 255,
            height <= 255,
        ensures
            self.cells().finite(),
            self.cells().len() == 4,
            self.cells() =~= set![self.cell(0), self.cell(1), self.cell(2), self.cell(3)],
            forall|i: int| 0 <= i < 4 ==> in_grid(width, height, #[trigger] self.cell(i)),
            forall|i: int, j: int| 0 <= i < j < 4 ==> #[trigger] self.cell(i) != #[trigger] self.cell(j),
            forall|c: Cell| self.covers(c) ==> in_grid(width, height, c),
    {
        let b = self.shape.blocks;
        assert forall|i: int| 0 <= i < 4 implies in_grid(width, height, #[trigger] self.cell(i)) by {
            assert(b[i].x < self.shape.width);
        }
        assert forall|i: int, j: int| 0 <= i < j < 4 implies #[trigger] self.cell(i) != #[trigger] self.cell(
            j,
        ) by {
            assert(b[i] != b[j]);
            assert(b[i].x < self.shape.width && b[j].x < self.shape.width);
        }
        let s = set![self.cell(0), self.cell(1), self.cell(2), self.cell(3)];
        assert(self.cells() =~= s);
    }
}

/// A partly filled grid.
pub struct Grid {
    /// Number of columns.
    pub width: int,
    /// Number of rows.
    pub height: int,
    /// For each cell, the number of the piece that covers it, or zero.
    pub labels: Map<Cell, int>,
    /// The empty cells.
    pub free: Set<Cell>,
    /// Number of covered cells.
    pub filled: int,
    /// The number that the next piece will bear.
    pub current: int,
    /// The pieces on the grid, in the order of their placement.
    pub placed: Seq<Placement>,
}

impl Grid {
    /// The grid of the given dimensions with no piece on it.
    pub open spec fn empty(width: int, height: int) -> Grid {
        Grid {
            width,
            height,
            labels: Map::new(|c: Cell| in_grid(width, height, c), |c: Cell| 0int),
            free: full_grid(width, height),
            filled: 0,
            current: 1,
            placed: Seq::empty(),
        }
    }

    /// Whether the parts of the grid agree with each other: the free cells are
    /// those labelled zero, the cells labelled `k + 1` are those that the
    /// piece placed at position `k` covers, and the counters count the pieces.
    pub open spec fn wf(self) -> bool {
        &&& 0 <= self.width <= 255
        &&& 0 <= self.height <= 255
        &&& self.labels.dom() =~= full_grid(self.width, self.height)
        &&& self.free.finite()
        &&& self.filled == 4 * self.placed.len()
        &&& self.current == self.placed.len() + 1
        &&& self.free.len() + self.filled == self.width * self.height
        &&& forall|c: Cell|
            self.free.contains(c) <==> in_grid(self.width, self.height, c) && self.labels[c] == 0
        &&& forall|c: Cell|
            in_grid(self.width, self.height, c) ==> 0 <= #[trigger] self.labels[c] <= self.placed.len()
        &&& forall|k: int|
            0 <= k < self.placed.len() ==> (#[trigger] self.placed[k]).fits(self.width, self.height)
        &&& forall|k: int, c: Cell|
            0 <= k < self.placed.len() && in_grid(self.width, self.height, c) ==> (
            #[trigger] self.placed[k].covers(c) <==> self.labels[c] == k + 1)
    }

    /// Whether every cell is covered.
    pub open spec fn is_full(self) -> bool {
        self.filled == self.width * self.height
    }

    /// Whether the shape can be put down with its corner at `(x, y)`: it lies
    /// inside the grid and the cells it would cover are empty.
    pub open spec fn can_place(self, shape: Shape, x: int, y: int) -> bool {
        let p = Placement { shape, x, y };
        &&& p.fits(self.width, self.height)
        &&& forall|i: int| 0 <= i < 4 ==> self.labels[#[trigger] p.cell(i)] == 0
    }

    /// The grid with one more piece: the shape with its corner at `(x, y)`.
    pub open spec fn add(self, shape: Shape, x: int, y: int) -> Grid {
        let p = Placement { shape, x, y };
        Grid {
            width: self.width,
            height: self.height,
            labels: Map::new(
                |c: Cell| in_grid(self.width, self.height, c),
                |c: Cell|
                    if p.covers(c) {
                        self.current
                    } else {
                        self.labels[c]
                    },
            ),
            free: self.free.difference(p.cells()),
            filled: self.filled + 4,
            current: self.current + 1,
            placed: self.placed.push(p),
        }
    }

    /// The grid without the piece that was placed last.
    pub open spec fn remove(self) -> Grid {
        let p = self.placed.last();
        Grid {
            width: self.width,
            height: self.height,
            labels: Map::new(
                |c: Cell| in_grid(self.width, self.height, c),
                |c: Cell|
                    if p.covers(c) {
                        0
                    } else {
                        self.labels[c]
                    },
            ),
            free: self.free.union(p.cells()),
            filled: self.filled - 4,
            current: self.current - 1,
            placed: self.placed.drop_last(),
        }
    }

    /// The empty grid is well formed.
    pub proof fn lemma_empty_wf(width: int, height: int)
        requires
            0 <= width <= 255,
            0 <= height <= 255,
        ensures
            Grid::empty(width, height).wf(),
    {
        lemma_full_grid_len(width, height);
    }

    /// A well-formed grid is full exactly if it has no free cell.
    pub proof fn lemma_full_no_free(self)
        requires
            self.wf(),
        ensures
            self.is_full() <==> self.free =~= Set::<Cell>::empty(),
    {
        if self.is_full() {
            self.free.lemma_len0_is_empty();
        }
    }

    /// Putting a piece where it can be placed keeps the grid well formed.
    pub proof fn lemma_add_wf(self, shape: Shape, x: int, y: int)
        requires
            self.wf(),
            self.can_place(shape, x, y),
        ensures
            self.add(shape, x, y).wf(),
    {
        let p = Placement { shape, x, y };
        let g = self.add(shape, x, y);
        p.lemma_cells(self.width, self.height);
        assert(p.cells().subset_of(self.free)) by {
            assert forall|c: Cell| p.cells().contains(c) implies self.free.contains(c) by {
                let i = choose|i: int| 0 <= i < 4 && #[trigger] p.cell(i) == c;
                assert(self.labels[p.cell(i)] == 0);
            }
        }
        lemma_len_difference(self.free, p.cells());
        assert(self.free.difference(p.cells()).len() == self.free.len() - 4) by {
            lemma_set_disjoint_lens(self.free.difference(p.cells()), p.cells());
            assert(self.free.difference(p.cells()).union(p.cells()) =~= self.free);
        }
        assert forall|k: int| 0 <= k < g.placed.len() implies (#[trigger] g.placed[k]).fits(
            g.width,
            g.height,
        ) by {
            if k < self.placed.len() {
                assert(g.placed[k] == self.placed[k]);
            }
        }
        assert forall|k: int, c: Cell|
            0 <= k < g.placed.len() && in_grid(g.width, g.height, c) implies (
        #[trigger] g.placed[k].covers(c) <==> g.labels[c] == k + 1) by {
            if k < self.placed.len() {
                assert(g.placed[k] == self.placed[k]);
                assert(self.placed[k].covers(c) <==> self.labels[c] == k + 1);
                if p.covers(c) {
                    assert(self.free.contains(c));
                }
            } else {
                assert(g.placed[k] == p);
            }
        }
    }

    /// Taking the last piece away keeps the grid well formed.
    pub proof fn lemma_remove_wf(self)
        requires
            self.wf(),
            self.placed.len() > 0,
        ensures
            self.remove().wf(),
    {
        let p = self.placed.last();
        let last = self.placed.len() - 1;
        let g = self.remove();
        assert(p.fits(self.width, self.height));
        p.lemma_cells(self.width, self.height);
        assert(p.cells().disjoint(self.free)) by {
            assert forall|c: Cell| p.cells().contains(c) implies !self.free.contains(c) by {
                assert(self.placed[last].covers(c));
                assert(self.labels[c] == last + 1);
            }
        }
        lemma_set_disjoint_lens(self.free, p.cells());
        assert forall|k: int| 0 <= k < g.placed.len() implies (#[trigger] g.placed[k]).fits(
            g.width,
            g.height,
        ) by {
            assert(g.placed[k] == self.placed[k]);
        }
        assert forall|c: Cell| in_grid(g.width, g.height, c) implies 0 <= #[trigger] g.labels[c]
            <= g.placed.len() by {
            assert(0 <= self.labels[c] <= self.placed.len());
            if self.labels[c] == last + 1 {
                assert(self.placed[last].covers(c));
            }
        }
        assert forall|k: int, c: Cell|
            0 <= k < g.placed.len() && in_grid(g.width, g.height, c) implies (
        #[trigger] g.placed[k].covers(c) <==> g.labels[c] == k + 1) by {
            assert(g.placed[k] == self.placed[k]);
            assert(self.placed[k].covers(c) <==> self.labels[c] == k + 1);
            if p.covers(c) {
                assert(self.placed[last].covers(c));
                assert(self.labels[c] == last + 1);
            }
        }
        assert forall|c: Cell| g.free.contains(c) <==> in_grid(g.width, g.height, c) && g.labels[c]
            == 0 by {
            if p.covers(c) {
                assert(in_grid(self.width, self.height, c));
            }
        }
    }

    /// Putting a piece down and taking it away again restores the grid: its
    /// labels, its free cells, its counters and its list of pieces.
    pub proof fn lemma_add_remove(self, shape: Shape, x: int, y: int)
        requires
            self.wf(),
            self.can_place(shape, x, y),
        ensures
            self.add(shape, x, y).remove() == self,
    {
        let p = Placement { shape, x, y };
        let g = self.add(shape, x, y);
        let r = g.remove();
        p.lemma_cells(self.width, self.height);
        assert(g.placed.last() == p);
        assert(r.placed =~= self.placed);
        assert(r.free =~= self.free) by {
            assert forall|c: Cell| p.cells().contains(c) implies self.free.contains(c) by {
                let i = choose|i: int| 0 <= i < 4 && #[trigger] p.cell(i) == c;
                assert(self.labels[p.cell(i)] == 0);
            }
        }
        assert(r.labels =~= self.labels) by {
            assert forall|c: Cell| in_grid(self.width, self.height, c) implies r.labels[c]
                == self.labels[c] by {
                if p.covers(c) {
                    let i = choose|i: int| 0 <= i < 4 && #[trigger] p.cell(i) == c;
                    assert(self.labels[p.cell(i)] == 0);
                }
            }
        }
    }
}

/// The character that shows a label: a blank for an empty cell, the label as
/// a single hexadecimal digit for a covered one.
pub open spec fn glyph(label: int) -> char {
    if label == 0 {
        ' '
    } else if label == 1 {
        '1'
    } else if label == 2 {
        '2'
    } else if label == 3 {
        '3'
    } else if label == 4 {
        '4'
    } else if label == 5 {
        '5'
    } else if label == 6 {
        '6'
    } else if label == 7 {
        '7'
    } else if label == 8 {
        '8'
    } else if label == 9 {
        '9'
    } else if label == 10 {
        'a'
    } else if label == 11 {
        'b'
    } else if label == 12 {
        'c'
    } else if label == 13 {
        'd'
    } else if label == 14 {
        'e'
    } else {
        'f'
    }
}

impl Grid {
    /// The glyphs of the first `n` cells of row `y`.
    pub open spec fn row_text(self, y: int, n: int) -> Seq<char>
        decreases n,
    {
        if n <= 0 {
            Seq::empty()
        } else {
            self.row_text(y, n - 1).push(glyph(self.labels[((n - 1) as i32, y as i32)]))
        }
    }

    /// The picture of the first `n` rows: each row between two bars, followed
    /// by a line feed.
    pub open spec fn rows_text(self, n: int) -> Seq<char>
        decreases n,
    {
        if n <= 0 {
            Seq::empty()
        } else {
            self.rows_text(n - 1).push('|') + self.row_text(n - 1, self.width).push('|').push('\n')
        }
    }

    /// The picture of the grid.
    pub open spec fn text(self) -> Seq<char> {
        self.rows_text(self.height)
    }
}

} // verus!
