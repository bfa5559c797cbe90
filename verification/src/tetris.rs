//! The seven tetrominoes and their rotations.

use crate::text::{char_string, decimal, push_char, push_decimal};
use vstd::prelude::*;
use vstd::string::StringExecFns;

verus! {

/// One occupied square of a shape, relative to the top left corner of its
/// bounding box.
#[derive(Clone, Copy, Debug)]
pub struct Block {
    pub x: u8,
    pub y: u8,
}

/// One rotation of a tetromino: a bounding box and the squares it occupies.
#[derive(Debug)]
pub struct TetrominoVariant {
    pub width: u8,
    pub height: u8,
    pub blocks: Vec<Block>,
}

/// Whether two blocks are horizontal or vertical neighbours.
pub open spec fn touching(a: Block, b: Block) -> bool {
    ||| a.x == b.x && a.y + 1 == b.y
    ||| a.x == b.x && a.y == b.y + 1
    ||| a.y == b.y && a.x + 1 == b.x
    ||| a.y == b.y && a.x == b.x + 1
}

/// Whether block `i` of four is the first block or touches it.
pub open spec fn near_first(b: Seq<Block>, i: int) -> bool {
    i == 0 || touching(b[i], b[0])
}

/// Whether block `i` of four is linked to the first block through at most one
/// other block.
pub open spec fn near_first_2(b: Seq<Block>, i: int) -> bool {
    ||| near_first(b, i)
    ||| near_first(b, 1) && touching(b[i], b[1])
    ||| near_first(b, 2) && touching(b[i], b[2])
    ||| near_first(b, 3) && touching(b[i], b[3])
}

/// Whether block `i` of four is linked to the first block through at most two
/// other blocks.
pub open spec fn near_first_3(b: Seq<Block>, i: int) -> bool {
    ||| near_first_2(b, i)
    ||| near_first_2(b, 1) && touching(b[i], b[1])
    ||| near_first_2(b, 2) && touching(b[i], b[2])
    ||| near_first_2(b, 3) && touching(b[i], b[3])
}

/// Whether four blocks hang together: each is linked to the first by a chain
/// of touching blocks.
pub open spec fn joined(b: Seq<Block>) -> bool {
    near_first_3(b, 1) && near_first_3(b, 2) && near_first_3(b, 3)
}

/// The marks `#` among the first `n` characters of a line of a picture, as
/// blocks of row `y`, from left to right.
pub open spec fn marks_in_row(line: Seq<char>, y: u8, n: int) -> Seq<Block>
    decreases n,
{
    if n <= 0 {
        Seq::empty()
    } else if line[n - 1] == '#' {
        marks_in_row(line, y, n - 1).push(Block { x: (n - 1) as u8, y })
    } else {
        marks_in_row(line, y, n - 1)
    }
}

/// The marks `#` in the first `n` lines of a picture, row by row.
pub open spec fn marks(lines: Seq<&str>, n: int) -> Seq<Block>
    decreases n,
{
    if n <= 0 {
        Seq::empty()
    } else {
        marks(lines, n - 1) + marks_in_row(lines[n - 1]@, (n - 1) as u8, lines[n - 1]@.len() as int)
    }
}

/// A shape as a mathematical value: its bounding box and its blocks in order.
pub struct Shape {
    pub width: int,
    pub height: int,
    pub blocks: Seq<Block>,
}

impl Shape {
    /// Whether the shape is a tetromino: four different blocks inside the
    /// bounding box that hang together.
    pub open spec fn is_tetromino(self) -> bool {
        let b = self.blocks;
        &&& b.len() == 4
        &&& forall|i: int| 0 <= i < 4 ==> (#[trigger] b[i]).x < self.width && b[i].y < self.height
        &&& forall|i: int, j: int| 0 <= i < j < 4 ==> #[trigger] b[i] != #[trigger] b[j]
        &&& joined(b)
    }
}

impl Shape {
    /// Whether some block lies at `(x, y)`.
    pub open spec fn has_block(self, x: int, y: int) -> bool {
        exists|i: int| 0 <= i < self.blocks.len() && (#[trigger] self.blocks[i]).x == x && self.blocks[i].y == y
    }

    /// The first `n` squares of row `y` of the picture: `#` for a block, a
    /// blank for none.
    pub open spec fn row_text(self, y: int, n: int) -> Seq<char>
        decreases n,
    {
        if n <= 0 {
            Seq::empty()
        } else {
            self.row_text(y, n - 1).push(
                if self.has_block(n - 1, y) {
                    '#'
                } else {
                    ' '
                },
            )
        }
    }

    /// The first `n` rows of the picture, a line feed after each.
    pub open spec fn rows_text(self, n: int) -> Seq<char>
        decreases n,
    {
        if n <= 0 {
            Seq::empty()
        } else {
            self.rows_text(n - 1) + self.row_text(n - 1, self.width).push('\n')
        }
    }

    /// The shape as text: the bounding box as `(width, height)` on a line of
    /// its own, then the picture.
    pub open spec fn text(self) -> Seq<char> {
        seq!['('] + decimal(self.width) + seq![',', ' '] + decimal(self.height) + seq![')', '\n']
            + self.rows_text(self.height)
    }
}

impl View for TetrominoVariant {
    type V = Shape;

    open spec fn view(&self) -> Shape {
        Shape { width: self.width as int, height: self.height as int, blocks: self.blocks@ }
    }
}

impl TetrominoVariant {
    /// Whether the shape is a tetromino.
    pub open spec fn is_tetromino(&self) -> bool {
        self@.is_tetromino()
    }

    /// Whether the shape has the given bounding box and blocks.
    pub open spec fn has_shape(
        &self,
        width: u8,
        height: u8,
        b0: (u8, u8),
        b1: (u8, u8),
        b2: (u8, u8),
        b3: (u8, u8),
    ) -> bool {
        &&& self.width == width
        &&& self.height == height
        &&& self.blocks@ =~= seq![
            Block { x: b0.0, y: b0.1 },
            Block { x: b1.0, y: b1.1 },
            Block { x: b2.0, y: b2.1 },
            Block { x: b3.0, y: b3.1 },
        ]
    }

    /// Whether some block lies at `(x, y)`.
    fn has_block(&self, x: u8, y: u8) -> (found: bool)
        ensures
            found == self@.has_block(x as int, y as int),
    {
        let n = self.blocks.len();
        for i in 0..n
            invariant
                n == self.blocks@.len(),
                forall|j: int| 0 <= j < i ==> !((#[trigger] self.blocks@[j]).x == x && self.blocks@[j].y == y),
        {
            if self.blocks[i].x == x && self.blocks[i].y == y {
                assert(self@.blocks[i as int].x == x && self@.blocks[i as int].y == y);
                return true;
            }
        }
        false
    }

    /// The shape as text: the bounding box as `(width, height)` on a line of
    /// its own, then the picture with `#` for each block.
    pub fn render(&self) -> (text: String)
        ensures
            text@ == self@.text(),
    {
        let mut text = String::new();
        push_char(&mut text, '(');
        push_decimal(&mut text, self.width);
        push_char(&mut text, ',');
        push_char(&mut text, ' ');
        push_decimal(&mut text, self.height);
        push_char(&mut text, ')');
        push_char(&mut text, '\n');
        let ghost head = text@;
        assert(head =~= seq!['('] + decimal(self@.width) + seq![',', ' '] + decimal(self@.height)
            + seq![')', '\n']);
        assert(head + self@.rows_text(0) =~= head);
        for y in 0..self.height
            invariant
                text@ == head + self@.rows_text(y as int),
        {
            let ghost start = text@;
            assert(start + self@.row_text(y as int, 0) =~= start);
            for x in 0..self.width
                invariant
                    text@ == start + self@.row_text(y as int, x as int),
            {
                let mark = if self.has_block(x, y) {
                    '#'
                } else {
                    ' '
                };
                push_char(&mut text, mark);
                proof {
                    let row = self@.row_text(y as int, x as int);
                    assert(start + row.push(mark) =~= (start + row).push(mark));
                }
            }
            push_char(&mut text, '\n');
            proof {
                let row = self@.row_text(y as int, self@.width);
                let rows = self@.rows_text(y as int);
                assert((head + rows + row).push('\n') =~= head + (rows + row.push('\n')));
            }
        }
        text
    }

    /// Reads a shape from a picture: one string per row, `#` for an occupied
    /// square. The bounding box is as wide as the first row is long and as
    /// high as there are rows.
    pub fn from_string_lines(lines: Vec<&str>) -> (v: Self)
        requires
            1 <= lines@.len() <= 255,
            forall|i: int| 0 <= i < lines@.len() ==> (#[trigger] lines@[i])@.len() <= 255,
        ensures
            v.width == lines@[0]@.len(),
            v.height == lines@.len(),
            v.blocks@ == marks(lines@, lines@.len() as int),
    {
        let mut blocks: Vec<Block> = Vec::new();
        let mut width: u8 = 0;
        let n = lines.len();
        let mut row: usize = 0;
        while row < n
            invariant
                n == lines@.len(),
                1 <= n <= 255,
                row <= n,
                forall|i: int| 0 <= i < lines@.len() ==> (#[trigger] lines@[i])@.len() <= 255,
                blocks@ == marks(lines@, row as int),
                row > 0 ==> width == lines@[0]@.len(),
            decreases n - row,
        {
            let line: &str = lines[row];
            let y: u8 = row as u8;
            let mut x: u8 = 0;
            let ghost before = blocks@;
            for ch in it: line.chars()
                invariant
                    it.seq() == line@,
                    line@.len() <= 255,
                    x == it.index(),
                    blocks@ == before + marks_in_row(line@, y, it.index()),
            {
                if ch == '#' {
                    blocks.push(Block { x, y });
                }
                proof {
                    let i = it.index();
                    assert(line@[i] == ch);
                    assert(before + marks_in_row(line@, y, i).push(Block { x, y }) =~= (before
                        + marks_in_row(line@, y, i)).push(Block { x, y }));
                }
                x += 1;
            }
            if row == 0 {
                width = x;
            }
            row += 1;
        }
        TetrominoVariant { width, height: n as u8, blocks }
    }
}

/// A tetromino kind: its name and its distinct rotations.
#[derive(Debug)]
pub struct Tetromino {
    name: String,
    pub variants: Vec<TetrominoVariant>,
}

impl Tetromino {
    /// The name of the kind, as a sequence of characters.
    pub closed spec fn spec_name(&self) -> Seq<char> {
        self.name@
    }

    /// The rotations of the kind, in the order in which they are tried.
    pub closed spec fn spec_variants(&self) -> Seq<TetrominoVariant> {
        self.variants@
    }

    /// Whether every rotation of the kind is a tetromino.
    pub open spec fn wf(&self) -> bool {
        forall|i: int|
            0 <= i < self.spec_variants().len() ==> (#[trigger] self.spec_variants()[i]).is_tetromino()
    }

    /// The texts of the first `n` rotations, one after the other.
    pub open spec fn variants_text(&self, n: int) -> Seq<char>
        decreases n,
    {
        if n <= 0 {
            Seq::empty()
        } else {
            self.variants_text(n - 1) + self.spec_variants()[n - 1]@.text()
        }
    }

    /// The kind as text: its name between quotation marks on a line of its
    /// own, then the texts of its rotations.
    pub open spec fn text(&self) -> Seq<char> {
        seq!['"'] + self.spec_name() + seq!['"', '\n'] + self.variants_text(
            self.spec_variants().len() as int,
        )
    }

    /// The kind as text: its name between quotation marks on a line of its
    /// own, then each of its rotations as text.
    pub fn render(&self) -> (text: String)
        ensures
            text@ == self.text(),
    {
        let mut text = String::new();
        push_char(&mut text, '"');
        text.append(self.name.as_str());
        push_char(&mut text, '"');
        push_char(&mut text, '\n');
        let ghost head = text@;
        assert(head =~= seq!['"'] + self.spec_name() + seq!['"', '\n']);
        assert(head + self.variants_text(0) =~= head);
        let n = self.variants.len();
        for i in 0..n
            invariant
                n == self.variants@.len(),
                text@ == head + self.variants_text(i as int),
        {
            let part = self.variants[i].render();
            text.append(part.as_str());
            proof {
                let before = self.variants_text(i as int);
                assert(head + before + part@ =~= head + (before + part@));
            }
        }
        text
    }

    /// Makes a kind of a name and its rotations.
    pub fn from_variants(name: &str, variants: Vec<TetrominoVariant>) -> (t: Self)
        ensures
            t.spec_name() == name@,
            t.spec_variants() == variants@,
    {
        Tetromino { name: name.to_owned(), variants }
    }

    /// The name of the kind.
    pub fn name(&self) -> (name: &str)
        ensures
            name@ == self.spec_name(),
    {
        self.name.as_str()
    }

    /// The rotations of the kind.
    pub fn variants(&self) -> (variants: &Vec<TetrominoVariant>)
        ensures
            variants@ == self.spec_variants(),
    {
        &self.variants
    }
}

/// Whether `t` is the kind `I` with its rotations in catalogue order.
pub open spec fn is_kind_i(t: Tetromino) -> bool {
    &&& t.spec_name() =~= seq!['I']
    &&& t.spec_variants().len() == 2
    &&& t.spec_variants()[0].has_shape(1, 4, (0, 0), (0, 1), (0, 2), (0, 3))
    &&& t.spec_variants()[1].has_shape(4, 1, (0, 0), (1, 0), (2, 0), (3, 0))
}

/// The straight tetromino.
#[allow(non_snake_case)]
pub fn I() -> (t: Tetromino)
    ensures
        is_kind_i(t),
        t.wf(),
{
    proof {
        reveal_strlit("I");
        reveal_strlit("#");
        reveal_strlit("####");
        reveal_with_fuel(marks, 5);
        reveal_with_fuel(marks_in_row, 5);
    }
    let upright = TetrominoVariant::from_string_lines(vec!["#", "#", "#", "#"]);
    let flat = TetrominoVariant::from_string_lines(vec!["####"]);
    Tetromino::from_variants("I", vec![upright, flat])
}

/// Whether `t` is the kind `J` with its rotations in catalogue order.
pub open spec fn is_kind_j(t: Tetromino) -> bool {
    &&& t.spec_name() =~= seq!['J']
    &&& t.spec_variants().len() == 4
    &&& t.spec_variants()[0].has_shape(2, 3, (1, 0), (1, 1), (0, 2), (1, 2))
    &&& t.spec_variants()[1].has_shape(3, 2, (0, 0), (0, 1), (1, 1), (2, 1))
    &&& t.spec_variants()[2].has_shape(2, 3, (0, 0), (1, 0), (0, 1), (0, 2))
    &&& t.spec_variants()[3].has_shape(3, 2, (0, 0), (1, 0), (2, 0), (2, 1))
}

/// The tetromino in the shape of the letter J.
#[allow(non_snake_case)]
pub fn J() -> (t: Tetromino)
    ensures
        is_kind_j(t),
        t.wf(),
{
    proof {
        reveal_strlit("J");
        reveal_strlit(" #");
        reveal_strlit("##");
        reveal_strlit("#  ");
        reveal_strlit("###");
        reveal_strlit("# ");
        reveal_strlit("  #");
        reveal_with_fuel(marks, 4);
        reveal_with_fuel(marks_in_row, 4);
    }
    Tetromino::from_variants(
        "J",
        vec![
            TetrominoVariant::from_string_lines(vec![" #", " #", "##"]),
            TetrominoVariant::from_string_lines(vec!["#  ", "###"]),
            TetrominoVariant::from_string_lines(vec!["##", "# ", "# "]),
            TetrominoVariant::from_string_lines(vec!["###", "  #"]),
        ],
    )
}

/// Whether `t` is the kind `L` with its rotations in catalogue order.
pub open spec fn is_kind_l(t: Tetromino) -> bool {
    &&& t.spec_name() =~= seq!['L']
    &&& t.spec_variants().len() == 4
    &&& t.spec_variants()[0].has_shape(2, 3, (0, 0), (0, 1), (0, 2), (1, 2))
    &&& t.spec_variants()[1].has_shape(3, 2, (0, 0), (1, 0), (2, 0), (0, 1))
    &&& t.spec_variants()[2].has_shape(2, 3, (0, 0), (1, 0), (1, 1), (1, 2))
    &&& t.spec_variants()[3].has_shape(3, 2, (2, 0), (0, 1), (1, 1), (2, 1))
}

/// The tetromino in the shape of the letter L.
#[allow(non_snake_case)]
pub fn L() -> (t: Tetromino)
    ensures
        is_kind_l(t),
        t.wf(),
{
    proof {
        reveal_strlit("L");
        reveal_strlit("# ");
        reveal_strlit("##");
        reveal_strlit("###");
        reveal_strlit("#  ");
        reveal_strlit(" #");
        reveal_strlit("  #");
        reveal_with_fuel(marks, 4);
        reveal_with_fuel(marks_in_row, 4);
    }
    Tetromino::from_variants(
        "L",
        vec![
            TetrominoVariant::from_string_lines(vec!["# ", "# ", "##"]),
            TetrominoVariant::from_string_lines(vec!["###", "#  "]),
            TetrominoVariant::from_string_lines(vec!["##", " #", " #"]),
            TetrominoVariant::from_string_lines(vec!["  #", "###"]),
        ],
    )
}

/// Whether `t` is the kind `O` with its rotations in catalogue order.
pub open spec fn is_kind_o(t: Tetromino) -> bool {
    &&& t.spec_name() =~= seq!['O']
    &&& t.spec_variants().len() == 1
    &&& t.spec_variants()[0].has_shape(2, 2, (0, 0), (1, 0), (0, 1), (1, 1))
}

/// The square tetromino, which looks the same under every rotation.
#[allow(non_snake_case)]
pub fn O() -> (t: Tetromino)
    ensures
        is_kind_o(t),
        t.wf(),
{
    proof {
        reveal_strlit("O");
        reveal_strlit("##");
        reveal_with_fuel(marks, 4);
        reveal_with_fuel(marks_in_row, 4);
    }
    Tetromino::from_variants(
        "O",
        vec![
            TetrominoVariant::from_string_lines(vec!["##", "##"]),
        ],
    )
}

/// Whether `t` is the kind `S` with its rotations in catalogue order.
pub open spec fn is_kind_s(t: Tetromino) -> bool {
    &&& t.spec_name() =~= seq!['S']
    &&& t.spec_variants().len() == 2
    &&& t.spec_variants()[0].has_shape(3, 2, (1, 0), (2, 0), (0, 1), (1, 1))
    &&& t.spec_variants()[1].has_shape(2, 3, (0, 0), (0, 1), (1, 1), (1, 2))
}

/// The skew tetromino in the shape of the letter S.
#[allow(non_snake_case)]
pub fn S() -> (t: Tetromino)
    ensures
        is_kind_s(t),
        t.wf(),
{
    proof {
        reveal_strlit("S");
        reveal_strlit(" ##");
        reveal_strlit("## ");
        reveal_strlit("# ");
        reveal_strlit("##");
        reveal_strlit(" #");
        reveal_with_fuel(marks, 4);
        reveal_with_fuel(marks_in_row, 4);
    }
    Tetromino::from_variants(
        "S",
        vec![
            TetrominoVariant::from_string_lines(vec![" ##", "## "]),
            TetrominoVariant::from_string_lines(vec!["# ", "##", " #"]),
        ],
    )
}

/// Whether `t` is the kind `T` with its rotations in catalogue order.
pub open spec fn is_kind_t(t: Tetromino) -> bool {
    &&& t.spec_name() =~= seq!['T']
    &&& t.spec_variants().len() == 4
    &&& t.spec_variants()[0].has_shape(3, 2, (1, 0), (0, 1), (1, 1), (2, 1))
    &&& t.spec_variants()[1].has_shape(2, 3, (0, 0), (0, 1), (1, 1), (0, 2))
    &&& t.spec_variants()[2].has_shape(3, 2, (0, 0), (1, 0), (2, 0), (1, 1))
    &&& t.spec_variants()[3].has_shape(2, 3, (1, 0), (0, 1), (1, 1), (1, 2))
}

/// The tetromino in the shape of the letter T.
#[allow(non_snake_case)]
pub fn T() -> (t: Tetromino)
    ensures
        is_kind_t(t),
        t.wf(),
{
    proof {
        reveal_strlit("T");
        reveal_strlit(" # ");
        reveal_strlit("###");
        reveal_strlit("# ");
        reveal_strlit("##");
        reveal_strlit(" #");
        reveal_with_fuel(marks, 4);
        reveal_with_fuel(marks_in_row, 4);
    }
    Tetromino::from_variants(
        "T",
        vec![
            TetrominoVariant::from_string_lines(vec![" # ", "###"]),
            TetrominoVariant::from_string_lines(vec!["# ", "##", "# "]),
            TetrominoVariant::from_string_lines(vec!["###", " # "]),
            TetrominoVariant::from_string_lines(vec![" #", "##", " #"]),
        ],
    )
}

/// Whether `t` is the kind `Z` with its rotations in catalogue order.
pub open spec fn is_kind_z(t: Tetromino) -> bool {
    &&& t.spec_name() =~= seq!['Z']
    &&& t.spec_variants().len() == 2
    &&& t.spec_variants()[0].has_shape(3, 2, (0, 0), (1, 0), (1, 1), (2, 1))
    &&& t.spec_variants()[1].has_shape(2, 3, (1, 0), (0, 1), (1, 1), (0, 2))
}

/// The skew tetromino in the shape of the letter Z.
#[allow(non_snake_case)]
pub fn Z() -> (t: Tetromino)
    ensures
        is_kind_z(t),
        t.wf(),
{
    proof {
        reveal_strlit("Z");
        reveal_strlit("## ");
        reveal_strlit(" ##");
        reveal_strlit(" #");
        reveal_strlit("##");
        reveal_strlit("# ");
        reveal_with_fuel(marks, 4);
        reveal_with_fuel(marks_in_row, 4);
    }
    Tetromino::from_variants(
        "Z",
        vec![
            TetrominoVariant::from_string_lines(vec!["## ", " ##"]),
            TetrominoVariant::from_string_lines(vec![" #", "##", "# "]),
        ],
    )
}

/// Why a string of pieces was rejected.
#[derive(Debug, Clone, Copy, PartialEq, Eq)]
pub enum TetrominoError {
    /// The character stands where a kind is expected and names none.
    InvalidTetromino(char),
    /// The character stands where a count is expected and is no decimal
    /// digit; or it is the kind at the end of a string whose last count is
    /// missing.
    InvalidCount(char),
}

impl TetrominoError {
    /// The text that reports the error.
    pub open spec fn spec_message(&self) -> Seq<char> {
        match *self {
            TetrominoError::InvalidTetromino(c) => "Invalid tetromino character: "@.push(c),
            TetrominoError::InvalidCount(c) => "Invalid count character: "@.push(c),
        }
    }

    /// The text that reports the error, naming the offending character.
    pub fn message(&self) -> (text: String)
        ensures
            text@ == self.spec_message(),
    {
        match *self {
            TetrominoError::InvalidTetromino(c) => {
                let mut text = String::from_str("Invalid tetromino character: ");
                push_char(&mut text, c);
                text
            },
            TetrominoError::InvalidCount(c) => {
                let mut text = String::from_str("Invalid count character: ");
                push_char(&mut text, c);
                text
            },
        }
    }
}

/// The first of `kinds` that bears `name`.
pub open spec fn lookup(kinds: Seq<Tetromino>, name: Seq<char>) -> Option<Tetromino>
    decreases kinds.len(),
{
    if kinds.len() == 0 {
        None
    } else if kinds[0].spec_name() == name {
        Some(kinds[0])
    } else {
        lookup(kinds.drop_first(), name)
    }
}

/// What is looked up is one of the kinds and bears the name.
pub proof fn lemma_lookup(kinds: Seq<Tetromino>, name: Seq<char>)
    ensures
        match lookup(kinds, name) {
            Some(t) => t.spec_name() == name && exists|i: int|
                0 <= i < kinds.len() && #[trigger] kinds[i] == t,
            None => forall|i: int| 0 <= i < kinds.len() ==> (#[trigger] kinds[i]).spec_name() != name,
        },
    decreases kinds.len(),
{
    if kinds.len() > 0 && kinds[0].spec_name() != name {
        let rest = kinds.drop_first();
        lemma_lookup(rest, name);
        match lookup(rest, name) {
            Some(t) => {
                let i = choose|i: int| 0 <= i < rest.len() && #[trigger] rest[i] == t;
                assert(kinds[i + 1] == t);
            },
            None => {
                assert forall|i: int| 0 <= i < kinds.len() implies (#[trigger] kinds[i]).spec_name()
                    != name by {
                    if i > 0 {
                        assert(rest[i - 1] == kinds[i]);
                    }
                }
            },
        }
    } else if kinds.len() > 0 {
        assert(kinds[0] == kinds[0]);
    }
}

/// The value of a decimal digit.
pub open spec fn digit(c: char) -> Option<nat> {
    if 48 <= c as u32 <= 57 {
        Some((c as u32 - 48) as nat)
    } else {
        None
    }
}

/// What a string of pieces stands for: each pair of a kind character and a
/// count digit yields that many pieces of the kind, in the order of the pairs;
/// the first character that fits nowhere yields the error.
pub open spec fn parse(kinds: Seq<Tetromino>, s: Seq<char>) -> Result<Seq<Tetromino>, TetrominoError>
    decreases s.len(),
{
    if s.len() == 0 {
        Ok(Seq::empty())
    } else {
        match lookup(kinds, seq![s[0]]) {
            None => Err(TetrominoError::InvalidTetromino(s[0])),
            Some(t) => if s.len() == 1 {
                Err(TetrominoError::InvalidCount(s[0]))
            } else {
                match digit(s[1]) {
                    None => Err(TetrominoError::InvalidCount(s[1])),
                    Some(n) => match parse(kinds, s.skip(2)) {
                        Ok(rest) => Ok(Seq::new(n, |i: int| t) + rest),
                        Err(e) => Err(e),
                    },
                }
            },
        }
    }
}

/// What is parsed from `s`, given that `done` was parsed from the part before
/// position `i`.
spec fn parse_from(kinds: Seq<Tetromino>, s: Seq<char>, i: int, done: Seq<Tetromino>) -> Result<
    Seq<Tetromino>,
    TetrominoError,
> {
    match parse(kinds, s.skip(i)) {
        Ok(rest) => Ok(done + rest),
        Err(e) => Err(e),
    }
}

/// The catalogue of the seven tetromino kinds.
pub struct Tetrominoes {
    tetrominoes: Vec<Tetromino>,
}

impl Tetrominoes {
    /// The kinds of the catalogue, in order.
    pub closed spec fn kinds(&self) -> Seq<Tetromino> {
        self.tetrominoes@
    }

    /// Whether every rotation of every kind is a tetromino.
    pub open spec fn wf(&self) -> bool {
        forall|i: int| 0 <= i < self.kinds().len() ==> (#[trigger] self.kinds()[i]).wf()
    }

    /// The catalogue of the kinds I, J, L, O, S, T and Z.
    pub fn new() -> (c: Self)
        ensures
            c.kinds().len() == 7,
            is_kind_i(c.kinds()[0]),
            is_kind_j(c.kinds()[1]),
            is_kind_l(c.kinds()[2]),
            is_kind_o(c.kinds()[3]),
            is_kind_s(c.kinds()[4]),
            is_kind_t(c.kinds()[5]),
            is_kind_z(c.kinds()[6]),
            c.wf(),
    {
        Tetrominoes { tetrominoes: vec![I(), J(), L(), O(), S(), T(), Z()] }
    }

    /// The first kind of the catalogue that bears `name`, if there is one.
    pub fn get(&self, name: &str) -> (found: Option<&Tetromino>)
        ensures
            match found {
                Some(t) => lookup(self.kinds(), name@) == Some(*t),
                None => lookup(self.kinds(), name@) is None,
            },
    {
        let wanted = name.to_owned();
        let n = self.tetrominoes.len();
        let mut i: usize = 0;
        assert(self.kinds().skip(0) =~= self.kinds());
        while i < n
            invariant
                n == self.tetrominoes@.len(),
                i <= n,
                wanted@ == name@,
                lookup(self.kinds(), name@) == lookup(self.kinds().skip(i as int), name@),
            decreases n - i,
        {
            let t = &self.tetrominoes[i];
            proof {
                let rest = self.kinds().skip(i as int);
                assert(rest[0] == *t);
                assert(rest.drop_first() =~= self.kinds().skip(i + 1));
            }
            if t.name == wanted {
                return Some(t);
            }
            i += 1;
        }
        None
    }

    /// The pieces that a string such as `I2T2S1` asks for: each pair of
    /// a kind character and a count digit yields that many references to the
    /// kind. Fails at the first character that names no kind, or that stands
    /// for a count and is no digit, or at a kind that no count follows.
    pub fn collection_from_string(&self, s: &str) -> (pieces: Result<Vec<&Tetromino>, TetrominoError>)
        ensures
            match pieces {
                Ok(list) => parse(self.kinds(), s@) == Ok::<Seq<Tetromino>, TetrominoError>(
                    list@.unref(),
                ),
                Err(e) => parse(self.kinds(), s@) == Err::<Seq<Tetromino>, TetrominoError>(e),
            },
            self.wf() ==> match pieces {
                Ok(list) => forall|i: int| 0 <= i < list@.len() ==> (#[trigger] list@[i]).wf(),
                Err(e) => true,
            },
    {
        let mut tetrominoes: Vec<&Tetromino> = Vec::new();
        let mut chars: Vec<char> = Vec::new();
        for c in it: s.chars()
            invariant
                it.seq() == s@,
                chars@ == s@.take(it.index()),
        {
            proof {
                assert(s@.take(it.index() + 1) =~= s@.take(it.index()).push(c));
            }
            chars.push(c);
        }
        assert(chars@ =~= s@);
        let n = chars.len();
        let mut i: usize = 0;
        assert(s@.skip(0) =~= s@);
        assert(tetrominoes@.unref() + Seq::<Tetromino>::empty() =~= tetrominoes@.unref());
        while i < n
            invariant
                chars@ == s@,
                n == chars@.len(),
                i <= n,
                parse(self.kinds(), s@) == parse_from(self.kinds(), s@, i as int, tetrominoes@.unref()),
                self.wf() ==> forall|j: int|
                    0 <= j < tetrominoes@.len() ==> (#[trigger] tetrominoes@[j]).wf(),
            decreases n - i,
        {
            let ghost rest = s@.skip(i as int);
            let kind = chars[i];
            assert(rest[0] == kind);
            let name = char_string(kind);
            let tetromino = match self.get(name.as_str()) {
                Some(t) => t,
                None => {
                    return Err(TetrominoError::InvalidTetromino(kind));
                },
            };
            if i + 1 >= n {
                return Err(TetrominoError::InvalidCount(kind));
            }
            let figure = chars[i + 1];
            assert(rest[1] == figure);
            let code: u32 = figure as u32;
            if code < 48 || code > 57 {
                return Err(TetrominoError::InvalidCount(figure));
            }
            let count: u32 = code - 48;
            let ghost before = tetrominoes@.unref();
            proof {
                lemma_lookup(self.kinds(), name@);
            }
            for k in 0..count
                invariant
                    tetrominoes@.unref() == before + Seq::new(k as nat, |j: int| *tetromino),
                    self.wf() ==> tetromino.wf(),
                    self.wf() ==> forall|j: int|
                        0 <= j < tetrominoes@.len() ==> (#[trigger] tetrominoes@[j]).wf(),
            {
                proof {
                    assert(Seq::new((k + 1) as nat, |j: int| *tetromino) =~= Seq::new(
                        k as nat,
                        |j: int| *tetromino,
                    ).push(*tetromino));
                    assert(tetrominoes@.push(tetromino).unref() =~= tetrominoes@.unref().push(
                        *tetromino,
                    ));
                }
                tetrominoes.push(tetromino);
            }
            proof {
                assert(rest.skip(2) =~= s@.skip(i + 2));
                let made = Seq::new(count as nat, |j: int| *tetromino);
                match parse(self.kinds(), s@.skip(i + 2)) {
                    Ok(tail) => {
                        assert(before + (made + tail) =~= (before + made) + tail);
                    },
                    Err(e) => {},
                }
            }
            i += 2;
        }
        Ok(tetrominoes)
    }
}

} // verus!
