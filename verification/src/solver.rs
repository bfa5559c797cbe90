//! The backtracking search.
//!
//! The pieces are placed one after the other, in the order of the list. For
//! each piece every rotation is tried at every anchor, rows first; after a
//! placement the search goes on with the next piece, unless the grid is full
//! (success) or a region of free cells has a size that is no multiple of four
//! (no tetrominoes can fill it, so the placement is taken back at once).

use crate::cells::Cell;
use crate::field::Field;
use crate::grid::{Grid, Placement};
use crate::regions::{
    adjacent, all_in_grid, component, in_grid, lemma_connected_step,
    lemma_partition_spacious, region_sizes, spacious, step,
};
use crate::tetris::{touching, Shape, Tetromino, TetrominoVariant};
use std::sync::atomic::AtomicBool;
use std::sync::atomic::Ordering;
use vstd::prelude::*;
use vstd::set_lib::*;

verus! {

/// Whether `shape` is one of the rotations of the kind.
pub open spec fn is_variant_of(t: Tetromino, shape: Shape) -> bool {
    exists|i: int| 0 <= i < t.spec_variants().len() && (#[trigger] t.spec_variants()[i])@ == shape
}

/// The grid after the first `n` of `moves` were put down, one after the other.
pub open spec fn after(g: Grid, moves: Seq<Placement>, n: int) -> Grid
    decreases n,
{
    if n <= 0 {
        g
    } else {
        let p = moves[n - 1];
        after(g, moves, n - 1).add(p.shape, p.x, p.y)
    }
}

/// Whether move `k` puts a rotation of piece `index + k` where it can be
/// placed once the moves before it are made.
pub open spec fn is_move(
    g: Grid,
    pieces: Seq<Tetromino>,
    index: int,
    moves: Seq<Placement>,
    k: int,
) -> bool {
    &&& is_variant_of(pieces[index + k], moves[k].shape)
    &&& after(g, moves, k).can_place(moves[k].shape, moves[k].x, moves[k].y)
}

/// Whether `moves` fills the grid `g` with the pieces from position `index`
/// on: move `k` places piece `index + k`, and the grid is full after the last
/// move.
pub open spec fn is_solution(
    g: Grid,
    pieces: Seq<Tetromino>,
    index: int,
    moves: Seq<Placement>,
) -> bool {
    &&& 0 <= index
    &&& 0 < moves.len()
    &&& index + moves.len() <= pieces.len()
    &&& forall|k: int| 0 <= k < moves.len() ==> #[trigger] is_move(g, pieces, index, moves, k)
    &&& after(g, moves, moves.len() as int).is_full()
}

/// Whether the grid `g` can be filled with the pieces from position `index`
/// on, taken in order.
pub open spec fn solvable(g: Grid, pieces: Seq<Tetromino>, index: int) -> bool {
    exists|moves: Seq<Placement>| #[trigger] is_solution(g, pieces, index, moves)
}

/// Whether a solution begins with `shape` at `(x, y)`.
pub open spec fn starts(
    g: Grid,
    pieces: Seq<Tetromino>,
    index: int,
    shape: Shape,
    x: int,
    y: int,
) -> bool {
    g.can_place(shape, x, y) && (g.add(shape, x, y).is_full() || solvable(
        g.add(shape, x, y),
        pieces,
        index + 1,
    ))
}

/// Making a move first and the others after it is making them all.
proof fn lemma_after_cons(g: Grid, p: Placement, rest: Seq<Placement>, n: int)
    requires
        0 <= n <= rest.len(),
    ensures
        after(g, seq![p] + rest, n + 1) == after(g.add(p.shape, p.x, p.y), rest, n),
    decreases n,
{
    let moves = seq![p] + rest;
    if n == 0 {
        assert(moves[0] == p);
        assert(after(g, moves, 0) == g);
        assert(after(g, moves, 1) == after(g, moves, 0).add(p.shape, p.x, p.y));
    } else {
        lemma_after_cons(g, p, rest, n - 1);
        assert(moves[n] == rest[n - 1]);
    }
}

/// A move that can be made, followed by a solution of what it leaves, is a
/// solution.
proof fn lemma_solution_cons(
    g: Grid,
    pieces: Seq<Tetromino>,
    index: int,
    p: Placement,
    rest: Seq<Placement>,
)
    requires
        0 <= index < pieces.len(),
        is_variant_of(pieces[index], p.shape),
        g.can_place(p.shape, p.x, p.y),
        is_solution(g.add(p.shape, p.x, p.y), pieces, index + 1, rest),
    ensures
        is_solution(g, pieces, index, seq![p] + rest),
        after(g, seq![p] + rest, rest.len() as int + 1) == after(
            g.add(p.shape, p.x, p.y),
            rest,
            rest.len() as int,
        ),
{
    let moves = seq![p] + rest;
    let g1 = g.add(p.shape, p.x, p.y);
    assert forall|k: int| 0 <= k < moves.len() implies #[trigger] is_move(
        g,
        pieces,
        index,
        moves,
        k,
    ) by {
        if k == 0 {
            assert(moves[0] == p);
        } else {
            assert(moves[k] == rest[k - 1]);
            assert(is_move(g1, pieces, index + 1, rest, k - 1));
            lemma_after_cons(g, p, rest, k - 1);
        }
    }
    lemma_after_cons(g, p, rest, rest.len() as int);
}

/// A single move that fills the grid is a solution.
proof fn lemma_solution_single(g: Grid, pieces: Seq<Tetromino>, index: int, p: Placement)
    requires
        0 <= index < pieces.len(),
        is_variant_of(pieces[index], p.shape),
        g.can_place(p.shape, p.x, p.y),
        g.add(p.shape, p.x, p.y).is_full(),
    ensures
        is_solution(g, pieces, index, seq![p]),
        after(g, seq![p], 1) == g.add(p.shape, p.x, p.y),
{
    let moves = seq![p];
    assert(moves[0] == p);
    assert(after(g, moves, 0) == g);
    assert(after(g, moves, 1) == after(g, moves, 0).add(p.shape, p.x, p.y));
    assert(is_move(g, pieces, index, moves, 0));
}

/// A solution begins with a move that starts a solution.
proof fn lemma_solution_starts(g: Grid, pieces: Seq<Tetromino>, index: int, moves: Seq<Placement>)
    requires
        is_solution(g, pieces, index, moves),
    ensures
        is_variant_of(pieces[index], moves[0].shape),
        starts(g, pieces, index, moves[0].shape, moves[0].x, moves[0].y),
        moves.len() == 1 ==> g.add(moves[0].shape, moves[0].x, moves[0].y).is_full(),
        moves.len() > 1 ==> is_solution(
            g.add(moves[0].shape, moves[0].x, moves[0].y),
            pieces,
            index + 1,
            moves.drop_first(),
        ),
{
    let p = moves[0];
    let rest = moves.drop_first();
    let g1 = g.add(p.shape, p.x, p.y);
    assert(moves =~= seq![p] + rest);
    assert(is_move(g, pieces, index, moves, 0));
    assert(after(g, moves, 0) == g);
    lemma_after_cons(g, p, rest, rest.len() as int);
    if rest.len() == 0 {
        assert(after(g1, rest, 0) == g1);
    } else {
        assert forall|k: int| 0 <= k < rest.len() implies #[trigger] is_move(
            g1,
            pieces,
            index + 1,
            rest,
            k,
        ) by {
            assert(is_move(g, pieces, index, moves, k + 1));
            assert(moves[k + 1] == rest[k]);
            lemma_after_cons(g, p, rest, k);
        }
        assert(is_solution(g1, pieces, index + 1, rest));
    }
}

/// What the search settles for one piece: which rotation goes where.
pub struct Choice {
    /// Position of the rotation in the list of the kind.
    pub variant: int,
    /// Column of the anchor.
    pub x: int,
    /// Row of the anchor.
    pub y: int,
}

/// Whether choice `a` is tried before choice `b`: rotations in the order of
/// the kind's list; for one rotation the rows from top to bottom; within a
/// row the columns from left to right.
pub open spec fn tried_before(a: Choice, b: Choice) -> bool {
    ||| a.variant < b.variant
    ||| a.variant == b.variant && a.y < b.y
    ||| a.variant == b.variant && a.y == b.y && a.x < b.x
}

/// The move that a choice makes with a piece of kind `t`.
pub open spec fn placement_of(t: Tetromino, c: Choice) -> Placement {
    Placement { shape: t.spec_variants()[c.variant]@, x: c.x, y: c.y }
}

/// The moves that the choices make with the pieces from position `index` on.
pub open spec fn moves_of(pieces: Seq<Tetromino>, index: int, choices: Seq<Choice>) -> Seq<
    Placement,
> {
    Seq::new(choices.len(), |k: int| placement_of(pieces[index + k], choices[k]))
}

/// Whether no choice that is tried before `c` starts a solution.
pub open spec fn none_earlier(g: Grid, pieces: Seq<Tetromino>, index: int, c: Choice) -> bool {
    forall|e: Choice|
        0 <= e.variant && #[trigger] tried_before(e, c) ==> !starts(
            g,
            pieces,
            index,
            pieces[index].spec_variants()[e.variant]@,
            e.x,
            e.y,
        )
}

/// Whether the choices name rotations that exist and make a solution.
pub open spec fn is_solution_by(
    g: Grid,
    pieces: Seq<Tetromino>,
    index: int,
    choices: Seq<Choice>,
) -> bool {
    &&& is_solution(g, pieces, index, moves_of(pieces, index, choices))
    &&& forall|k: int|
        0 <= k < choices.len() ==> 0 <= (#[trigger] choices[k]).variant < pieces[index
            + k].spec_variants().len()
}

/// Whether the choices are those of the solution that the search meets first:
/// at each step, no choice that is tried before the one taken starts a
/// solution.
pub open spec fn is_first(g: Grid, pieces: Seq<Tetromino>, index: int, choices: Seq<Choice>) -> bool {
    forall|k: int|
        0 <= k < choices.len() ==> none_earlier(
            after(g, moves_of(pieces, index, choices), k),
            pieces,
            index + k,
            #[trigger] choices[k],
        )
}

/// The choice with which the search for a piece begins.
pub open spec fn first_choice() -> Choice {
    Choice { variant: 0, x: 0, y: 0 }
}

/// Number of pieces that an exhaustive search puts down while it tries, for
/// the piece at position `index`, the choice `c` and those after it, the
/// pieces that it puts down for the pieces further on included.
///
/// A rotation that is larger than the grid is passed over. A choice whose
/// cells are not all empty costs nothing. Each other choice costs one
/// placement; unless that fills the grid or leaves a region whose size is no
/// multiple of four, it also costs what the search for the next piece costs.
/// The search ends with the first choice that leads to a full grid.
pub open spec fn effort(g: Grid, pieces: Seq<Tetromino>, index: int, c: Choice) -> nat
    decreases pieces.len() - index, pieces[index].spec_variants().len() - c.variant, g.height + 1
        - c.y, g.width + 1 - c.x,
{
    let shape = pieces[index].spec_variants()[c.variant]@;
    let next_variant = Choice { variant: c.variant + 1, x: 0, y: 0 };
    let next_row = Choice { variant: c.variant, x: 0, y: c.y + 1 };
    let next_column = Choice { variant: c.variant, x: c.x + 1, y: c.y };
    if index < 0 || index >= pieces.len() || c.variant < 0 || c.variant
        >= pieces[index].spec_variants().len() || c.x < 0 || c.y < 0 {
        0
    } else if shape.width > g.width || shape.height > g.height || c.y > g.height - shape.height {
        effort(g, pieces, index, next_variant)
    } else if c.x > g.width - shape.width {
        effort(g, pieces, index, next_row)
    } else if !g.can_place(shape, c.x, c.y) {
        effort(g, pieces, index, next_column)
    } else {
        let placed = g.add(shape, c.x, c.y);
        if placed.is_full() {
            1
        } else if !spacious(placed.width, placed.height, placed.free) {
            1 + effort(g, pieces, index, next_column)
        } else if solvable(placed, pieces, index + 1) {
            1 + effort(placed, pieces, index + 1, first_choice())
        } else {
            1 + effort(placed, pieces, index + 1, first_choice()) + effort(
                g,
                pieces,
                index,
                next_column,
            )
        }
    }
}

/// What a counter that stops at `u64::MAX` shows after `n` steps.
pub open spec fn counted(n: int) -> int {
    if n < u64::MAX {
        n
    } else {
        u64::MAX as int
    }
}

/// The moves of a choice followed by others.
proof fn lemma_moves_cons(pieces: Seq<Tetromino>, index: int, c: Choice, rest: Seq<Choice>)
    ensures
        moves_of(pieces, index, seq![c] + rest) =~= seq![placement_of(pieces[index], c)] + moves_of(
            pieces,
            index + 1,
            rest,
        ),
{
    let all = seq![c] + rest;
    let left = moves_of(pieces, index, all);
    let right = seq![placement_of(pieces[index], c)] + moves_of(pieces, index + 1, rest);
    assert(left.len() == right.len());
    assert forall|k: int| 0 <= k < left.len() implies left[k] == right[k] by {
        if k > 0 {
            assert(all[k] == rest[k - 1]);
            assert(index + k == index + 1 + (k - 1));
        }
    }
}

/// A first choice that fills the grid is a first solution.
proof fn lemma_first_single(g: Grid, pieces: Seq<Tetromino>, index: int, c: Choice, exhaustive: bool)
    requires
        0 <= index < pieces.len(),
        0 <= c.variant < pieces[index].spec_variants().len(),
        g.can_place(placement_of(pieces[index], c).shape, c.x, c.y),
        g.add(placement_of(pieces[index], c).shape, c.x, c.y).is_full(),
        exhaustive ==> none_earlier(g, pieces, index, c),
    ensures
        is_solution_by(g, pieces, index, seq![c]),
        exhaustive ==> is_first(g, pieces, index, seq![c]),
        after(g, moves_of(pieces, index, seq![c]), 1) == g.add(
            placement_of(pieces[index], c).shape,
            c.x,
            c.y,
        ),
{
    let p = placement_of(pieces[index], c);
    let choices = seq![c];
    assert(moves_of(pieces, index, choices) =~= seq![p]);
    assert(pieces[index].spec_variants()[c.variant]@ == p.shape);
    lemma_solution_single(g, pieces, index, p);
    assert(after(g, seq![p], 0) == g);
}

/// A first choice followed by a first solution of what it leaves is a first
/// solution.
proof fn lemma_first_cons(
    g: Grid,
    pieces: Seq<Tetromino>,
    index: int,
    c: Choice,
    rest: Seq<Choice>,
    exhaustive: bool,
)
    requires
        0 <= index < pieces.len(),
        0 <= c.variant < pieces[index].spec_variants().len(),
        g.can_place(placement_of(pieces[index], c).shape, c.x, c.y),
        is_solution_by(g.add(placement_of(pieces[index], c).shape, c.x, c.y), pieces, index + 1, rest),
        exhaustive ==> none_earlier(g, pieces, index, c),
        exhaustive ==> is_first(
            g.add(placement_of(pieces[index], c).shape, c.x, c.y),
            pieces,
            index + 1,
            rest,
        ),
    ensures
        is_solution_by(g, pieces, index, seq![c] + rest),
        exhaustive ==> is_first(g, pieces, index, seq![c] + rest),
        after(g, moves_of(pieces, index, seq![c] + rest), rest.len() as int + 1) == after(
            g.add(placement_of(pieces[index], c).shape, c.x, c.y),
            moves_of(pieces, index + 1, rest),
            rest.len() as int,
        ),
{
    let p = placement_of(pieces[index], c);
    let g1 = g.add(p.shape, p.x, p.y);
    let choices = seq![c] + rest;
    let tail = moves_of(pieces, index + 1, rest);
    lemma_moves_cons(pieces, index, c, rest);
    assert(moves_of(pieces, index, choices) == seq![p] + tail);
    assert(pieces[index].spec_variants()[c.variant]@ == p.shape);
    lemma_solution_cons(g, pieces, index, p, tail);
    assert forall|k: int| 0 <= k < choices.len() implies 0 <= (#[trigger] choices[k]).variant
        < pieces[index + k].spec_variants().len() by {
        if k > 0 {
            assert(choices[k] == rest[k - 1]);
            assert(index + k == index + 1 + (k - 1));
        }
    }
    if exhaustive {
        assert forall|k: int| 0 <= k < choices.len() implies none_earlier(
            after(g, moves_of(pieces, index, choices), k),
            pieces,
            index + k,
            #[trigger] choices[k],
        ) by {
            if k == 0 {
                assert(after(g, seq![p] + tail, 0) == g);
            } else {
                assert(choices[k] == rest[k - 1]);
                assert(index + k == index + 1 + (k - 1));
                lemma_after_cons(g, p, tail, k - 1);
                assert(none_earlier(after(g1, tail, k - 1), pieces, index + 1 + (k - 1), rest[k - 1]));
            }
        }
    }
}

/// Nothing can be put down on a full grid.
proof fn lemma_full_no_place(g: Grid, shape: Shape, x: int, y: int)
    requires
        g.wf(),
        g.is_full(),
    ensures
        !g.can_place(shape, x, y),
{
    if g.can_place(shape, x, y) {
        let p = Placement { shape, x, y };
        p.lemma_cells(g.width, g.height);
        assert(g.labels[p.cell(0)] == 0);
        assert(g.free.contains(p.cell(0)));
        g.lemma_full_no_free();
    }
}

/// What is left of the choices of a first solution after the first of them
/// is a first solution of what that one leaves.
proof fn lemma_first_rest(g: Grid, pieces: Seq<Tetromino>, index: int, choices: Seq<Choice>)
    requires
        is_solution_by(g, pieces, index, choices),
        is_first(g, pieces, index, choices),
        choices.len() > 1,
    ensures
        ({
            let p = placement_of(pieces[index], choices[0]);
            let g1 = g.add(p.shape, p.x, p.y);
            &&& is_solution_by(g1, pieces, index + 1, choices.drop_first())
            &&& is_first(g1, pieces, index + 1, choices.drop_first())
        }),
{
    let moves = moves_of(pieces, index, choices);
    let p = placement_of(pieces[index], choices[0]);
    let g1 = g.add(p.shape, p.x, p.y);
    let rest = choices.drop_first();
    let tail = moves_of(pieces, index + 1, rest);
    assert(choices =~= seq![choices[0]] + rest);
    lemma_moves_cons(pieces, index, choices[0], rest);
    assert(moves[0] == p);
    assert(moves.drop_first() =~= tail);
    lemma_solution_starts(g, pieces, index, moves);
    assert forall|k: int| 0 <= k < rest.len() implies 0 <= (#[trigger] rest[k]).variant < pieces[index
        + 1 + k].spec_variants().len() by {
        assert(rest[k] == choices[k + 1]);
        assert(index + 1 + k == index + (k + 1));
    }
    assert forall|k: int| 0 <= k < rest.len() implies none_earlier(
        after(g1, tail, k),
        pieces,
        index + 1 + k,
        #[trigger] rest[k],
    ) by {
        assert(rest[k] == choices[k + 1]);
        assert(index + 1 + k == index + (k + 1));
        lemma_after_cons(g, p, tail, k);
        assert(none_earlier(after(g, moves, k + 1), pieces, index + (k + 1), choices[k + 1]));
    }
}

/// The search is deterministic: a grid has at most one first solution, so
/// that an exhaustive search on the same grid with the same pieces always
/// ends with the same moves.
pub proof fn lemma_first_unique(
    g: Grid,
    pieces: Seq<Tetromino>,
    index: int,
    a: Seq<Choice>,
    b: Seq<Choice>,
)
    requires
        g.wf(),
        is_solution_by(g, pieces, index, a),
        is_first(g, pieces, index, a),
        is_solution_by(g, pieces, index, b),
        is_first(g, pieces, index, b),
    ensures
        a == b,
    decreases a.len(),
{
    let ma = moves_of(pieces, index, a);
    let mb = moves_of(pieces, index, b);
    lemma_solution_starts(g, pieces, index, ma);
    lemma_solution_starts(g, pieces, index, mb);
    assert(after(g, ma, 0) == g);
    assert(after(g, mb, 0) == g);
    assert(none_earlier(g, pieces, index, a[0]));
    assert(none_earlier(g, pieces, index, b[0]));
    assert(ma[0] == placement_of(pieces[index], a[0]));
    assert(mb[0] == placement_of(pieces[index], b[0]));
    if a[0] != b[0] {
        if tried_before(a[0], b[0]) {
            assert(false);
        } else {
            assert(tried_before(b[0], a[0]));
            assert(false);
        }
    }
    let p = ma[0];
    let g1 = g.add(p.shape, p.x, p.y);
    g.lemma_add_wf(p.shape, p.x, p.y);
    if a.len() == 1 || b.len() == 1 {
        if a.len() > 1 {
            let rest = ma.drop_first();
            assert(is_move(g1, pieces, index + 1, rest, 0));
            assert(after(g1, rest, 0) == g1);
            lemma_full_no_place(g1, rest[0].shape, rest[0].x, rest[0].y);
        }
        if b.len() > 1 {
            let rest = mb.drop_first();
            assert(is_move(g1, pieces, index + 1, rest, 0));
            assert(after(g1, rest, 0) == g1);
            lemma_full_no_place(g1, rest[0].shape, rest[0].x, rest[0].y);
        }
        assert(a =~= b);
    } else {
        lemma_first_rest(g, pieces, index, a);
        lemma_first_rest(g, pieces, index, b);
        lemma_first_unique(g1, pieces, index + 1, a.drop_first(), b.drop_first());
        assert(a =~= seq![a[0]] + a.drop_first());
        assert(b =~= seq![b[0]] + b.drop_first());
    }
}

/// Once the choice `c` has failed, nothing up to the next column starts a
/// solution.
proof fn lemma_next_column(g: Grid, pieces: Seq<Tetromino>, index: int, c: Choice)
    requires
        none_earlier(g, pieces, index, c),
        !starts(g, pieces, index, pieces[index].spec_variants()[c.variant]@, c.x, c.y),
    ensures
        none_earlier(g, pieces, index, Choice { variant: c.variant, x: c.x + 1, y: c.y }),
{
    let next = Choice { variant: c.variant, x: c.x + 1, y: c.y };
    assert forall|e: Choice| 0 <= e.variant && #[trigger] tried_before(e, next) implies !starts(
        g,
        pieces,
        index,
        pieces[index].spec_variants()[e.variant]@,
        e.x,
        e.y,
    ) by {
        if !tried_before(e, c) {
            assert(e == c);
        }
    }
}

/// Once the columns from `c.x` on hold no anchor at which the rotation fits,
/// nothing up to the start of the next row starts a solution.
proof fn lemma_next_row(g: Grid, pieces: Seq<Tetromino>, index: int, c: Choice)
    requires
        none_earlier(g, pieces, index, c),
        0 <= c.variant,
        c.x + pieces[index].spec_variants()[c.variant]@.width > g.width,
    ensures
        none_earlier(g, pieces, index, Choice { variant: c.variant, x: 0, y: c.y + 1 }),
{
    let next = Choice { variant: c.variant, x: 0, y: c.y + 1 };
    let shape = pieces[index].spec_variants()[c.variant]@;
    assert forall|e: Choice| 0 <= e.variant && #[trigger] tried_before(e, next) implies !starts(
        g,
        pieces,
        index,
        pieces[index].spec_variants()[e.variant]@,
        e.x,
        e.y,
    ) by {
        if !tried_before(e, c) {
            assert(e.variant == c.variant);
            assert(!g.can_place(shape, e.x, e.y));
        }
    }
}

/// Once the rows from `c.y` on hold no anchor at which the rotation fits,
/// nothing up to the start of the next rotation starts a solution.
proof fn lemma_next_variant(g: Grid, pieces: Seq<Tetromino>, index: int, c: Choice)
    requires
        none_earlier(g, pieces, index, c),
        0 <= c.variant,
        c.x <= 0,
        c.y + pieces[index].spec_variants()[c.variant]@.height > g.height || pieces[index].spec_variants()[c.variant]@.width
            > g.width,
    ensures
        none_earlier(g, pieces, index, Choice { variant: c.variant + 1, x: 0, y: 0 }),
{
    let next = Choice { variant: c.variant + 1, x: 0, y: 0 };
    let shape = pieces[index].spec_variants()[c.variant]@;
    assert forall|e: Choice| 0 <= e.variant && #[trigger] tried_before(e, next) implies !starts(
        g,
        pieces,
        index,
        pieces[index].spec_variants()[e.variant]@,
        e.x,
        e.y,
    ) by {
        if !tried_before(e, c) {
            if e.variant == c.variant {
                assert(!g.can_place(shape, e.x, e.y));
            } else {
                assert(!g.can_place(pieces[index].spec_variants()[e.variant]@, e.x, e.y));
            }
        }
    }
}

/// Once no choice of a rotation that exists starts a solution, there is no
/// solution.
proof fn lemma_none_left(g: Grid, pieces: Seq<Tetromino>, index: int)
    requires
        0 <= index < pieces.len(),
        none_earlier(
            g,
            pieces,
            index,
            Choice { variant: pieces[index].spec_variants().len() as int, x: 0, y: 0 },
        ),
    ensures
        !solvable(g, pieces, index),
{
    if solvable(g, pieces, index) {
        let moves = choose|moves: Seq<Placement>| #[trigger] is_solution(g, pieces, index, moves);
        lemma_solution_starts(g, pieces, index, moves);
        let t = pieces[index];
        let v = choose|v: int|
            0 <= v < t.spec_variants().len() && (#[trigger] t.spec_variants()[v])@ == moves[0].shape;
        let e = Choice { variant: v, x: moves[0].x, y: moves[0].y };
        assert(tried_before(e, Choice { variant: t.spec_variants().len() as int, x: 0, y: 0 }));
    }
}

/// Moves that can be made one after the other leave a well-formed grid of the
/// same dimensions, on which they lie on top of the pieces that were there.
pub proof fn lemma_after_wf(
    g: Grid,
    pieces: Seq<Tetromino>,
    index: int,
    moves: Seq<Placement>,
    n: int,
)
    requires
        g.wf(),
        0 <= n <= moves.len(),
        forall|k: int| 0 <= k < n ==> #[trigger] is_move(g, pieces, index, moves, k),
    ensures
        after(g, moves, n).wf(),
        after(g, moves, n).width == g.width,
        after(g, moves, n).height == g.height,
        after(g, moves, n).placed =~= g.placed + moves.take(n),
    decreases n,
{
    if n > 0 {
        lemma_after_wf(g, pieces, index, moves, n - 1);
        let before = after(g, moves, n - 1);
        let p = moves[n - 1];
        assert(is_move(g, pieces, index, moves, n - 1));
        before.lemma_add_wf(p.shape, p.x, p.y);
        assert(moves.take(n) =~= moves.take(n - 1).push(p));
    }
}

/// What a solution leaves on the grid: no cell is free; every cell bears the
/// number of exactly one piece; the cells that bear the number of a move are
/// the four cells of a rotation of the piece that the move places, anchored
/// inside the grid.
pub proof fn lemma_solution_labels(
    g: Grid,
    pieces: Seq<Tetromino>,
    index: int,
    moves: Seq<Placement>,
)
    requires
        g.wf(),
        is_solution(g, pieces, index, moves),
    ensures
        ({
            let full = after(g, moves, moves.len() as int);
            let base = g.placed.len() as int;
            &&& full.wf()
            &&& full.width == g.width && full.height == g.height
            &&& full.filled == full.width * full.height
            &&& full.free =~= Set::<Cell>::empty()
            &&& full.placed =~= g.placed + moves
            &&& forall|c: Cell|
                in_grid(full.width, full.height, c) ==> 1 <= #[trigger] full.labels[c] <= base
                    + moves.len()
            &&& forall|k: int|
                0 <= k < moves.len() ==> is_variant_of(pieces[index + k], (#[trigger] moves[k]).shape)
                    && moves[k].fits(full.width, full.height) && moves[k].cells().len() == 4
            &&& forall|k: int, c: Cell|
                0 <= k < moves.len() && in_grid(full.width, full.height, c) ==> (
                #[trigger] moves[k].covers(c) <==> full.labels[c] == base + k + 1)
        }),
{
    let n = moves.len() as int;
    let full = after(g, moves, n);
    let base = g.placed.len() as int;
    lemma_after_wf(g, pieces, index, moves, n);
    assert(moves.take(n) =~= moves);
    full.lemma_full_no_free();
    assert forall|c: Cell| in_grid(full.width, full.height, c) implies 1 <= #[trigger] full.labels[c]
        <= base + moves.len() by {
        assert(!full.free.contains(c));
    }
    assert forall|k: int| 0 <= k < moves.len() implies is_variant_of(
        pieces[index + k],
        (#[trigger] moves[k]).shape,
    ) && moves[k].fits(full.width, full.height) && moves[k].cells().len() == 4 by {
        assert(is_move(g, pieces, index, moves, k));
        assert(full.placed[base + k] == moves[k]);
        moves[k].lemma_cells(full.width, full.height);
    }
    assert forall|k: int, c: Cell|
        0 <= k < moves.len() && in_grid(full.width, full.height, c) implies (
    #[trigger] moves[k].covers(c) <==> full.labels[c] == base + k + 1) by {
        assert(full.placed[base + k] == moves[k]);
        assert(full.placed[base + k].covers(c) <==> full.labels[c] == base + k + 1);
    }
}

/// Whether `r` is a finite set of free cells that holds every free neighbour
/// of each of its cells.
spec fn sealed(free: Set<Cell>, r: Set<Cell>) -> bool {
    &&& r.finite()
    &&& r.subset_of(free)
    &&& forall|a: Cell, b: Cell|
        r.contains(a) && free.contains(b) && #[trigger] adjacent(a, b) ==> r.contains(b)
}

/// Whether some sealed set of free cells has a size that is no multiple of
/// four.
spec fn blocked(g: Grid) -> bool {
    exists|r: Set<Cell>| #[trigger] sealed(g.free, r) && r.len() % 4 != 0
}

/// A tetromino lies inside a sealed set or outside it.
proof fn lemma_piece_in_or_out(g: Grid, p: Placement, r: Set<Cell>)
    requires
        g.wf(),
        g.can_place(p.shape, p.x, p.y),
        sealed(g.free, r),
    ensures
        p.cells().subset_of(r) || p.cells().disjoint(r),
{
    let b = p.shape.blocks;
    p.lemma_cells(g.width, g.height);
    assert forall|i: int| 0 <= i < 4 implies g.free.contains(#[trigger] p.cell(i)) by {
        assert(g.labels[p.cell(i)] == 0);
    }
    assert forall|i: int, j: int| 0 <= i < 4 && 0 <= j < 4 && #[trigger] touching(b[i], b[j]) implies (
    r.contains(p.cell(i)) == r.contains(p.cell(j))) by {
        assert(adjacent(p.cell(i), p.cell(j)));
        assert(adjacent(p.cell(j), p.cell(i)));
    }
    let in0 = r.contains(p.cell(0));
    assert(r.contains(p.cell(1)) == in0 && r.contains(p.cell(2)) == in0 && r.contains(p.cell(3))
        == in0);
    if in0 {
        assert(p.cells().subset_of(r));
    } else {
        assert(p.cells().disjoint(r));
    }
}

/// Putting a piece down leaves a blocked grid blocked.
proof fn lemma_blocked_add(g: Grid, shape: Shape, x: int, y: int)
    requires
        g.wf(),
        g.can_place(shape, x, y),
        blocked(g),
    ensures
        blocked(g.add(shape, x, y)),
{
    let p = Placement { shape, x, y };
    let r = choose|r: Set<Cell>| #[trigger] sealed(g.free, r) && r.len() % 4 != 0;
    let g1 = g.add(shape, x, y);
    let r1 = r.difference(p.cells());
    p.lemma_cells(g.width, g.height);
    lemma_piece_in_or_out(g, p, r);
    if p.cells().subset_of(r) {
        lemma_set_disjoint_lens(r1, p.cells());
        assert(r1.union(p.cells()) =~= r);
    } else {
        assert(r1 =~= r);
    }
    assert(sealed(g1.free, r1));
}

/// A blocked grid cannot be filled.
proof fn lemma_blocked_unsolvable(g: Grid, pieces: Seq<Tetromino>, index: int, moves: Seq<Placement>)
    requires
        g.wf(),
        blocked(g),
    ensures
        !g.is_full(),
        !is_solution(g, pieces, index, moves),
    decreases moves.len(),
{
    let r = choose|r: Set<Cell>| #[trigger] sealed(g.free, r) && r.len() % 4 != 0;
    assert(!g.is_full()) by {
        if r.len() > 0 {
            let c = r.choose();
            assert(g.free.contains(c));
        }
    }
    if is_solution(g, pieces, index, moves) {
        let p = moves[0];
        lemma_solution_starts(g, pieces, index, moves);
        let g1 = g.add(p.shape, p.x, p.y);
        g.lemma_add_wf(p.shape, p.x, p.y);
        lemma_blocked_add(g, p.shape, p.x, p.y);
        lemma_blocked_unsolvable(g1, pieces, index + 1, moves.drop_first());
    }
}

/// Pruning is sound: a grid with a region of free cells whose size is no
/// multiple of four cannot be filled, whatever the pieces.
pub proof fn lemma_pruning_sound(g: Grid, pieces: Seq<Tetromino>, index: int)
    requires
        g.wf(),
        !spacious(g.width, g.height, g.free),
    ensures
        !g.is_full(),
        !solvable(g, pieces, index),
{
    let w = g.width;
    let h = g.height;
    let c = choose|c: Cell| g.free.contains(c) && (#[trigger] component(w, h, g.free, c)).len() % 4 != 0;
    let r = component(w, h, g.free, c);
    assert(r.subset_of(g.free)) by {
        assert forall|d: Cell| r.contains(d) implies g.free.contains(d) by {
            let path = choose|path: Seq<Cell>|
                #[trigger] crate::regions::is_path(w, h, g.free, path) && path.first() == c
                    && path.last() == d;
            if path.len() > 1 {
                assert(step(w, h, g.free, path[path.len() - 2], path[path.len() - 2 + 1]));
            }
        }
    }
    lemma_set_subset_finite(g.free, r);
    assert forall|a: Cell, b: Cell|
        r.contains(a) && g.free.contains(b) && #[trigger] adjacent(a, b) implies r.contains(b) by {
        assert(step(w, h, g.free, a, b));
        lemma_connected_step(w, h, g.free, c, a, b);
    }
    assert(sealed(g.free, r));
    assert(blocked(g));
    assert forall|moves: Seq<Placement>| !#[trigger] is_solution(g, pieces, index, moves) by {
        lemma_blocked_unsolvable(g, pieces, index, moves);
    }
    lemma_blocked_unsolvable(g, pieces, index, Seq::empty());
}

/// Whether the shape can be put down with its corner at `(x, y)`: the cells
/// that it would cover are empty.
pub fn can_be_placed(field: &Field, tetromino_variant: &TetrominoVariant, x: u8, y: u8) -> (ok: bool)
    requires
        field.wf(),
        (Placement { shape: tetromino_variant@, x: x as int, y: y as int }).fits(
            field@.width,
            field@.height,
        ),
    ensures
        ok == field@.can_place(tetromino_variant@, x as int, y as int),
{
    let ghost p = Placement { shape: tetromino_variant@, x: x as int, y: y as int };
    proof {
        field.lemma_wf();
        p.lemma_cells(field@.width, field@.height);
    }
    let n = tetromino_variant.blocks.len();
    for i in 0..n
        invariant
            n == 4,
            field.wf(),
            field@.wf(),
            p == (Placement { shape: tetromino_variant@, x: x as int, y: y as int }),
            p.fits(field@.width, field@.height),
            forall|j: int| 0 <= j < 4 ==> in_grid(field@.width, field@.height, #[trigger] p.cell(j)),
            forall|j: int| 0 <= j < i ==> field@.labels[#[trigger] p.cell(j)] == 0,
    {
        let block = tetromino_variant.blocks[i];
        proof {
            assert(in_grid(field@.width, field@.height, p.cell(i as int)));
            assert(p.shape.blocks[i as int].x < p.shape.width);
            assert(p.shape.blocks[i as int].y < p.shape.height);
        }
        if field.cell(x + block.x, y + block.y) > 0 {
            proof {
                assert(field@.labels[p.cell(i as int)] != 0);
            }
            return false;
        }
    }
    true
}

/// Whether the free cells leave room for tetrominoes: no region of free cells
/// has a size that is not divisible by four.
pub fn have_enough_space(field: &Field) -> (ok: bool)
    requires
        field.wf(),
    ensures
        ok == spacious(field@.width, field@.height, field@.free),
{
    let (sizes, regions) = region_sizes(
        field.width() as i32,
        field.height() as i32,
        field.free_cells(),
    );
    proof {
        field.lemma_wf();
        assert(all_in_grid(field@.width, field@.height, field@.free));
        lemma_partition_spacious(field@.width, field@.height, field@.free, regions@);
    }
    let n = sizes.len();
    for i in 0..n
        invariant
            n == sizes@.len(),
            crate::regions::sizes_match(sizes@, regions@),
            forall|j: int| 0 <= j < i ==> (#[trigger] regions@[j]).len() % 4 == 0,
            spacious(field@.width, field@.height, field@.free) <==> forall|j: int|
                0 <= j < regions@.len() ==> (#[trigger] regions@[j]).len() % 4 == 0,
    {
        if sizes[i] % 4 != 0 {
            proof {
                assert(sizes@[i as int] == regions@[i as int].len());
            }
            return false;
        }
        proof {
            assert(sizes@[i as int] == regions@[i as int].len());
        }
    }
    true
}

/// Whether the search has been called off. Without a flag it never is.
fn cancelled(done: Option<&AtomicBool>) -> (stop: bool)
    ensures
        done is None ==> !stop,
{
    match done {
        Some(flag) => flag.load(Ordering::Relaxed),
        None => false,
    }
}

/// Claims the solution: sets the flag if it was not set, and reports whether
/// this call set it. Of all the calls on one flag a single one succeeds.
/// Without a flag the claim always succeeds.
fn claim(done: Option<&AtomicBool>) -> (won: bool)
    ensures
        done is None ==> won,
{
    match done {
        Some(flag) => flag.compare_exchange(false, true, Ordering::SeqCst, Ordering::SeqCst).is_ok(),
        None => true,
    }
}

/// Tries to fill the field with the pieces from position `index` on, and
/// reports whether it did.
///
/// On success the field is full and holds the moves of a solution on top of
/// what it held before. On failure the field is as it was. With a flag, the
/// search gives up as soon as it finds the flag set, and a full grid counts
/// as success only for the one search that sets the flag first. Without a
/// flag the search is exhaustive and always takes the same course: it fails
/// only where no solution exists, the solution that it finds is the one that
/// comes first in the order in which the choices are tried, and the field
/// counts every piece that was put down on the way.
pub fn solve_impl(
    field: &mut Field,
    tetrominoes: &[&Tetromino],
    index: usize,
    done: Option<&AtomicBool>,
) -> (solved: bool)
    requires
        old(field).wf(),
        forall|i: int| 0 <= i < tetrominoes@.len() ==> (#[trigger] tetrominoes@[i]).wf(),
    ensures
        final(field).wf(),
        final(field).spec_operations() >= old(field).spec_operations(),
        solved ==> exists|choices: Seq<Choice>|
            {
                &&& #[trigger] is_solution_by(
                    old(field)@,
                    tetrominoes@.unref(),
                    index as int,
                    choices,
                )
                &&& final(field)@ == after(
                    old(field)@,
                    moves_of(tetrominoes@.unref(), index as int, choices),
                    choices.len() as int,
                )
                &&& done is None ==> is_first(
                    old(field)@,
                    tetrominoes@.unref(),
                    index as int,
                    choices,
                )
            },
        solved ==> final(field)@.is_full() && final(field)@.free =~= Set::<Cell>::empty(),
        !solved ==> final(field)@ == old(field)@,
        done is None ==> solved == solvable(old(field)@, tetrominoes@.unref(), index as int),
        done is None ==> final(field).spec_operations() == counted(
            old(field).spec_operations() + effort(
                old(field)@,
                tetrominoes@.unref(),
                index as int,
                first_choice(),
            ),
        ),
    decreases tetrominoes@.len() - index,
{
    let ghost g0 = field@;
    let ghost pieces = tetrominoes@.unref();
    let ghost at = index as int;
    let ghost exhaustive = done is None;
    let ghost ops0 = field.spec_operations();
    let ghost total = effort(g0, pieces, at, first_choice());
    let ghost mut spent: int = 0;
    proof {
        field.lemma_operations_range();
    }
    if cancelled(done) {
        return false;
    }
    if index >= tetrominoes.len() {
        return false;
    }
    let tetromino = tetrominoes[index];
    let variants = tetromino.variants();
    proof {
        field.lemma_wf();
        assert(pieces[at] == *tetromino);
        assert(tetrominoes@[at].wf());
        assert forall|e: Choice|
            0 <= e.variant && #[trigger] tried_before(
                e,
                Choice { variant: 0, x: 0, y: 0 },
            ) implies !g0.can_place(pieces[at].spec_variants()[e.variant]@, e.x, e.y) by {}
    }
    let count = variants.len();
    for vi in 0..count
        invariant
            count == variants@.len(),
            variants@ == tetromino.spec_variants(),
            tetromino.wf(),
            pieces == tetrominoes@.unref(),
            at == index,
            index < tetrominoes@.len() <= usize::MAX,
            pieces[at] == *tetromino,
            forall|i: int| 0 <= i < tetrominoes@.len() ==> (#[trigger] tetrominoes@[i]).wf(),
            field.wf(),
            field@ == g0,
            g0 == old(field)@,
            g0.wf(),
            field.spec_operations() >= old(field).spec_operations(),
            exhaustive == (done is None),
            exhaustive ==> none_earlier(g0, pieces, at, Choice { variant: vi as int, x: 0, y: 0 }),
            0 <= spent,
            0 <= ops0 <= u64::MAX,
ops0 == old(field).spec_operations(),
            total == effort(g0, pieces, at, first_choice()),
            exhaustive ==> field.spec_operations() == counted(ops0 + spent),
            exhaustive ==> total == spent + effort(
                g0,
                pieces,
                at,
                Choice { variant: vi as int, x: 0, y: 0 },
            ),
    {
        let variant = &variants[vi];
        let ghost shape = variant@;
        proof {
            assert(tetromino.spec_variants()[vi as int].is_tetromino());
        }
        if variant.width <= field.width() && variant.height <= field.height() {
            let rows: u8 = field.height() - variant.height;
            let columns: u8 = field.width() - variant.width;
            let mut y: u8 = 0;
            loop
                invariant_except_break
                    y <= rows,
                    exhaustive ==> none_earlier(
                        g0,
                        pieces,
                        at,
                        Choice { variant: vi as int, x: 0, y: y as int },
                    ),
                    exhaustive ==> total == spent + effort(
                        g0,
                        pieces,
                        at,
                        Choice { variant: vi as int, x: 0, y: y as int },
                    ),
                invariant
                    0 <= spent,
                    0 <= ops0 <= u64::MAX,
ops0 == old(field).spec_operations(),
                    total == effort(g0, pieces, at, first_choice()),
                    exhaustive ==> field.spec_operations() == counted(ops0 + spent),
                    count == variants@.len(),
                    variants@ == tetromino.spec_variants(),
                    vi < count,
                    variant == &variants@[vi as int],
                    shape == variant@,
                    shape.is_tetromino(),
                    tetromino.wf(),
                    pieces == tetrominoes@.unref(),
                    at == index,
                    index < tetrominoes@.len() <= usize::MAX,
                    pieces[at] == *tetromino,
                    forall|i: int| 0 <= i < tetrominoes@.len() ==> (#[trigger] tetrominoes@[i]).wf(),
                    field.wf(),
                    field@ == g0,
                    g0 == old(field)@,
                    g0.wf(),
                    rows == g0.height - shape.height,
                    columns == g0.width - shape.width,
                    field.spec_operations() >= old(field).spec_operations(),
                    exhaustive == (done is None),
                ensures
                    exhaustive ==> none_earlier(
                        g0,
                        pieces,
                        at,
                        Choice { variant: vi as int, x: 0, y: rows + 1 },
                    ),
                    exhaustive ==> total == spent + effort(
                        g0,
                        pieces,
                        at,
                        Choice { variant: vi as int, x: 0, y: rows + 1 },
                    ),
                decreases rows - y,
            {
                let mut x: u8 = 0;
                loop
                    invariant_except_break
                        x <= columns,
                        exhaustive ==> none_earlier(
                            g0,
                            pieces,
                            at,
                            Choice { variant: vi as int, x: x as int, y: y as int },
                        ),
                        exhaustive ==> total == spent + effort(
                            g0,
                            pieces,
                            at,
                            Choice { variant: vi as int, x: x as int, y: y as int },
                        ),
                    invariant
                        0 <= spent,
                        0 <= ops0 <= u64::MAX,
ops0 == old(field).spec_operations(),
                        total == effort(g0, pieces, at, first_choice()),
                        exhaustive ==> field.spec_operations() == counted(ops0 + spent),
                        y <= rows,
                        count == variants@.len(),
                        variants@ == tetromino.spec_variants(),
                        vi < count,
                        variant == &variants@[vi as int],
                        shape == variant@,
                        shape.is_tetromino(),
                        tetromino.wf(),
                        pieces == tetrominoes@.unref(),
                        at == index,
                        index < tetrominoes@.len() <= usize::MAX,
                        pieces[at] == *tetromino,
                        forall|i: int|
                            0 <= i < tetrominoes@.len() ==> (#[trigger] tetrominoes@[i]).wf(),
                        field.wf(),
                        field@ == g0,
                        g0 == old(field)@,
                        g0.wf(),
                        rows == g0.height - shape.height,
                        columns == g0.width - shape.width,
                        field.spec_operations() >= old(field).spec_operations(),
                        exhaustive == (done is None),
                    ensures
                        exhaustive ==> none_earlier(
                            g0,
                            pieces,
                            at,
                            Choice { variant: vi as int, x: columns + 1, y: y as int },
                        ),
                        exhaustive ==> total == spent + effort(
                            g0,
                            pieces,
                            at,
                            Choice { variant: vi as int, x: columns + 1, y: y as int },
                        ),
                    decreases columns - x,
                {
                    if cancelled(done) {
                        return false;
                    }
                    let ghost here = Choice { variant: vi as int, x: x as int, y: y as int };
                    let ghost beside = Choice { variant: vi as int, x: x + 1, y: y as int };
                    proof {
                        assert(placement_of(pieces[at], here).shape == shape);
                        assert(pieces[at].spec_variants()[here.variant]@ == shape);
                    }
                    // if the piece does not intersect with those already placed
                    if can_be_placed(field, variant, x, y) {
                        // then place it
                        field.add(variant, x, y);
                        let ghost g1 = field@;
                        let ghost further = effort(g1, pieces, at + 1, first_choice());
                        proof {
                            g0.lemma_add_remove(shape, x as int, y as int);
                            field.lemma_wf();
                            g1.lemma_full_no_free();
                            field.lemma_operations_range();
                            if exhaustive {
                                assert(field.spec_operations() == counted(ops0 + spent + 1));
                            }
                        }
                        // check whether the field is full
                        if field.is_full() {
                            if claim(done) {
                                // this is the first solution
                                proof {
                                    lemma_first_single(g0, pieces, at, here, exhaustive);
                                    assert(effort(g0, pieces, at, here) == 1);
                                }
                                return true;
                            } else {
                                // a solution was found elsewhere: stop here
                                field.remove(variant, x, y);
                                return false;
                            }
                        }
                        // check whether there is room for the next piece

                        if !have_enough_space(field) {
                            // no room: take the piece back and go on with
                            // the next anchor
                            field.remove(variant, x, y);
                            proof {
                                lemma_pruning_sound(g1, pieces, at + 1);
                                assert(effort(g0, pieces, at, here) == 1 + effort(
                                    g0,
                                    pieces,
                                    at,
                                    beside,
                                ));
                                spent = spent + 1;
                            }
                        } else {
                            if solve_impl(field, tetrominoes, index + 1, done) {
                                proof {
                                    let rest = choose|rest: Seq<Choice>|
                                        {
                                            &&& #[trigger] is_solution_by(g1, pieces, at + 1, rest)
                                            &&& field@ == after(
                                                g1,
                                                moves_of(pieces, at + 1, rest),
                                                rest.len() as int,
                                            )
                                            &&& done is None ==> is_first(g1, pieces, at + 1, rest)
                                        };
                                    lemma_first_cons(g0, pieces, at, here, rest, exhaustive);
                                    assert(is_solution_by(g0, pieces, at, seq![here] + rest));
                                    if exhaustive {
                                        assert(effort(g0, pieces, at, here) == 1 + further);
                                        assert(field.spec_operations() == counted(
                                            ops0 + spent + 1 + further,
                                        ));
                                    }
                                }
                                return true;
                            }
                            proof {
                                if exhaustive {
                                    assert(effort(g0, pieces, at, here) == 1 + further + effort(
                                        g0,
                                        pieces,
                                        at,
                                        beside,
                                    ));
                                    assert(field.spec_operations() == counted(
                                        ops0 + spent + 1 + further,
                                    ));
                                }
                                spent = spent + 1 + further;
                            }
                            // no solution from this anchor: take the piece
                            // back and go on with the next

                            field.remove(variant, x, y);
                        }
                    }
                    proof {
                        if exhaustive {
                            lemma_next_column(g0, pieces, at, here);
                            assert(total == spent + effort(g0, pieces, at, beside));
                        }
                    }
                    if x == columns {
                        break;
                    }
                    x += 1;
                }
                proof {
                    if exhaustive {
                        let past = Choice { variant: vi as int, x: columns + 1, y: y as int };
                        lemma_next_row(g0, pieces, at, past);
                        assert(pieces[at].spec_variants()[past.variant]@ == shape);
                        assert(effort(g0, pieces, at, past) == effort(
                            g0,
                            pieces,
                            at,
                            Choice { variant: vi as int, x: 0, y: y + 1 },
                        ));
                    }
                }
                if y == rows {
                    break;
                }
                y += 1;
            }
            proof {
                if exhaustive {
                    let past = Choice { variant: vi as int, x: 0, y: rows + 1 };
                    lemma_next_variant(g0, pieces, at, past);
                    assert(pieces[at].spec_variants()[past.variant]@ == shape);
                    assert(effort(g0, pieces, at, past) == effort(
                        g0,
                        pieces,
                        at,
                        Choice { variant: vi + 1, x: 0, y: 0 },
                    ));
                }
            }
        } else {
            proof {
                if exhaustive {
                    let past = Choice { variant: vi as int, x: 0, y: 0 };
                    lemma_next_variant(g0, pieces, at, past);
                    assert(pieces[at].spec_variants()[past.variant]@ == shape);
                    assert(effort(g0, pieces, at, past) == effort(
                        g0,
                        pieces,
                        at,
                        Choice { variant: vi + 1, x: 0, y: 0 },
                    ));
                }
            }
        }
    }
    proof {
        if exhaustive {
            lemma_none_left(g0, pieces, at);
            assert(effort(g0, pieces, at, Choice { variant: count as int, x: 0, y: 0 }) == 0);
        }
    }
    false
}

} // verus!
