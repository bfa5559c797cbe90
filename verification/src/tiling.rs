//! The order of the pieces does not matter.
//!
//! A solution that uses every piece of the list puts down pieces that do not
//! overlap, so its moves can be made in any order. A list whose pieces cover
//! exactly the empty cells of the grid can therefore be searched in whatever
//! order: either every order has a solution or none has.

use crate::cells::Cell;
use crate::grid::{Grid, Placement};
use crate::regions::in_grid;
use crate::solver::{after, is_move, is_solution, is_variant_of, lemma_after_wf, solvable};
use crate::tetris::Tetromino;
use vstd::prelude::*;

verus! {

/// Whether the moves could each be made on `g` and no two of them overlap,
/// move `k` being a rotation of piece `k`.
pub open spec fn tiles(g: Grid, pieces: Seq<Tetromino>, moves: Seq<Placement>) -> bool {
    &&& moves.len() == pieces.len()
    &&& forall|k: int|
        0 <= k < moves.len() ==> is_variant_of(pieces[k], (#[trigger] moves[k]).shape) && g.can_place(
            moves[k].shape,
            moves[k].x,
            moves[k].y,
        )
    &&& forall|j: int, k: int|
        0 <= j < k < moves.len() ==> (#[trigger] moves[j]).cells().disjoint(
            (#[trigger] moves[k]).cells(),
        )
}

/// Moves that do not overlap can be made one after the other.
proof fn lemma_tiles_in_turn(g: Grid, pieces: Seq<Tetromino>, moves: Seq<Placement>, n: int)
    requires
        g.wf(),
        tiles(g, pieces, moves),
        0 <= n <= moves.len(),
    ensures
        forall|k: int| 0 <= k < n ==> #[trigger] is_move(g, pieces, 0, moves, k),
        after(g, moves, n).wf(),
        after(g, moves, n).width == g.width,
        after(g, moves, n).height == g.height,
        after(g, moves, n).filled == g.filled + 4 * n,
        forall|k: int|
            n <= k < moves.len() ==> after(g, moves, n).can_place(
                (#[trigger] moves[k]).shape,
                moves[k].x,
                moves[k].y,
            ),
    decreases n,
{
    if n > 0 {
        lemma_tiles_in_turn(g, pieces, moves, n - 1);
        let before = after(g, moves, n - 1);
        let p = moves[n - 1];
        assert(before.can_place(p.shape, p.x, p.y));
        before.lemma_add_wf(p.shape, p.x, p.y);
        let now = after(g, moves, n);
        assert(now == before.add(p.shape, p.x, p.y));
        assert(is_move(g, pieces, 0, moves, n - 1));
        assert forall|k: int| n <= k < moves.len() implies now.can_place(
            (#[trigger] moves[k]).shape,
            moves[k].x,
            moves[k].y,
        ) by {
            let q = moves[k];
            assert(before.can_place(q.shape, q.x, q.y));
            assert(moves[n - 1].cells().disjoint(moves[k].cells()));
            q.lemma_cells(g.width, g.height);
            assert forall|i: int| 0 <= i < 4 implies now.labels[#[trigger] q.cell(i)] == 0 by {
                assert(q.cells().contains(q.cell(i)));
                assert(!p.cells().contains(q.cell(i)));
                assert(before.labels[q.cell(i)] == 0);
            }
        }
    }
}

/// A cell that is empty after moves were made in turn was empty before, and
/// none of the moves covers it.
proof fn lemma_empty_after(
    g: Grid,
    pieces: Seq<Tetromino>,
    moves: Seq<Placement>,
    n: int,
    c: Cell,
)
    requires
        g.wf(),
        0 <= n <= moves.len(),
        forall|k: int| 0 <= k < n ==> #[trigger] is_move(g, pieces, 0, moves, k),
        in_grid(g.width, g.height, c),
        after(g, moves, n).labels[c] == 0,
    ensures
        g.labels[c] == 0,
        forall|k: int| 0 <= k < n ==> !(#[trigger] moves[k]).covers(c),
    decreases n,
{
    if n > 0 {
        lemma_after_wf(g, pieces, 0, moves, n - 1);
        let before = after(g, moves, n - 1);
        let p = moves[n - 1];
        assert(is_move(g, pieces, 0, moves, n - 1));
        assert(!p.covers(c));
        assert(before.labels[c] == 0);
        lemma_empty_after(g, pieces, moves, n - 1, c);
    }
}

/// Moves that were made in turn do not overlap, and each could have been made
/// first.
proof fn lemma_in_turn_tiles(g: Grid, pieces: Seq<Tetromino>, moves: Seq<Placement>)
    requires
        g.wf(),
        moves.len() == pieces.len(),
        forall|k: int| 0 <= k < moves.len() ==> #[trigger] is_move(g, pieces, 0, moves, k),
    ensures
        tiles(g, pieces, moves),
{
    assert forall|k: int| 0 <= k < moves.len() implies is_variant_of(
        pieces[k],
        (#[trigger] moves[k]).shape,
    ) && g.can_place(moves[k].shape, moves[k].x, moves[k].y) by {
        let q = moves[k];
        assert(is_move(g, pieces, 0, moves, k));
        lemma_after_wf(g, pieces, 0, moves, k);
        q.lemma_cells(g.width, g.height);
        assert forall|i: int| 0 <= i < 4 implies g.labels[#[trigger] q.cell(i)] == 0 by {
            lemma_empty_after(g, pieces, moves, k, q.cell(i));
        }
    }
    assert forall|j: int, k: int| 0 <= j < k < moves.len() implies (#[trigger] moves[j]).cells().disjoint(
        (#[trigger] moves[k]).cells(),
    ) by {
        let q = moves[k];
        assert(is_move(g, pieces, 0, moves, k));
        lemma_after_wf(g, pieces, 0, moves, k);
        q.lemma_cells(g.width, g.height);
        assert forall|c: Cell| q.cells().contains(c) implies !moves[j].cells().contains(c) by {
            let i = choose|i: int| 0 <= i < 4 && #[trigger] q.cell(i) == c;
            lemma_empty_after(g, pieces, moves, k, q.cell(i));
        }
    }
}

/// Moves that do not overlap can be matched to the pieces in any other order.
proof fn lemma_tiles_reordered(
    g: Grid,
    first: Seq<&Tetromino>,
    moves: Seq<Placement>,
    second: Seq<&Tetromino>,
) -> (matched: Seq<Placement>)
    requires
        tiles(g, first.unref(), moves),
        first.to_multiset() == second.to_multiset(),
    ensures
        tiles(g, second.unref(), matched),
        forall|k: int|
            0 <= k < matched.len() ==> exists|i: int|
                0 <= i < moves.len() && moves[i] == #[trigger] matched[k],
    decreases second.len(),
{
    first.to_multiset_ensures();
    second.to_multiset_ensures();
    if second.len() == 0 {
        Seq::empty()
    } else {
        let t = second[0];
        assert(second.contains(t));
        assert(second.to_multiset().count(t) > 0);
        assert(first.to_multiset().count(t) > 0);
        assert(first.contains(t));
        let j = choose|j: int| 0 <= j < first.len() && first[j] == t;
        let first_rest = first.remove(j);
        let moves_rest = moves.remove(j);
        let second_rest = second.remove(0);
        assert(first_rest.to_multiset() == second_rest.to_multiset());
        assert(first_rest.unref() =~= first.unref().remove(j));
        assert(tiles(g, first_rest.unref(), moves_rest)) by {
            assert forall|k: int| 0 <= k < moves_rest.len() implies is_variant_of(
                first_rest.unref()[k],
                (#[trigger] moves_rest[k]).shape,
            ) && g.can_place(moves_rest[k].shape, moves_rest[k].x, moves_rest[k].y) by {
                let from = if k < j { k } else { k + 1 };
                assert(moves_rest[k] == moves[from]);
                assert(first_rest.unref()[k] == first.unref()[from]);
            }
            assert forall|a: int, b: int| 0 <= a < b < moves_rest.len() implies (
            #[trigger] moves_rest[a]).cells().disjoint((#[trigger] moves_rest[b]).cells()) by {
                let from_a = if a < j { a } else { a + 1 };
                let from_b = if b < j { b } else { b + 1 };
                assert(moves_rest[a] == moves[from_a]);
                assert(moves_rest[b] == moves[from_b]);
                assert(moves[from_a].cells().disjoint(moves[from_b].cells()));
            }
        }
        let matched_rest = lemma_tiles_reordered(g, first_rest, moves_rest, second_rest);
        let matched = seq![moves[j]] + matched_rest;
        assert(second.unref().len() == matched.len());
        assert forall|k: int| 0 <= k < matched.len() implies exists|i: int|
            0 <= i < moves.len() && moves[i] == #[trigger] matched[k] by {
            if k == 0 {
                assert(moves[j] == matched[0]);
            } else {
                assert(matched[k] == matched_rest[k - 1]);
                let i = choose|i: int| 0 <= i < moves_rest.len() && moves_rest[i] == matched_rest[k - 1];
                let from = if i < j { i } else { i + 1 };
                assert(moves[from] == matched[k]);
            }
        }
        assert forall|k: int| 0 <= k < matched.len() implies is_variant_of(
            second.unref()[k],
            (#[trigger] matched[k]).shape,
        ) && g.can_place(matched[k].shape, matched[k].x, matched[k].y) by {
            if k == 0 {
                assert(second.unref()[0] == first.unref()[j]);
                assert(matched[0] == moves[j]);
            } else {
                assert(matched[k] == matched_rest[k - 1]);
                assert(second.unref()[k] == second_rest.unref()[k - 1]);
            }
        }
        assert forall|a: int, b: int| 0 <= a < b < matched.len() implies (#[trigger] matched[a]).cells().disjoint(
            (#[trigger] matched[b]).cells(),
        ) by {
            assert(matched[b] == matched_rest[b - 1]);
            if a == 0 {
                let i = choose|i: int| 0 <= i < moves_rest.len() && moves_rest[i] == matched_rest[b - 1];
                let from = if i < j { i } else { i + 1 };
                assert(moves_rest[i] == moves[from]);
                if from < j {
                    assert(moves[from].cells().disjoint(moves[j].cells()));
                } else {
                    assert(moves[j].cells().disjoint(moves[from].cells()));
                }
            } else {
                assert(matched[a] == matched_rest[a - 1]);
                assert(matched_rest[a - 1].cells().disjoint(matched_rest[b - 1].cells()));
            }
        }
        matched
    }
}

/// A solution for the pieces in one order yields a solution for them in any
/// other order, where the pieces cover exactly the cells that are empty.
proof fn lemma_solvable_reordered(g: Grid, first: Seq<&Tetromino>, second: Seq<&Tetromino>)
    requires
        g.wf(),
        first.to_multiset() == second.to_multiset(),
        g.filled + 4 * first.len() == g.width * g.height,
        solvable(g, first.unref(), 0),
    ensures
        solvable(g, second.unref(), 0),
{
    first.to_multiset_ensures();
    second.to_multiset_ensures();
    let pieces = first.unref();
    let moves = choose|moves: Seq<Placement>| #[trigger] is_solution(g, pieces, 0, moves);
    let n = moves.len() as int;
    lemma_after_wf(g, pieces, 0, moves, n);
    let full = after(g, moves, n);
    assert(full.placed.len() == g.placed.len() + n) by {
        assert(moves.take(n) =~= moves);
    }
    assert(n == pieces.len()) by {
        assert(full.filled == 4 * (g.placed.len() + n));
        assert(g.filled == 4 * g.placed.len());
    }
    lemma_in_turn_tiles(g, pieces, moves);
    let matched = lemma_tiles_reordered(g, first, moves, second);
    lemma_tiles_in_turn(g, second.unref(), matched, n);
    assert(is_solution(g, second.unref(), 0, matched));
}

/// Where the pieces cover exactly the cells that are empty, a grid can be
/// filled with them in one order exactly if it can be filled with them in any
/// other.
pub proof fn lemma_order_irrelevant(g: Grid, first: Seq<&Tetromino>, second: Seq<&Tetromino>)
    requires
        g.wf(),
        first.to_multiset() == second.to_multiset(),
        g.filled + 4 * first.len() == g.width * g.height,
    ensures
        solvable(g, first.unref(), 0) == solvable(g, second.unref(), 0),
{
    first.to_multiset_ensures();
    second.to_multiset_ensures();
    if solvable(g, first.unref(), 0) {
        lemma_solvable_reordered(g, first, second);
    }
    if solvable(g, second.unref(), 0) {
        lemma_solvable_reordered(g, second, first);
    }
}

} // verus!
