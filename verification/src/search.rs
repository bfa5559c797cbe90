//! One worker of a parallel search.
//!
//! Several workers may race for the first solution of one puzzle. Each of
//! them fills a field of its own with the pieces in an order of its own, drawn
//! at random, so that the workers explore different parts of the search
//! space. They share a flag: the worker that fills its field first sets it,
//! and the others give up when they find it set. Which tiling wins therefore
//! differs from run to run; every tiling that is handed out is a valid one.

use crate::field::Field;
use crate::solver::{
    after, counted, effort, first_choice, is_solution_by, moves_of, solvable, solve_impl, Choice,
};
use crate::tetris::Tetromino;
use crate::tiling::lemma_order_irrelevant;
use rand::seq::SliceRandom;
use std::sync::atomic::AtomicBool;
use vstd::prelude::*;

verus! {

/// `SliceRandom::shuffle` of the crate `rand`, with the random number
/// generator of the calling thread: reorders the list in place by a series of
/// swaps, so that it holds the same pieces as before, each as often as
/// before, in an order that depends on chance.
#[verifier::external_body]
fn shuffle<'a>(pieces: &mut Vec<&'a Tetromino>)
    ensures
        final(pieces)@.to_multiset() == old(pieces)@.to_multiset(),
{
    pieces.shuffle(&mut rand::rng());
}

/// Whether `order` holds the pieces of `pieces`, each as often.
pub open spec fn is_reordering(order: Seq<&Tetromino>, pieces: Seq<&Tetromino>) -> bool {
    order.to_multiset() == pieces.to_multiset()
}

/// A reordering of well-formed pieces consists of well-formed pieces.
proof fn lemma_reordering_wf(order: Seq<&Tetromino>, pieces: Seq<&Tetromino>)
    requires
        is_reordering(order, pieces),
        forall|i: int| 0 <= i < pieces.len() ==> (#[trigger] pieces[i]).wf(),
    ensures
        forall|i: int| 0 <= i < order.len() ==> (#[trigger] order[i]).wf(),
{
    order.to_multiset_ensures();
    pieces.to_multiset_ensures();
    assert forall|i: int| 0 <= i < order.len() implies (#[trigger] order[i]).wf() by {
        let t = order[i];
        assert(order.contains(t));
        assert(order.to_multiset().count(t) > 0);
        assert(pieces.contains(t));
        let j = choose|j: int| 0 <= j < pieces.len() && pieces[j] == t;
        assert(pieces[j].wf());
    }
}

/// Runs one worker: takes a copy of the field and a copy of the pieces in
/// random order, and searches for a tiling.
///
/// A field that is handed back is full, and holds a solution for the pieces
/// in the order that was drawn, on top of what the field held at the start.
/// With a flag, the worker hands back a field only if it was the one to set
/// the flag, and may give up without a result. Without a flag it gives up
/// only where the pieces in the order drawn cannot fill the grid; where the
/// pieces cover as many cells as are empty at the start, that is where they
/// cannot fill it in any order.
pub fn run_worker(start: &Field, tetrominoes: &Vec<&Tetromino>, done: Option<&AtomicBool>) -> (found:
    Option<Field>)
    requires
        start.wf(),
        forall|i: int| 0 <= i < tetrominoes@.len() ==> (#[trigger] tetrominoes@[i]).wf(),
    ensures
        exists|order: Seq<&Tetromino>|
            {
                &&& #[trigger] is_reordering(order, tetrominoes@)
                &&& match found {
                    Some(field) => {
                        &&& field.wf()
                        &&& field@.is_full()
                        &&& exists|choices: Seq<Choice>|
                            #[trigger] is_solution_by(start@, order.unref(), 0, choices) && field@
                                == after(
                                start@,
                                moves_of(order.unref(), 0, choices),
                                choices.len() as int,
                            )
                        &&& done is None ==> field.spec_operations() == counted(
                            start.spec_operations() + effort(
                                start@,
                                order.unref(),
                                0,
                                first_choice(),
                            ),
                        )
                    },
                    None => done is None ==> !solvable(start@, order.unref(), 0),
                }
            },
        done is None && start@.filled + 4 * tetrominoes@.len() == start@.width * start@.height ==> (
        found is Some <==> solvable(start@, tetrominoes@.unref(), 0)),
{
    let mut field = start.clone();
    let mut order: Vec<&Tetromino> = Vec::new();
    let n = tetrominoes.len();
    for i in 0..n
        invariant
            n == tetrominoes@.len(),
            order@ == tetrominoes@.take(i as int),
    {
        order.push(tetrominoes[i]);
        proof {
            assert(tetrominoes@.take(i + 1) =~= tetrominoes@.take(i as int).push(tetrominoes@[i as int]));
        }
    }
    proof {
        assert(tetrominoes@.take(n as int) =~= tetrominoes@);
    }
    shuffle(&mut order);
    proof {
        lemma_reordering_wf(order@, tetrominoes@);
    }
    let solved = solve_impl(&mut field, order.as_slice(), 0, done);
    proof {
        assert(is_reordering(order@, tetrominoes@));
        if start@.filled + 4 * tetrominoes@.len() == start@.width * start@.height {
            start.lemma_wf();
            order@.to_multiset_ensures();
            tetrominoes@.to_multiset_ensures();
            lemma_order_irrelevant(start@, order@, tetrominoes@);
        }
    }
    if solved {
        Some(field)
    } else {
        None
    }
}

} // verus!
