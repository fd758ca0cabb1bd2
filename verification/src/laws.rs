//! What holds of the solver as a whole, stated over the model of the board.

use vstd::prelude::*;
use crate::board::{lemma_complete, lemma_place, lemma_saturated, Board};
use crate::construct::{clash_at, clean_before, constructed, fault_at, givens, ConstructError};
use crate::grid::{is_cell, is_solution, peers};
use crate::line::{text_read, values_of};
use crate::mask::is_digit;
use crate::propagate::propagation;
use crate::search::searched;
use crate::sudoku::Sudoku;

verus! {

/// The board after a sequence of placements, each a cell and a digit.
pub open spec fn fill(b: Board, moves: Seq<(int, int)>) -> Board
    decreases moves.len(),
{
    if moves.len() == 0 {
        b
    } else {
        fill(b.place(moves[0].0, moves[0].1), moves.drop_first())
    }
}

/// Every placement of the sequence puts, into a cell of the grid, a digit that
/// is an option of that cell when its turn comes.
pub open spec fn legal(b: Board, moves: Seq<(int, int)>) -> bool
    decreases moves.len(),
{
    moves.len() == 0 || {
        &&& is_cell(moves[0].0)
        &&& b.options[moves[0].0].contains(moves[0].1)
        &&& legal(b.place(moves[0].0, moves[0].1), moves.drop_first())
    }
}

/// On a well-formed board two peers that are both filled hold different
/// digits.
pub proof fn lemma_peers_differ(b: Board, i: int, j: int)
    requires
        b.wf(),
        is_cell(i),
        is_cell(j),
        peers(i, j),
        b.digits[i] != 0,
        b.digits[j] != 0,
    ensures
        b.digits[i] != b.digits[j],
{
}

/// After a digit is placed, two peers that are both filled still hold
/// different digits.
pub proof fn lemma_commit_keeps_peers_apart(b: Board, cell: int, d: int, i: int, j: int)
    requires
        b.wf(),
        is_cell(cell),
        b.options[cell].contains(d),
        is_cell(i),
        is_cell(j),
        peers(i, j),
        b.place(cell, d).digits[i] != 0,
        b.place(cell, d).digits[j] != 0,
    ensures
        b.place(cell, d).digits[i] != b.place(cell, d).digits[j],
{
    lemma_place(b, cell, d);
    lemma_peers_differ(b.place(cell, d), i, j);
}

/// Propagating a second time changes nothing: when a first run from `a` ended
/// in `b` without a contradiction, a run from `b` ends in `b` again.
pub proof fn lemma_propagation_idempotent(a: Board, b: Board, c: Board, first: bool, second: bool)
    requires
        propagation(a, b, first),
        first,
        propagation(b, c, second),
    ensures
        second,
        c == b,
{
}

/// A puzzle with exactly one solution is solved, and the board then holds that
/// solution.
pub proof fn lemma_unique_solution_found(before: Board, after: Board, found: bool, g: Seq<int>)
    requires
        searched(before, after, found),
        before.admits(g),
        forall|h: Seq<int>| before.admits(h) ==> h == g,
    ensures
        found,
        after.digits == g,
{
}

/// A search that fails leaves no solution out: no solution keeps the digits
/// of a saturated board on which the search failed.
pub proof fn lemma_failure_is_final(before: Board, after: Board, g: Seq<int>)
    requires
        before.wf(),
        before.saturated(),
        searched(before, after, false),
    ensures
        !before.completed_by(g),
{
    lemma_saturated(before, g);
}

/// Legal placements keep a board well formed, and every solution that the
/// board admits after them it admitted before.
pub proof fn lemma_fill(b: Board, moves: Seq<(int, int)>)
    requires
        b.wf(),
        legal(b, moves),
    ensures
        fill(b, moves).wf(),
        forall|g: Seq<int>| fill(b, moves).admits(g) ==> b.admits(g),
    decreases moves.len(),
{
    if moves.len() > 0 {
        let next = b.place(moves[0].0, moves[0].1);
        lemma_place(b, moves[0].0, moves[0].1);
        lemma_fill(next, moves.drop_first());
        assert forall|g: Seq<int>| fill(b, moves).admits(g) implies b.admits(g) by {
            assert(next.admits(g));
        }
    }
}

/// When the search fails, no sequence of legal placements completes the
/// board.
pub proof fn lemma_failure_leaves_no_completion(
    before: Board,
    after: Board,
    moves: Seq<(int, int)>,
)
    requires
        before.wf(),
        searched(before, after, false),
        legal(before, moves),
    ensures
        !fill(before, moves).complete(),
{
    lemma_fill(before, moves);
    if fill(before, moves).complete() {
        lemma_complete(fill(before, moves));
        assert(before.admits(fill(before, moves).digits));
    }
}

/// A grid that is a solution is built without a fault, and the board then
/// holds exactly that grid.
pub proof fn lemma_round_trip(s: Seq<u8>, r: Result<Sudoku, ConstructError>)
    requires
        s.len() == 81,
        is_solution(givens(s)),
        constructed(s, r),
    ensures
        r is Ok,
        r->Ok_0@.digits == givens(s),
        r->Ok_0@.complete(),
{
    let x = givens(s);
    assert forall|i: int| 0 <= i < 81 implies !#[trigger] fault_at(s, i) by {
        assert(is_cell(i));
        assert(is_digit(x[i]));
        if clash_at(s, i) {
            let j = choose|j: int| 0 <= j < i && #[trigger] peers(i, j) && s[j] == s[i];
            assert(is_cell(j));
            assert(x[i] != x[j]);
        }
    }
    match r {
        Ok(b) => {
            assert forall|i: int| is_cell(i) implies #[trigger] b@.digits[i] != 0 by {
                assert(is_digit(x[i]));
            }
        },
        Err(ConstructError::WrongLength) => {},
        Err(ConstructError::IllegalDigit { at }) => {
            assert(!fault_at(s, at as int));
        },
        Err(ConstructError::Contradiction { at }) => {
            assert(!fault_at(s, at as int));
        },
    }
}

/// The text of a grid that is a solution, with or without one more byte
/// after its 81 characters, is read without a fault, and the board then holds
/// exactly that grid.
pub proof fn lemma_text_round_trip(text: Seq<u8>, r: Result<Sudoku, ConstructError>)
    requires
        text.len() == 81 || text.len() == 82,
        is_solution(givens(values_of(text))),
        text_read(text, r),
    ensures
        r is Ok,
        r->Ok_0@.digits == givens(values_of(text)),
        r->Ok_0@.complete(),
{
    lemma_round_trip(values_of(text), r);
}

} // verus!
