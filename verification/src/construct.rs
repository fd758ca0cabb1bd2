//! Building a board from 81 given digits.

use vstd::prelude::*;
use crate::board::{initial, lemma_initial, lemma_place, lemma_place_saturated};
use crate::grid::{is_cell, peers};
use crate::mask::{
    bit, holds, is_digit, lemma_digit_of_mask, lemma_holds_ops, lemma_holds_single,
    lemma_mask_of_digit,
};
use crate::sudoku::Sudoku;

verus! {

/// Why no board was built.
#[derive(Clone, Copy, Debug, PartialEq, Eq, Structural)]
pub enum ConstructError {
    /// The input does not have one value for each of the 81 cells.
    WrongLength,
    /// The value at this place is no digit; nothing before it was at fault.
    IllegalDigit { at: usize },
    /// The digit at this place already stands in a peer before it; nothing
    /// before it was at fault.
    Contradiction { at: usize },
}

/// The value at place `i` is a digit that an earlier peer holds too.
pub open spec fn clash_at(s: Seq<u8>, i: int) -> bool {
    s[i] != 0 && exists|j: int| 0 <= j < i && #[trigger] peers(i, j) && s[j] == s[i]
}

/// The value at place `i` is no digit, or clashes with an earlier peer.
pub open spec fn fault_at(s: Seq<u8>, i: int) -> bool {
    s[i] > 9 || clash_at(s, i)
}

/// None of the first `n` values is at fault.
pub open spec fn clean_before(s: Seq<u8>, n: int) -> bool {
    forall|i: int| 0 <= i < n ==> !#[trigger] fault_at(s, i)
}

/// The given values as the digits of a board.
pub open spec fn givens(s: Seq<u8>) -> Seq<int> {
    Seq::new(81, |i: int| s[i] as int)
}

/// What building a board from the values `s` yields: the board that holds
/// them, with every candidate that they leave, or the first fault.
pub open spec fn constructed(s: Seq<u8>, r: Result<Sudoku, ConstructError>) -> bool {
    match r {
        Ok(b) => {
            &&& s.len() == 81
            &&& clean_before(s, 81)
            &&& b.wf()
            &&& b@.saturated()
            &&& b@.digits =~= givens(s)
            &&& b@ == initial(givens(s))
        },
        Err(ConstructError::WrongLength) => s.len() != 81,
        Err(ConstructError::IllegalDigit { at }) => {
            &&& s.len() == 81
            &&& at < 81
            &&& clean_before(s, at as int)
            &&& s[at as int] > 9
        },
        Err(ConstructError::Contradiction { at }) => {
            &&& s.len() == 81
            &&& at < 81
            &&& clean_before(s, at as int)
            &&& s[at as int] <= 9
            &&& clash_at(s, at as int)
        },
    }
}

/// Building is a function: the values decide the board or the fault.
pub proof fn lemma_constructed_unique(
    s: Seq<u8>,
    r1: Result<Sudoku, ConstructError>,
    r2: Result<Sudoku, ConstructError>,
)
    requires
        constructed(s, r1),
        constructed(s, r2),
    ensures
        r1 == r2,
{
    match (r1, r2) {
        (Ok(b1), Ok(b2)) => {
            b1.lemma_same_view(&b2);
        },
        (Ok(_), Err(e)) => {
            lemma_fault_place(s, e);
        },
        (Err(e), Ok(_)) => {
            lemma_fault_place(s, e);
        },
        (Err(e1), Err(e2)) => {
            lemma_fault_place(s, e1);
            lemma_fault_place(s, e2);
        },
    }
}

proof fn lemma_fault_place(s: Seq<u8>, e: ConstructError)
    requires
        constructed(s, Err(e)),
    ensures
        match e {
            ConstructError::WrongLength => s.len() != 81,
            ConstructError::IllegalDigit { at } => s.len() == 81 && at < 81 && fault_at(
                s,
                at as int,
            ) && clean_before(s, at as int) && s[at as int] > 9,
            ConstructError::Contradiction { at } => s.len() == 81 && at < 81 && fault_at(
                s,
                at as int,
            ) && clean_before(s, at as int) && s[at as int] <= 9,
        },
{
}

impl Sudoku {
    /// Builds the board that holds the given values, 0 for an empty cell and 1
    /// to 9 for a digit, cell by cell in row order. Each digit is placed as by
    /// [`Sudoku::put`], so it leaves the notes of its peers.
    pub fn from_digits(digits: &[u8]) -> (r: Result<Sudoku, ConstructError>)
        ensures
            constructed(digits@, r),
    {
        if digits.len() != 81 {
            return Err(ConstructError::WrongLength);
        }
        let ghost s = digits@;
        let mut board = Sudoku::new();
        let mut i: usize = 0;
        while i < 81
            invariant
                i <= 81,
                s == digits@,
                s.len() == 81,
                board.wf(),
                board@.saturated(),
                clean_before(s, i as int),
                forall|j: int| 0 <= j < i ==> #[trigger] board@.digits[j] == s[j],
                forall|j: int| i <= j < 81 ==> #[trigger] board@.digits[j] == 0,
            decreases 81 - i,
        {
            let digit = digits[i];
            if digit > 9 {
                return Err(ConstructError::IllegalDigit { at: i });
            }
            if digit > 0 {
                let candidate = bit(digit);
                let ghost d = digit as int;
                let ghost now = board;
                proof {
                    lemma_mask_of_digit(d);
                    lemma_holds_single(candidate);
                    lemma_holds_ops(board.candidates()[i as int], candidate);
                    assert(is_cell(i as int));
                    assert(now@.options[i as int].contains(d) <==> holds(
                        board.candidates()[i as int],
                        d,
                    ));
                }
                if board.notes()[i] & candidate == 0 {
                    proof {
                        assert(!now@.options[i as int].contains(d));
                        let j = choose|j: int|
                            is_cell(j) && #[trigger] peers(i as int, j) && now@.digits[j] == d;
                        assert(peers(i as int, j) && s[j] == s[i as int]);
                    }
                    return Err(ConstructError::Contradiction { at: i });
                }
                proof {
                    assert(now@.options[i as int].contains(d));
                    lemma_place(now@, i as int, d);
                    lemma_place_saturated(now@, i as int, d);
                    assert(!clash_at(s, i as int)) by {
                        assert forall|j: int| 0 <= j < i && peers(i as int, j) implies s[j]
                            != s[i as int] by {
                            assert(is_cell(j));
                            assert(now@.digits[j] == s[j]);
                        }
                    }
                }
                board.put(i, candidate);
            }
            i += 1;
        }
        proof {
            lemma_initial(board@);
            assert(board@.digits =~= givens(s));
        }
        Ok(board)
    }

    /// The digit in each cell, row by row; 0 for a cell that is empty.
    pub fn read_digits(&self) -> (r: Vec<u8>)
        ensures
            r@.len() == 81,
            forall|i: int| is_cell(i) ==> #[trigger] r@[i] == self@.digits[i],
    {
        let mut out: Vec<u8> = Vec::new();
        let mut i: usize = 0;
        while i < 81
            invariant
                i <= 81,
                out@.len() == i,
                forall|j: int| 0 <= j < i ==> #[trigger] out@[j] == self@.digits[j],
            decreases 81 - i,
        {
            let d = crate::mask::digit(self.field()[i]);
            out.push(d);
            i += 1;
        }
        out
    }
}

} // verus!
