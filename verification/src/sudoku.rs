//! The board as the solver holds it: two arrays of digit masks, and the one
//! primitive that changes them.

use vstd::prelude::*;
use crate::board::{lemma_place, Board};
use crate::grid::{
    box_of, box_origin, box_slot, col_of, is_cell, lemma_box_slot, lemma_box_walk, peers, row_of,
    same_unit,
};
use crate::mask::{
    digit_of, digits_in, holds, is_digit, is_digit_mask, is_mask, lemma_digit_of_mask,
    lemma_holds_ends, lemma_holds_ops, lemma_holds_single, lemma_mask_extensional, FULL,
};

verus! {

proof fn lemma_and_twice(x: i32, m: i32)
    by (bit_vector)
    ensures
        (x & m) & m == x & m,
{
}

/// Removes the digits of `candidate` from the notes of every cell that shares
/// a row, a column or a box with cell `index`, that cell included.
pub fn remove_adjacent(notes: &mut [i32; 81], index: usize, candidate: i32)
    requires
        index < 81,
    ensures
        forall|j: int|
            is_cell(j) ==> #[trigger] final(notes)@[j] == if same_unit(index as int, j) {
                old(notes)@[j] & !candidate
            } else {
                old(notes)@[j]
            },
{
    let row = (index / 9) * 9;
    let col = index % 9;
    let square = (index / 27) * 27 + (col / 3) * 3;
    let mask = !candidate;
    let ghost before = notes@;
    let ghost at = index as int;

    let mut i: usize = 0;
    while i < 9
        invariant
            i <= 9,
            at == index,
            index < 81,
            row == (index / 9) * 9,
            col == index % 9,
            mask == !candidate,
            before.len() == 81,
            forall|j: int|
                is_cell(j) ==> #[trigger] notes@[j] == if (row_of(j) == row_of(at) && j - row < i)
                    || (col_of(j) == col_of(at) && j / 9 < i) {
                    before[j] & mask
                } else {
                    before[j]
                },
        decreases 9 - i,
    {
        proof {
            lemma_and_twice(before[row + i], mask);
            lemma_and_twice(before[col + i * 9], mask);
        }
        notes[row + i] &= mask;
        notes[col + i * 9] &= mask;
        i += 1;
    }

    let mut k: usize = 0;
    while k < 9
        invariant
            k <= 9,
            at == index,
            index < 81,
            square == box_origin(at),
            mask == !candidate,
            before.len() == 81,
            forall|j: int|
                is_cell(j) ==> #[trigger] notes@[j] == if row_of(j) == row_of(at) || col_of(j)
                    == col_of(at) || (box_of(j) == box_of(at) && box_slot(j) < k) {
                    before[j] & mask
                } else {
                    before[j]
                },
        decreases 9 - k,
    {
        let offset = (k / 3) * 9 + k % 3;
        let ghost c = square + offset;
        proof {
            lemma_box_slot(at, k as int);
            lemma_and_twice(before[c], mask);
            assert forall|j: int| is_cell(j) && box_of(j) == box_of(at) && box_slot(j) == k implies j
                == c by {
                lemma_box_walk(at, j);
            }
        }
        notes[square + offset] &= mask;
        k += 1;
    }
}

/// A 9x9 board: what is written in each cell, and what may still be written
/// there.
pub struct Sudoku {
    /// The cells row by row. A cell holds the one-bit mask of its digit, or 0
    /// while it is empty.
    field: [i32; 81],
    /// The notes of each cell, in the same order: bit `d - 1` is set while the
    /// digit `d` may still be written there.
    notes: [i32; 81],
}

impl Clone for Sudoku {
    fn clone(&self) -> (r: Self)
        ensures
            r == *self,
    {
        Sudoku { field: self.field, notes: self.notes }
    }
}

impl View for Sudoku {
    type V = Board;

    open spec fn view(&self) -> Board {
        Board {
            digits: Seq::new(81, |i: int| digit_of(self.committed()[i])),
            options: Seq::new(81, |i: int| digits_in(self.candidates()[i])),
        }
    }
}

impl Sudoku {
    /// The masks of the placed digits, cell by cell.
    pub closed spec fn committed(&self) -> Seq<i32> {
        self.field@
    }

    /// The masks of the remaining candidates, cell by cell.
    pub closed spec fn candidates(&self) -> Seq<i32> {
        self.notes@
    }

    /// The invariant of the representation: every cell holds 0 or a one-bit
    /// mask, every note uses the nine digit bits only, and the board that they
    /// stand for is well formed.
    pub open spec fn wf(&self) -> bool {
        &&& self.committed().len() == 81
        &&& self.candidates().len() == 81
        &&& forall|i: int|
            is_cell(i) ==> #[trigger] self.committed()[i] == 0 || is_digit_mask(
                self.committed()[i],
            )
        &&& forall|i: int| is_cell(i) ==> is_mask(#[trigger] self.candidates()[i])
        &&& self@.wf()
    }

    /// Two boards with the same masks are the same board.
    pub proof fn lemma_equal(&self, other: &Sudoku)
        requires
            self.committed() =~= other.committed(),
            self.candidates() =~= other.candidates(),
        ensures
            *self == *other,
    {
        assert(self.field@ =~= other.field@);
        assert(self.notes@ =~= other.notes@);
        assert(self.field == other.field);
        assert(self.notes == other.notes);
    }

    /// Two well-formed boards that stand for the same model are the same
    /// board.
    pub proof fn lemma_same_view(&self, other: &Sudoku)
        requires
            self.wf(),
            other.wf(),
            self@ == other@,
        ensures
            *self == *other,
    {
        assert forall|i: int| 0 <= i < 81 implies self.committed()[i] == other.committed()[i]
            && self.candidates()[i] == other.candidates()[i] by {
            assert(is_cell(i));
            let a = self.committed()[i];
            let b = other.committed()[i];
            assert(digit_of(a) == self@.digits[i]);
            assert(digit_of(b) == other@.digits[i]);
            if a != 0 {
                lemma_digit_of_mask(a);
            }
            if b != 0 {
                lemma_digit_of_mask(b);
            }
            let m = self.candidates()[i];
            let n = other.candidates()[i];
            assert forall|d: int| is_digit(d) implies (#[trigger] holds(m, d) <==> holds(n, d)) by {
                assert(self@.options[i].contains(d) <==> holds(m, d));
                assert(other@.options[i].contains(d) <==> holds(n, d));
            }
            lemma_mask_extensional(m, n);
        }
        self.lemma_equal(other);
    }

    /// The empty board: no cell is filled and every digit is a candidate
    /// everywhere.
    pub fn new() -> (r: Self)
        ensures
            r.wf(),
            r@.saturated(),
            forall|i: int| is_cell(i) ==> #[trigger] r@.digits[i] == 0,
            forall|i: int, d: int|
                is_cell(i) && is_digit(d) ==> #[trigger] r@.options[i].contains(d),
    {
        let r = Self::from_arrays([0;81], [FULL;81]);
        proof {
            lemma_holds_ends();
        }
        r
    }

    /// The board that holds the two arrays as they are.
    pub(crate) fn from_arrays(field: [i32; 81], notes: [i32; 81]) -> (r: Self)
        ensures
            r.committed() == field@,
            r.candidates() == notes@,
            r.committed().len() == 81,
            r.candidates().len() == 81,
    {
        Self { field, notes }
    }

    fn remove_adjacent(&mut self, field: usize, candidate: i32)
        requires
            field < 81,
        ensures
            final(self).committed() == old(self).committed(),
            final(self).candidates().len() == 81,
            forall|j: int|
                is_cell(j) ==> #[trigger] final(self).candidates()[j] == if same_unit(
                    field as int,
                    j,
                ) {
                    old(self).candidates()[j] & !candidate
                } else {
                    old(self).candidates()[j]
                },
    {
        remove_adjacent(&mut self.notes, field, candidate);
    }

    /// Writes the digit of the one-bit mask `candidate` into cell `field`,
    /// clears the notes of that cell and strikes the digit from the notes of
    /// all its peers.
    pub fn put(&mut self, field: usize, candidate: i32)
        requires
            old(self).wf(),
            field < 81,
            is_digit_mask(candidate),
            old(self)@.options[field as int].contains(digit_of(candidate)),
        ensures
            final(self).wf(),
            final(self)@ == old(self)@.place(field as int, digit_of(candidate)),
            final(self).committed() == old(self).committed().update(field as int, candidate),
    {
        let ghost before = *self;
        let ghost d = digit_of(candidate);
        self.field[field] = candidate;
        self.notes[field] = 0;
        self.remove_adjacent(field, candidate);
        proof {
            lemma_digit_of_mask(candidate);
            lemma_holds_single(candidate);
            lemma_holds_ends();
            lemma_place(before@, field as int, d);
            let target = before@.place(field as int, d);
            assert forall|j: int| is_cell(j) implies is_mask(#[trigger] self.candidates()[j])
                && self@.options[j] =~= target.options[j] by {
                let n = if j == field {
                    0i32
                } else {
                    before.candidates()[j]
                };
                lemma_holds_ops(n, candidate);
                assert(same_unit(field as int, j) <==> j == field || peers(field as int, j));
            }
            assert(self@.digits =~= target.digits);
            assert(self@.options =~= target.options);
        }
    }

    /// The cells row by row: the one-bit mask of the digit in each, or 0.
    pub fn field(&self) -> (r: &[i32; 81])
        ensures
            r@ == self.committed(),
    {
        &self.field
    }

    /// The notes row by row: the mask of the digits that each cell may still take.
    pub fn notes(&self) -> (r: &[i32; 81])
        ensures
            r@ == self.candidates(),
    {
        &self.notes
    }
}

} // verus!
