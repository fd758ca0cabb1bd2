//! The backtracking search: propagate, pick the open cell with the fewest
//! candidates, and try its candidates from the smallest digit up.

use vstd::prelude::*;
use crate::board::{lemma_complete, lemma_place, Board};
use crate::grid::is_cell;
use crate::mask::{
    count, digit_of, digits_in, holds, is_digit, is_mask, least, lemma_digit_of_mask,
    lemma_holds_ends, lemma_holds_ops, lemma_holds_single, lemma_size_small, lowest, size,
};
use crate::propagate::{preserved, settle};
use crate::sudoku::Sudoku;

verus! {

/// What a search achieves: it succeeds exactly when the board admits a
/// solution, and then leaves the board filled with one that it admitted.
pub open spec fn searched(before: Board, after: Board, found: bool) -> bool {
    &&& found <==> before.solvable()
    &&& found ==> after.complete() && before.admits(after.digits)
}

/// Cell `c` is open, no open cell has fewer options, and no open cell before
/// it has as few.
pub open spec fn is_branch_cell(b: Board, c: int) -> bool {
    &&& is_cell(c)
    &&& b.digits[c] == 0
    &&& forall|j: int|
        is_cell(j) && #[trigger] b.digits[j] == 0 ==> size(b.options[c]) <= size(b.options[j])
    &&& forall|j: int|
        0 <= j < c && #[trigger] b.digits[j] == 0 ==> size(b.options[c]) < size(b.options[j])
}

/// The cell that the search branches on.
pub open spec fn branch(b: Board) -> int {
    choose|c: int| is_branch_cell(b, c)
}

/// The search as a function on boards: the board it ends on and whether that
/// board is a solution. The comparisons of the counts of open cells only make
/// the definition total: propagation opens no cell, and a placement fills one.
pub open spec fn search(b: Board) -> (Board, bool)
    decreases b.open_count(), 1nat, 0nat,
{
    let settled = settle(b);
    if !settled.1 {
        (settled.0, false)
    } else if settled.0.complete() {
        (settled.0, true)
    } else if settled.0.open_count() <= b.open_count() {
        try_digits(settled.0, branch(settled.0), settled.0.options[branch(settled.0)])
    } else {
        (settled.0, false)
    }
}

/// The branch on one cell: its remaining `digits` are tried from the smallest
/// up, each on the board `b` as it was, until the search succeeds with one.
pub open spec fn try_digits(b: Board, cell: int, digits: Set<int>) -> (Board, bool)
    decreases b.open_count(), 0nat, size(digits) as nat,
{
    if size(digits) <= 0 {
        (b, false)
    } else if b.place(cell, least(digits)).open_count() < b.open_count() {
        let tried = search(b.place(cell, least(digits)));
        if tried.1 {
            tried
        } else {
            try_digits(b, cell, digits.remove(least(digits)))
        }
    } else {
        (b, false)
    }
}

/// A board has at most one branch cell.
pub proof fn lemma_branch_cell_unique(b: Board, c: int, e: int)
    requires
        is_branch_cell(b, c),
        is_branch_cell(b, e),
    ensures
        c == e,
{
}

impl Sudoku {
    /// The open cell to branch on: the one with the fewest candidates, and
    /// among several such the first. `None` when no cell is open.
    pub fn branch_cell(&self) -> (r: Option<usize>)
        requires
            self.wf(),
        ensures
            r is None <==> self@.complete(),
            r matches Some(c) ==> is_branch_cell(self@, c as int) && c as int == branch(self@),
    {
        let mut min: u32 = 10;
        let mut mindex: Option<usize> = None;
        let mut i: usize = 0;
        while i < 81
            invariant
                i <= 81,
                self.wf(),
                mindex is None ==> min == 10 && forall|j: int|
                    0 <= j < i ==> #[trigger] self@.digits[j] != 0,
                mindex matches Some(c) ==> {
                    &&& c < i
                    &&& self@.digits[c as int] == 0
                    &&& min == size(self@.options[c as int])
                    &&& forall|j: int|
                        0 <= j < i && #[trigger] self@.digits[j] == 0 ==> min <= size(
                            self@.options[j],
                        )
                    &&& forall|j: int|
                        0 <= j < c && #[trigger] self@.digits[j] == 0 ==> min < size(
                            self@.options[j],
                        )
                },
            decreases 81 - i,
        {
            let n = count(self.notes()[i]);
            proof {
                lemma_size_small(self.candidates()[i as int]);
            }
            if self.field()[i] == 0 && n < min {
                min = n;
                mindex = Some(i);
            }
            i += 1;
        }
        proof {
            if let Some(c) = mindex {
                assert(is_branch_cell(self@, c as int));
                lemma_branch_cell_unique(self@, c as int, branch(self@));
            }
        }
        mindex
    }

    /// Completes the board. Returns true with every cell filled by a solution
    /// that the board admitted, or false when it admitted none; the cells are
    /// then left as the search last saw them.
    pub fn solve(&mut self) -> (r: bool)
        requires
            old(self).wf(),
        ensures
            final(self).wf(),
            r == search(old(self)@).1,
            r ==> final(self)@ == search(old(self)@).0,
            searched(old(self)@, final(self)@, r),
        decreases old(self)@.open_count(),
    {
        if !self.propagate() {
            return false;
        }
        let mindex = match self.branch_cell() {
            None => {
                proof {
                    lemma_complete(self@);
                }
                return true;
            },
            Some(c) => c,
        };

        let clone = self.clone();
        let mut candidates = self.notes()[mindex];
        let ghost at = mindex as int;
        proof {
            lemma_holds_ends();
            assert(is_cell(at));
            assert forall|g: Seq<int>| clone@.admits(g) implies holds(candidates, #[trigger] g[at])
                && is_digit(g[at]) by {
                assert(clone@.options[at].contains(g[at]));
            }
        }
        while candidates != 0
            invariant
                mindex < 81,
                at == mindex,
                *self == clone,
                clone.wf(),
                preserved(old(self)@, clone@),
                search(old(self)@) == try_digits(clone@, at, digits_in(candidates)),
                clone@.open_count() <= old(self)@.open_count(),
                clone@.digits[at] == 0,
                is_mask(candidates),
                forall|e: int|
                    is_digit(e) && #[trigger] holds(candidates, e) ==> clone@.options[at].contains(e),
                forall|g: Seq<int>|
                    clone@.admits(g) ==> holds(candidates, #[trigger] g[at]) && is_digit(g[at]),
            decreases candidates,
        {
            let c = lowest(candidates);
            let ghost d = digit_of(c);
            proof {
                lemma_size_small(candidates);
                lemma_digit_of_mask(c);
                lemma_holds_single(c);
                lemma_holds_ops(candidates, c);
                lemma_place(clone@, at, d);
                assert(d == least(digits_in(candidates)));
                assert(digits_in(candidates & !c) =~= digits_in(candidates).remove(d));
            }
            self.put(mindex, c);

            if self.solve() {
                return true;
            }
            proof {
                assert forall|g: Seq<int>| clone@.admits(g) implies g[at] != d by {
                    if g[at] == d {
                        assert(clone@.place(at, d).admits(g));
                    }
                }
            }

            *self = clone.clone();
            candidates &= !c;
        }
        proof {
            assert forall|g: Seq<int>| !old(self)@.admits(g) by {
                if clone@.admits(g) {
                    assert(holds(candidates, g[at]));
                }
            }
        }
        false
    }
}

} // verus!
