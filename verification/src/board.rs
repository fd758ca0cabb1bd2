//! The mathematical model of a board: for each cell the digit placed in it, or
//! 0, and the set of digits that may still go there.

use vstd::prelude::*;
use crate::grid::{
    block_cell, box_start, col_start, completes, is_block, is_cell, is_solution, lemma_block_cells,
    lemma_block_holds_digit, peers, row_start,
};
use crate::mask::{is_digit, one_if, size};

verus! {

/// What a board holds, cell by cell.
pub struct Board {
    /// The digit placed in each cell; 0 where the cell is still open.
    pub digits: Seq<int>,
    /// The digits not yet ruled out for each cell.
    pub options: Seq<Set<int>>,
}

/// The number of zeros among the first `n` entries.
pub open spec fn count_open(digits: Seq<int>, n: int) -> nat
    decreases n,
{
    if n <= 0 {
        0
    } else {
        count_open(digits, n - 1) + if digits[n - 1] == 0 {
            1nat
        } else {
            0nat
        }
    }
}

/// No peer of cell `i` holds digit `d`.
pub open spec fn free_at(digits: Seq<int>, i: int, d: int) -> bool {
    forall|j: int| is_cell(j) && #[trigger] peers(i, j) ==> digits[j] != d
}

/// The board that holds the given digits, 0 for an open cell, and for every
/// open cell each digit that no peer holds.
pub open spec fn initial(givens: Seq<int>) -> Board {
    Board {
        digits: Seq::new(81, |i: int| givens[i]),
        options: Seq::new(
            81,
            |i: int| Set::new(|d: int| is_digit(d) && givens[i] == 0 && free_at(givens, i, d)),
        ),
    }
}

impl Board {
    /// The invariant of every board: placed cells have no options left, and a
    /// placed digit is neither placed in a peer nor an option of a peer.
    pub open spec fn wf(self) -> bool {
        &&& self.digits.len() == 81
        &&& self.options.len() == 81
        &&& forall|i: int| is_cell(i) ==> 0 <= #[trigger] self.digits[i] <= 9
        &&& forall|i: int, d: int|
            is_cell(i) && #[trigger] self.options[i].contains(d) ==> is_digit(d)
                && self.digits[i] == 0
        &&& forall|i: int, j: int|
            is_cell(i) && is_cell(j) && #[trigger] peers(i, j) && self.digits[i] != 0
                ==> self.digits[j] != self.digits[i] && !self.options[j].contains(
                self.digits[i],
            )
    }

    /// No cell is open.
    pub open spec fn complete(self) -> bool {
        forall|i: int| is_cell(i) ==> #[trigger] self.digits[i] != 0
    }

    /// The number of open cells.
    pub open spec fn open_count(self) -> nat {
        count_open(self.digits, 81)
    }

    /// `g` is a solution that agrees with every placed digit and takes, in
    /// every open cell, one of its options.
    pub open spec fn admits(self, g: Seq<int>) -> bool {
        &&& is_solution(g)
        &&& forall|i: int|
            is_cell(i) ==> if self.digits[i] != 0 {
                #[trigger] g[i] == self.digits[i]
            } else {
                self.options[i].contains(g[i])
            }
    }

    /// `g` is a solution that agrees with every placed digit.
    pub open spec fn completed_by(self, g: Seq<int>) -> bool {
        completes(g, self.digits)
    }

    /// Some solution is admitted.
    pub open spec fn solvable(self) -> bool {
        exists|g: Seq<int>| self.admits(g)
    }

    /// The options of every open cell are exactly the digits that no peer holds.
    pub open spec fn saturated(self) -> bool {
        forall|i: int, d: int|
            is_cell(i) && self.digits[i] == 0 && is_digit(d) ==> (#[trigger] self.options[i].contains(
                d,
            ) <==> free_at(self.digits, i, d))
    }

    /// The board after digit `d` is placed in cell `i`: the cell loses its
    /// options and every peer loses `d`.
    pub open spec fn place(self, i: int, d: int) -> Board {
        Board {
            digits: self.digits.update(i, d),
            options: Seq::new(
                81,
                |j: int|
                    if j == i {
                        Set::empty()
                    } else if peers(i, j) {
                        self.options[j].remove(d)
                    } else {
                        self.options[j]
                    },
            ),
        }
    }

    /// `self` can be reached from `old` by placing options: what was placed
    /// stays, what is newly placed was an option, and no option is new.
    pub open spec fn refines(self, old: Board) -> bool {
        &&& forall|i: int|
            is_cell(i) && old.digits[i] != 0 ==> #[trigger] self.digits[i] == old.digits[i]
        &&& forall|i: int|
            is_cell(i) && old.digits[i] == 0 && #[trigger] self.digits[i] != 0
                ==> old.options[i].contains(self.digits[i])
        &&& forall|i: int, d: int|
            is_cell(i) && #[trigger] self.options[i].contains(d) ==> old.options[i].contains(d)
    }

    /// An open cell with no option left.
    pub open spec fn dead_cell(self, i: int) -> bool {
        is_cell(i) && self.digits[i] == 0 && size(self.options[i]) == 0
    }

    /// An open cell with exactly one option left.
    pub open spec fn naked_single(self, i: int) -> bool {
        is_cell(i) && self.digits[i] == 0 && size(self.options[i]) == 1
    }

    /// Among the first `n` cells of a block, `d` is an option of the `k`-th
    /// and of no other.
    pub open spec fn sole(self, start: int, inc: int, skip: int, n: int, k: int, d: int) -> bool {
        &&& 0 <= k < n
        &&& self.options[block_cell(start, inc, skip, k)].contains(d)
        &&& forall|l: int|
            0 <= l < n && l != k ==> !self.options[#[trigger] block_cell(
                start,
                inc,
                skip,
                l,
            )].contains(d)
    }

    /// Digit `d` is an option of the `k`-th cell of a block and of no other
    /// cell of that block.
    pub open spec fn lone(self, start: int, inc: int, skip: int, k: int, d: int) -> bool {
        is_digit(d) && self.sole(start, inc, skip, 9, k, d)
    }

    /// In how many of the first `n` cells of a block `d` is an option.
    pub open spec fn occurrences(self, start: int, inc: int, skip: int, d: int, n: int) -> int
        decreases n,
    {
        if n <= 0 {
            0
        } else {
            self.occurrences(start, inc, skip, d, n - 1) + one_if(
                self.options[block_cell(start, inc, skip, n - 1)],
                d,
            )
        }
    }

    /// Some digit is an option of exactly one cell of the block.
    pub open spec fn has_hidden_single(self, start: int, inc: int, skip: int) -> bool {
        exists|k: int, d: int| #[trigger] self.lone(start, inc, skip, k, d)
    }

    /// No open cell has fewer than two options.
    pub open spec fn no_naked_single(self) -> bool {
        forall|i: int| is_cell(i) && #[trigger] self.digits[i] == 0 ==> size(self.options[i]) >= 2
    }

    /// The row, the column or the box with number `n` has a hidden single.
    pub open spec fn hidden_single_at(self, n: int) -> bool {
        ||| self.has_hidden_single(row_start(n), 1, 0)
        ||| self.has_hidden_single(col_start(n), 9, 0)
        ||| self.has_hidden_single(box_start(n), 1, 6)
    }

    /// No row, column or box has a hidden single.
    pub open spec fn no_hidden_single(self) -> bool {
        forall|n: int| 0 <= n < 9 ==> !#[trigger] self.hidden_single_at(n)
    }

    /// Neither propagation rule applies.
    pub open spec fn settled(self) -> bool {
        self.no_naked_single() && self.no_hidden_single()
    }
}

/// Placing a digit in an open cell leaves one open cell fewer among the
/// entries that include it, and as many among those that do not.
pub proof fn lemma_count_open_update(digits: Seq<int>, i: int, d: int, n: int)
    requires
        0 <= i < digits.len(),
        n <= digits.len(),
        digits[i] == 0,
        d != 0,
    ensures
        count_open(digits.update(i, d), n) == count_open(digits, n) - if i < n {
            1int
        } else {
            0int
        },
    decreases n,
{
    if n > 0 {
        lemma_count_open_update(digits, i, d, n - 1);
    }
}

/// Placing an option of an open cell keeps the board well formed, refines it,
/// and leaves one open cell fewer.
pub proof fn lemma_place(b: Board, i: int, d: int)
    requires
        b.wf(),
        is_cell(i),
        b.options[i].contains(d),
    ensures
        b.place(i, d).wf(),
        b.place(i, d).refines(b),
        b.place(i, d).open_count() == b.open_count() - 1,
        forall|g: Seq<int>| #[trigger] b.place(i, d).admits(g) <==> b.admits(g) && g[i] == d,
{
    let p = b.place(i, d);
    lemma_count_open_update(b.digits, i, d, 81);
    assert(p.wf()) by {
        assert forall|x: int, y: int|
            is_cell(x) && is_cell(y) && #[trigger] peers(x, y) && p.digits[x] != 0 implies p.digits[y]
            != p.digits[x] && !p.options[y].contains(p.digits[x]) by {
            if x == i {
                if b.digits[y] != 0 {
                    assert(peers(y, x));
                }
            } else {
                if y == i {
                    assert(peers(x, y));
                }
            }
        }
    }
    assert forall|g: Seq<int>| #[trigger] p.admits(g) <==> b.admits(g) && g[i] == d by {
        if p.admits(g) {
            assert(g[i] == p.digits[i]);
            assert forall|x: int| is_cell(x) implies if b.digits[x] != 0 {
                #[trigger] g[x] == b.digits[x]
            } else {
                b.options[x].contains(g[x])
            } by {
                if x != i {
                    assert(if p.digits[x] != 0 {
                        g[x] == p.digits[x]
                    } else {
                        p.options[x].contains(g[x])
                    });
                }
            }
        }
        if b.admits(g) && g[i] == d {
            assert forall|x: int| is_cell(x) implies if p.digits[x] != 0 {
                #[trigger] g[x] == p.digits[x]
            } else {
                p.options[x].contains(g[x])
            } by {
                assert(if b.digits[x] != 0 {
                    g[x] == b.digits[x]
                } else {
                    b.options[x].contains(g[x])
                });
                if x != i && peers(i, x) {
                    assert(g[i] != g[x]);
                }
            }
        }
    }
}

/// Refinement is transitive.
pub proof fn lemma_refines_trans(a: Board, b: Board, c: Board)
    requires
        a.refines(b),
        b.refines(c),
    ensures
        a.refines(c),
{
    assert forall|i: int| is_cell(i) && c.digits[i] == 0 && #[trigger] a.digits[i] != 0 implies c.options[i].contains(
        a.digits[i],
    ) by {
        if b.digits[i] != 0 {
            assert(a.digits[i] == b.digits[i]);
        }
    }
}

/// The count of the cells that offer a digit is 0 when none does, and 1 when
/// exactly one does.
pub proof fn lemma_occurrences(b: Board, start: int, inc: int, skip: int, d: int, n: int)
    requires
        0 <= n,
    ensures
        0 <= b.occurrences(start, inc, skip, d, n),
        b.occurrences(start, inc, skip, d, n) == 0 <==> forall|l: int|
            0 <= l < n ==> !b.options[#[trigger] block_cell(start, inc, skip, l)].contains(d),
        b.occurrences(start, inc, skip, d, n) == 1 <==> exists|k: int| #[trigger]
            b.sole(start, inc, skip, n, k, d),
    decreases n,
{
    if n > 0 {
        lemma_occurrences(b, start, inc, skip, d, n - 1);
        let last = b.options[block_cell(start, inc, skip, n - 1)].contains(d);
        let rest = b.occurrences(start, inc, skip, d, n - 1);
        if b.occurrences(start, inc, skip, d, n) == 1 {
            if last {
                assert(rest == 0);
                assert(b.sole(start, inc, skip, n, n - 1, d));
            } else {
                let k = choose|k: int| #[trigger] b.sole(start, inc, skip, n - 1, k, d);
                assert(b.sole(start, inc, skip, n, k, d));
            }
        }
        if exists|k: int| #[trigger] b.sole(start, inc, skip, n, k, d) {
            let k = choose|k: int| #[trigger] b.sole(start, inc, skip, n, k, d);
            if k == n - 1 {
                assert(last);
                assert(rest == 0);
            } else {
                assert(!last);
                assert(b.sole(start, inc, skip, n - 1, k, d));
            }
        }
        if b.occurrences(start, inc, skip, d, n) == 0 {
            assert(rest == 0 && !last);
        }
    } else {
        assert forall|k: int| !#[trigger] b.sole(start, inc, skip, n, k, d) by {}
    }
}

/// Placing an option of an open cell keeps a saturated board saturated.
pub proof fn lemma_place_saturated(b: Board, i: int, d: int)
    requires
        b.wf(),
        b.saturated(),
        is_cell(i),
        b.options[i].contains(d),
    ensures
        b.place(i, d).saturated(),
{
    let p = b.place(i, d);
    assert forall|x: int, e: int| is_cell(x) && p.digits[x] == 0 && is_digit(e) implies (
    #[trigger] p.options[x].contains(e) <==> free_at(p.digits, x, e)) by {
        assert(x != i);
        if b.options[x].contains(e) {
            assert(free_at(b.digits, x, e));
        } else {
            let j = choose|j: int| is_cell(j) && #[trigger] peers(x, j) && b.digits[j] == e;
            assert(is_cell(j) && peers(x, j) && p.digits[j] == e);
        }
        if peers(i, x) {
            assert(peers(x, i));
            assert(p.digits[i] == d);
        }
    }
}

/// A well-formed, saturated board is the initial board of its digits.
pub proof fn lemma_initial(b: Board)
    requires
        b.wf(),
        b.saturated(),
    ensures
        b == initial(b.digits),
{
    let target = initial(b.digits);
    assert(b.digits =~= target.digits);
    assert forall|i: int| 0 <= i < 81 implies b.options[i] =~= target.options[i] by {
        assert(is_cell(i));
        assert forall|d: int| b.options[i].contains(d) <==> target.options[i].contains(d) by {
            if is_digit(d) && b.digits[i] == 0 {
                assert(b.options[i].contains(d) <==> free_at(b.digits, i, d));
            }
        }
    }
    assert(b.options =~= target.options);
}

/// A complete board holds a solution, and admits that solution only.
pub proof fn lemma_complete(b: Board)
    requires
        b.wf(),
        b.complete(),
    ensures
        is_solution(b.digits),
        b.admits(b.digits),
        forall|g: Seq<int>| b.admits(g) ==> g =~= b.digits,
{
    assert forall|g: Seq<int>| b.admits(g) implies g =~= b.digits by {
        assert forall|i: int| 0 <= i < 81 implies g[i] == b.digits[i] by {
            assert(is_cell(i));
        }
    }
}

/// A board with a dead cell admits no solution.
pub proof fn lemma_dead_cell(b: Board, i: int)
    requires
        b.wf(),
        b.dead_cell(i),
    ensures
        !b.solvable(),
{
    assert forall|g: Seq<int>| !b.admits(g) by {
        if b.admits(g) {
            assert(b.options[i].contains(g[i]));
            assert(is_digit(g[i]));
        }
    }
}

/// Every admitted solution takes, in a cell with one option, that option.
pub proof fn lemma_naked_single(b: Board, i: int, d: int, g: Seq<int>)
    requires
        b.wf(),
        b.naked_single(i),
        b.options[i].contains(d),
        b.admits(g),
    ensures
        g[i] == d,
{
    assert(b.options[i].contains(g[i]));
    assert(is_digit(g[i]) && is_digit(d));
}

/// Every admitted solution puts a digit that has one place left in a block
/// into that place.
pub proof fn lemma_hidden_single(
    b: Board,
    start: int,
    inc: int,
    skip: int,
    k: int,
    d: int,
    g: Seq<int>,
)
    requires
        b.wf(),
        is_block(start, inc, skip),
        b.lone(start, inc, skip, k, d),
        b.admits(g),
    ensures
        g[block_cell(start, inc, skip, k)] == d,
{
    lemma_block_cells(start, inc, skip);
    lemma_block_holds_digit(g, start, inc, skip, d);
    let l = choose|l: int| 0 <= l < 9 && g[#[trigger] block_cell(start, inc, skip, l)] == d;
    let c = block_cell(start, inc, skip, k);
    let e = block_cell(start, inc, skip, l);
    if l != k {
        assert(peers(e, c));
        assert(is_cell(e));
        assert(if b.digits[e] != 0 {
            g[e] == b.digits[e]
        } else {
            b.options[e].contains(g[e])
        });
    }
}

/// On a saturated board the admitted solutions are the solutions that agree
/// with the placed digits.
pub proof fn lemma_saturated(b: Board, g: Seq<int>)
    requires
        b.wf(),
        b.saturated(),
    ensures
        b.admits(g) <==> b.completed_by(g),
{
    if b.completed_by(g) {
        assert forall|i: int| is_cell(i) implies if b.digits[i] != 0 {
            #[trigger] g[i] == b.digits[i]
        } else {
            b.options[i].contains(g[i])
        } by {
            if b.digits[i] == 0 {
                assert(is_digit(g[i]));
                assert forall|j: int| is_cell(j) && #[trigger] peers(i, j) implies b.digits[j]
                    != g[i] by {
                    if b.digits[j] != 0 {
                        assert(g[j] == b.digits[j]);
                    }
                }
                assert(free_at(b.digits, i, g[i]));
            }
        }
    }
    if b.admits(g) {
        assert forall|i: int| is_cell(i) && b.digits[i] != 0 implies #[trigger] g[i] == b.digits[i] by {
            assert(if b.digits[i] != 0 {
                g[i] == b.digits[i]
            } else {
                b.options[i].contains(g[i])
            });
        }
    }
}

} // verus!
