//! The two propagation rules, naked singles and hidden singles, and their
//! repetition until neither applies.

use vstd::prelude::*;
use crate::board::{
    lemma_dead_cell, lemma_hidden_single, lemma_naked_single,
    lemma_occurrences, lemma_place, lemma_refines_trans, Board,
};
use crate::grid::{
    block_cell, box_start, col_start, is_block, is_cell, lemma_block_cells, lemma_block_step,
    row_start,
};
use crate::mask::{
    count, digit_of, digits_in, holds, is_digit, is_mask, lemma_digit_of_mask, lemma_holds_ends,
    least, lemma_holds_ops, lemma_holds_single, lemma_size_small, size,
};
use crate::sudoku::Sudoku;

verus! {

/// What one pass of a propagation rule found.
#[derive(Clone, Copy, Debug, PartialEq, Eq, Structural)]
pub enum Pass {
    /// The board admits no solution.
    Contradiction,
    /// At least one digit was placed.
    Progress,
    /// The rule applies nowhere; the board is as it was.
    Quiet,
}

/// What every pass of a propagation rule keeps: the board stays well formed,
/// only gets more determined, and admits the same solutions as before.
pub open spec fn preserved(before: Board, after: Board) -> bool {
    &&& after.wf()
    &&& after.refines(before)
    &&& after.open_count() <= before.open_count()
    &&& forall|g: Seq<int>| before.admits(g) <==> after.admits(g)
}

/// What a run of the rules to their fixed point achieves.
pub open spec fn propagation(before: Board, after: Board, feasible: bool) -> bool {
    &&& preserved(before, after)
    &&& feasible ==> after.settled()
    &&& !feasible ==> !before.solvable()
    &&& before.settled() ==> feasible && after == before
}

/// The scan for naked singles from cell `i` on, as a function on boards:
/// the board it ends on and what it reports. `found` says whether a digit was
/// placed before cell `i`.
pub open spec fn naked_scan(b: Board, i: int, found: bool) -> (Board, Pass)
    decreases 81 - i,
{
    if i < 0 || i >= 81 {
        (
            b,
            if found {
                Pass::Progress
            } else {
                Pass::Quiet
            },
        )
    } else if b.digits[i] != 0 {
        naked_scan(b, i + 1, found)
    } else if size(b.options[i]) == 0 {
        (b, Pass::Contradiction)
    } else if size(b.options[i]) == 1 {
        naked_scan(b.place(i, least(b.options[i])), i + 1, true)
    } else {
        naked_scan(b, i + 1, found)
    }
}

/// The digits that are an option of exactly one cell of a block.
pub open spec fn lone_digits(b: Board, start: int, inc: int, skip: int) -> Set<int> {
    Set::new(|d: int| is_digit(d) && b.occurrences(start, inc, skip, d, 9) == 1)
}

/// The second walk over a block, from its `k`-th cell on: a cell that offers
/// one of the digits in `once` gets it, and a cell that offers two of them
/// ends the walk.
pub open spec fn hidden_sweep(b: Board, once: Set<int>, start: int, inc: int, skip: int, k: int) -> (
    Board,
    Pass,
)
    decreases 9 - k,
{
    if k < 0 || k >= 9 {
        (b, Pass::Progress)
    } else {
        let found = b.options[block_cell(start, inc, skip, k)].intersect(once);
        if size(found) == 0 {
            hidden_sweep(b, once, start, inc, skip, k + 1)
        } else if size(found) == 1 {
            hidden_sweep(
                b.place(block_cell(start, inc, skip, k), least(found)),
                once,
                start,
                inc,
                skip,
                k + 1,
            )
        } else {
            (b, Pass::Contradiction)
        }
    }
}

/// Hidden singles in one block, as a function on boards.
pub open spec fn hidden_block(b: Board, start: int, inc: int, skip: int) -> (Board, Pass) {
    let once = lone_digits(b, start, inc, skip);
    if size(once) == 0 {
        (b, Pass::Quiet)
    } else {
        hidden_sweep(b, once, start, inc, skip, 0)
    }
}

/// Hidden singles over the rows, columns and boxes from number `n` on, as a
/// function on boards: the first block that is not quiet decides.
pub open spec fn hidden_scan(b: Board, n: int) -> (Board, Pass)
    decreases 9 - n,
{
    if n < 0 || n >= 9 {
        (b, Pass::Quiet)
    } else {
        let in_row = hidden_block(b, row_start(n), 1, 0);
        let in_col = hidden_block(b, col_start(n), 9, 0);
        let in_box = hidden_block(b, box_start(n), 1, 6);
        if in_row.1 != Pass::Quiet {
            in_row
        } else if in_col.1 != Pass::Quiet {
            in_col
        } else if in_box.1 != Pass::Quiet {
            in_box
        } else {
            hidden_scan(b, n + 1)
        }
    }
}

/// Propagation to the fixed point, as a function on boards: the board it
/// ends on, and whether it got there without a contradiction. A pass that
/// reports progress has filled a cell; the comparison of the counts only
/// makes the definition total.
pub open spec fn settle(b: Board) -> (Board, bool)
    decreases b.open_count(),
{
    let naked = naked_scan(b, 0, false);
    if naked.1 == Pass::Contradiction {
        (naked.0, false)
    } else if naked.1 == Pass::Progress {
        if naked.0.open_count() < b.open_count() {
            settle(naked.0)
        } else {
            (naked.0, false)
        }
    } else {
        let hidden = hidden_scan(b, 0);
        if hidden.1 == Pass::Contradiction {
            (hidden.0, false)
        } else if hidden.1 == Pass::Quiet {
            (b, true)
        } else if hidden.0.open_count() < b.open_count() {
            settle(hidden.0)
        } else {
            (hidden.0, false)
        }
    }
}

proof fn lemma_lone_of_once(b: Board, start: int, inc: int, skip: int, k: int, d: int)
    requires
        is_digit(d),
        0 <= k < 9,
        b.occurrences(start, inc, skip, d, 9) == 1,
        b.options[block_cell(start, inc, skip, k)].contains(d),
    ensures
        b.lone(start, inc, skip, k, d),
{
    lemma_occurrences(b, start, inc, skip, d, 9);
    let w = choose|w: int| #[trigger] b.sole(start, inc, skip, 9, w, d);
    assert(w == k);
}

impl Sudoku {
    /// One scan over all cells for naked singles: an open cell with one
    /// candidate left gets that digit; an open cell with none ends the scan.
    pub fn singles(&mut self) -> (r: Pass)
        requires
            old(self).wf(),
        ensures
            final(self).wf(),
            (final(self)@, r) == naked_scan(old(self)@, 0, false),
            preserved(old(self)@, final(self)@),
            r == Pass::Quiet <==> old(self)@.no_naked_single(),
            r == Pass::Quiet ==> *final(self) == *old(self),
            r == Pass::Progress ==> final(self)@.open_count() < old(self)@.open_count(),
            r == Pass::Contradiction ==> (exists|i: int| final(self)@.dead_cell(i))
                && !old(self)@.solvable(),
    {
        let ghost before = *self;
        let mut found = false;
        let mut i: usize = 0;
        while i < 81
            invariant
                i <= 81,
                before == *old(self),
                before.wf(),
                self.wf(),
                preserved(before@, self@),
                naked_scan(before@, 0, false) == naked_scan(self@, i as int, found),
                found ==> self@.open_count() < before@.open_count(),
                found ==> !before@.no_naked_single(),
                !found ==> *self == before,
                !found ==> forall|j: int|
                    0 <= j < i && #[trigger] before@.digits[j] == 0 ==> size(before@.options[j])
                        >= 2,
            decreases 81 - i,
        {
            if self.field()[i] == 0 {
                let candidates = self.notes()[i];
                let n = count(candidates);
                proof {
                    lemma_size_small(candidates);
                    assert(is_cell(i as int));
                    assert(self@.digits[i as int] == 0);
                }
                if n == 0 {
                    proof {
                        assert(self@.dead_cell(i as int));
                        lemma_dead_cell(self@, i as int);
                        assert forall|g: Seq<int>| !before@.admits(g) by {
                            if before@.admits(g) {
                                assert(self@.admits(g));
                            }
                        }
                    }
                    return Pass::Contradiction;
                }
                if n == 1 {
                    let ghost now = *self;
                    let ghost d = digit_of(candidates);
                    proof {
                        lemma_holds_single(candidates);
                        lemma_digit_of_mask(candidates);
                        assert(d == least(now@.options[i as int]));
                        assert(now@.naked_single(i as int));
                        lemma_place(now@, i as int, d);
                    }
                    self.put(i, candidates);
                    proof {
                        lemma_refines_trans(self@, now@, before@);
                        assert forall|g: Seq<int>| before@.admits(g) <==> self@.admits(g) by {
                            if now@.admits(g) {
                                lemma_naked_single(now@, i as int, d, g);
                            }
                        }
                    }
                    found = true;
                }
            }
            i += 1;
        }
        if found {
            Pass::Progress
        } else {
            Pass::Quiet
        }
    }

    /// Hidden singles in one block: every digit that is a candidate of exactly
    /// one of the nine cells is placed there. Two such digits in one cell
    /// contradict each other.
    pub fn hsinglesblock(&mut self, start: usize, inc: usize, skip: usize) -> (r: Pass)
        requires
            old(self).wf(),
            is_block(start as int, inc as int, skip as int),
        ensures
            final(self).wf(),
            (final(self)@, r) == hidden_block(old(self)@, start as int, inc as int, skip as int),
            preserved(old(self)@, final(self)@),
            r == Pass::Quiet <==> !old(self)@.has_hidden_single(
                start as int,
                inc as int,
                skip as int,
            ),
            r == Pass::Quiet ==> *final(self) == *old(self),
            r == Pass::Progress ==> final(self)@.open_count() < old(self)@.open_count(),
            r == Pass::Contradiction ==> !old(self)@.solvable(),
    {
        let ghost before = *self;
        let ghost s = start as int;
        let ghost a = inc as int;
        let ghost z = skip as int;
        let mut onceormore: i32 = 0;
        let mut twiceormore: i32 = 0;
        let mut index = start;
        let mut k: usize = 0;
        proof {
            lemma_holds_ends();
            lemma_block_step(s, a, z, 0);
        }
        while k < 9
            invariant
                k <= 9,
                s == start && a == inc && z == skip,
                is_block(s, a, z),
                *self == before,
                self.wf(),
                index == block_cell(s, a, z, k as int),
                is_mask(onceormore),
                is_mask(twiceormore),
                forall|d: int|
                    is_digit(d) ==> (#[trigger] holds(onceormore, d) <==> before@.occurrences(
                        s,
                        a,
                        z,
                        d,
                        k as int,
                    ) >= 1),
                forall|d: int|
                    is_digit(d) ==> (#[trigger] holds(twiceormore, d) <==> before@.occurrences(
                        s,
                        a,
                        z,
                        d,
                        k as int,
                    ) >= 2),
            decreases 9 - k,
        {
            proof {
                lemma_block_cells(s, a, z);
                lemma_block_step(s, a, z, k as int);
            }
            let candidates = self.notes()[index];
            proof {
                lemma_holds_ops(onceormore, candidates);
                lemma_holds_ops(twiceormore, onceormore & candidates);
                assert forall|d: int| is_digit(d) implies before@.occurrences(s, a, z, d, k as int)
                    >= 0 by {
                    lemma_occurrences(before@, s, a, z, d, k as int);
                }
            }
            twiceormore |= onceormore & candidates;
            onceormore |= candidates;
            index += inc;
            if k % 3 == 2 {
                index += skip;
            }
            k += 1;
        }

        let once = onceormore & !twiceormore;
        proof {
            lemma_holds_ops(onceormore, twiceormore);
            lemma_size_small(once);
            assert forall|d: int| is_digit(d) implies (#[trigger] holds(once, d)
                <==> before@.occurrences(s, a, z, d, 9) == 1) by {}
            if once == 0 {
                assert forall|w: int, d: int| !#[trigger] before@.lone(s, a, z, w, d) by {
                    if before@.lone(s, a, z, w, d) {
                        lemma_occurrences(before@, s, a, z, d, 9);
                        assert(holds(once, d));
                    }
                }
            }
        }
        let ghost lone = lone_digits(before@, s, a, z);
        assert(forall|d: int| is_digit(d) ==> (lone.contains(d) <==> digits_in(once).contains(d)));
        assert(size(lone) == size(digits_in(once)));
        if once == 0 {
            return Pass::Quiet;
        }
        let ghost d0 = crate::mask::least(digits_in(once));
        proof {
            lemma_occurrences(before@, s, a, z, d0, 9);
        }
        let ghost k0 = choose|w: int| #[trigger] before@.sole(s, a, z, 9, w, d0);
        assert(before@.lone(s, a, z, k0, d0));

        index = start;
        k = 0;
        while k < 9
            invariant
                k <= 9,
                s == start && a == inc && z == skip,
                is_block(s, a, z),
                before == *old(self),
                before.wf(),
                self.wf(),
                preserved(before@, self@),
                lone == lone_digits(before@, s, a, z),
                hidden_block(before@, s, a, z) == hidden_sweep(self@, lone, s, a, z, k as int),
                is_digit(d0) && holds(once, d0),
                index == block_cell(s, a, z, k as int),
                is_mask(once),
                forall|d: int|
                    is_digit(d) ==> (#[trigger] holds(once, d) <==> before@.occurrences(
                        s,
                        a,
                        z,
                        d,
                        9,
                    ) == 1),
                forall|l: int, d: int|
                    k <= l < 9 && is_digit(d) && #[trigger] holds(once, d) ==> (
                    self@.options[#[trigger] block_cell(s, a, z, l)].contains(d)
                        <==> before@.options[block_cell(s, a, z, l)].contains(d)),
                before@.lone(s, a, z, k0, d0),
                k > k0 ==> self@.open_count() < before@.open_count(),
            decreases 9 - k,
        {
            proof {
                lemma_block_cells(s, a, z);
                lemma_block_step(s, a, z, k as int);
            }
            let ghost c = index as int;
            let ghost now = *self;
            let cell = self.notes()[index];
            let intersect = cell & once;
            proof {
                lemma_holds_ops(cell, once);
                lemma_size_small(intersect);
                assert(c == block_cell(s, a, z, k as int));
                assert(is_cell(c));
                let offered = now@.options[c].intersect(lone);
                assert(forall|e: int|
                    is_digit(e) ==> (offered.contains(e) <==> digits_in(intersect).contains(e)));
                assert(size(offered) == size(digits_in(intersect)));
                assert(least(offered) == least(digits_in(intersect)));
                if k == k0 {
                    assert(holds(once, d0));
                    assert(now@.options[block_cell(s, a, z, k as int)].contains(d0));
                    assert(holds(intersect, d0));
                }
                assert forall|e: int, g: Seq<int>|
                    is_digit(e) && holds(intersect, e) && before@.admits(g) implies g[c] == e by {
                    assert(now@.options[c].contains(e));
                    lemma_lone_of_once(before@, s, a, z, k as int, e);
                    lemma_hidden_single(before@, s, a, z, k as int, e, g);
                }
            }
            if intersect != 0 {
                if count(intersect) != 1 {
                    proof {
                        assert forall|g: Seq<int>| !before@.admits(g) by {
                            if before@.admits(g) {
                                let v = g[c];
                                assert forall|e: int|
                                    is_digit(e) && digits_in(intersect).contains(e) implies e
                                    == v by {}
                                assert(size(digits_in(intersect)) <= 1);
                            }
                        }
                    }
                    return Pass::Contradiction;
                }
                let ghost d = digit_of(intersect);
                proof {
                    lemma_holds_single(intersect);
                    lemma_digit_of_mask(intersect);
                    assert(holds(intersect, d));
                    assert(now@.options[c].contains(d));
                    lemma_place(now@, c, d);
                    lemma_lone_of_once(before@, s, a, z, k as int, d);
                }
                self.put(index, intersect);
                proof {
                    lemma_refines_trans(self@, now@, before@);
                    assert forall|g: Seq<int>| before@.admits(g) <==> self@.admits(g) by {}
                    assert forall|l: int, e: int|
                        k + 1 <= l < 9 && is_digit(e) && #[trigger] holds(once, e) implies (
                    self@.options[#[trigger] block_cell(s, a, z, l)].contains(e)
                        <==> before@.options[block_cell(s, a, z, l)].contains(e)) by {
                        let x = block_cell(s, a, z, l);
                        assert(is_cell(x));
                        assert(x != c);
                        assert(now@.options[x].contains(e) <==> before@.options[x].contains(e));
                        if e == d {
                            assert(!before@.options[x].contains(e));
                        }
                    }
                }
            }
            index += inc;
            if k % 3 == 2 {
                index += skip;
            }
            k += 1;
        }
        Pass::Progress
    }

    /// Hidden singles, block by block: row, column and box with the same
    /// number in turn. The first block that is not quiet ends the pass.
    pub fn hsingles(&mut self) -> (r: Pass)
        requires
            old(self).wf(),
        ensures
            final(self).wf(),
            (final(self)@, r) == hidden_scan(old(self)@, 0),
            preserved(old(self)@, final(self)@),
            r == Pass::Quiet <==> old(self)@.no_hidden_single(),
            r == Pass::Quiet ==> *final(self) == *old(self),
            r == Pass::Progress ==> final(self)@.open_count() < old(self)@.open_count(),
            r == Pass::Contradiction ==> !old(self)@.solvable(),
    {
        let ghost before = *self;
        let mut i: usize = 0;
        while i < 9
            invariant
                i <= 9,
                before == *old(self),
                *self == before,
                self.wf(),
                hidden_scan(before@, 0) == hidden_scan(before@, i as int),
                forall|n: int| 0 <= n < i ==> !#[trigger] before@.hidden_single_at(n),
            decreases 9 - i,
        {
            assert(i * 9 == row_start(i as int) && i == col_start(i as int) && (i / 3) * 27 + (i % 3)
                * 3 == box_start(i as int));
            let in_row = self.hsinglesblock(i * 9, 1, 0);
            if in_row != Pass::Quiet {
                assert(before@.hidden_single_at(i as int));
                return in_row;
            }
            let in_col = self.hsinglesblock(i, 9, 0);
            if in_col != Pass::Quiet {
                assert(before@.hidden_single_at(i as int));
                return in_col;
            }
            let in_box = self.hsinglesblock((i / 3) * 27 + (i % 3) * 3, 1, 6);
            if in_box != Pass::Quiet {
                assert(before@.hidden_single_at(i as int));
                return in_box;
            }
            assert(!before@.hidden_single_at(i as int));
            i += 1;
        }
        Pass::Quiet
    }

    /// Runs naked singles and hidden singles until neither places a digit.
    /// Returns false as soon as a pass finds a contradiction.
    pub fn propagate(&mut self) -> (feasible: bool)
        requires
            old(self).wf(),
        ensures
            final(self).wf(),
            (final(self)@, feasible) == settle(old(self)@),
            propagation(old(self)@, final(self)@, feasible),
            old(self)@.settled() ==> *final(self) == *old(self),
    {
        let ghost before = *self;
        loop
            invariant
                before == *old(self),
                before.wf(),
                self.wf(),
                preserved(before@, self@),
                settle(before@) == settle(self@),
                before@.settled() ==> *self == before,
            decreases self@.open_count(),
        {
            let ghost now = *self;
            let naked = self.singles();
            proof {
                lemma_refines_trans(self@, now@, before@);
            }
            match naked {
                Pass::Contradiction => {
                    return false;
                },
                Pass::Progress => {},
                Pass::Quiet => {
                    let hidden = self.hsingles();
                    proof {
                        lemma_refines_trans(self@, now@, before@);
                    }
                    match hidden {
                        Pass::Contradiction => {
                            return false;
                        },
                        Pass::Progress => {},
                        Pass::Quiet => {
                            return true;
                        },
                    }
                },
            }
        }
    }
}

} // verus!
