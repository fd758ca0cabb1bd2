//! The geometry of the 9x9 grid: cells, units, peers and blocks, and what it
//! means for 81 digits to be a solution.
//!
//! Cells are numbered row by row, so cell `i` lies in row `i / 9` and column
//! `i % 9`.

use vstd::prelude::*;
use vstd::set_lib::*;
use crate::mask::is_digit;

verus! {

/// An index of one of the 81 cells.
pub open spec fn is_cell(i: int) -> bool {
    0 <= i < 81
}

/// The row of a cell, from 0 to 8.
pub open spec fn row_of(i: int) -> int {
    i / 9
}

/// The column of a cell, from 0 to 8.
pub open spec fn col_of(i: int) -> int {
    i % 9
}

/// The 3x3 box of a cell, from 0 to 8, counted row by row.
pub open spec fn box_of(i: int) -> int {
    (i / 27) * 3 + (i % 9) / 3
}

/// The first cell of the box that holds cell `i`.
pub open spec fn box_origin(i: int) -> int {
    (i / 27) * 27 + ((i % 9) / 3) * 3
}

/// The place of a cell within its box, from 0 to 8, counted row by row.
pub open spec fn box_slot(i: int) -> int {
    (row_of(i) % 3) * 3 + col_of(i) % 3
}

/// Two cells that share a row, a column or a box. Every cell shares all three
/// with itself.
pub open spec fn same_unit(i: int, j: int) -> bool {
    row_of(i) == row_of(j) || col_of(i) == col_of(j) || box_of(i) == box_of(j)
}

/// Two different cells that share a row, a column or a box.
pub open spec fn peers(i: int, j: int) -> bool {
    i != j && same_unit(i, j)
}

/// A walk over the nine cells of one unit: from `start`, `inc` further for
/// each cell, and `skip` more after every third cell. Rows, columns and boxes
/// are the only walks admitted.
pub open spec fn is_block(start: int, inc: int, skip: int) -> bool {
    ||| (inc == 1 && skip == 0 && 0 <= start < 81 && start % 9 == 0)
    ||| (inc == 9 && skip == 0 && 0 <= start < 9)
    ||| (inc == 1 && skip == 6 && 0 <= start <= 60 && start % 27 < 9 && start % 3 == 0)
}

/// The `k`-th cell of a block, for `k` from 0 to 8.
pub open spec fn block_cell(start: int, inc: int, skip: int, k: int) -> int {
    start + k * inc + (k / 3) * skip
}

/// The start of the row, the column and the box with number `n`.
pub open spec fn row_start(n: int) -> int {
    n * 9
}

pub open spec fn col_start(n: int) -> int {
    n
}

pub open spec fn box_start(n: int) -> int {
    (n / 3) * 27 + (n % 3) * 3
}

/// 81 digits from 1 to 9 in which no two peers are equal.
pub open spec fn is_solution(g: Seq<int>) -> bool {
    &&& g.len() == 81
    &&& forall|i: int| is_cell(i) ==> is_digit(#[trigger] g[i])
    &&& forall|i: int, j: int| is_cell(i) && is_cell(j) && #[trigger] peers(i, j) ==> g[i] != g[j]
}

/// `g` is a solution that keeps every digit given in `givens`, where 0 stands
/// for a cell that was left empty.
pub open spec fn completes(g: Seq<int>, givens: Seq<int>) -> bool {
    &&& is_solution(g)
    &&& forall|i: int| is_cell(i) && givens[i] != 0 ==> #[trigger] g[i] == givens[i]
}

/// The cells of a block are cells of the grid, and any two of them are peers.
pub proof fn lemma_block_cells(start: int, inc: int, skip: int)
    requires
        is_block(start, inc, skip),
    ensures
        forall|k: int| 0 <= k < 9 ==> is_cell(#[trigger] block_cell(start, inc, skip, k)),
        forall|k: int, l: int|
            0 <= k < 9 && 0 <= l < 9 && k != l ==> peers(
                #[trigger] block_cell(start, inc, skip, k),
                #[trigger] block_cell(start, inc, skip, l),
            ),
{
    assert forall|k: int| 0 <= k < 9 implies is_cell(#[trigger] block_cell(start, inc, skip, k)) by {
        lemma_block_cell_unit(start, inc, skip, k);
    }
    assert forall|k: int, l: int| 0 <= k < 9 && 0 <= l < 9 && k != l implies peers(
        #[trigger] block_cell(start, inc, skip, k),
        #[trigger] block_cell(start, inc, skip, l),
    ) by {
        lemma_block_cell_unit(start, inc, skip, k);
        lemma_block_cell_unit(start, inc, skip, l);
    }
}

/// Where the `k`-th cell of a block lies.
pub proof fn lemma_block_cell_unit(start: int, inc: int, skip: int, k: int)
    requires
        is_block(start, inc, skip),
        0 <= k < 9,
    ensures
        is_cell(block_cell(start, inc, skip, k)),
        inc == 1 && skip == 0 ==> block_cell(start, inc, skip, k) == start + k && row_of(
            block_cell(start, inc, skip, k),
        ) == row_of(start),
        inc == 9 ==> block_cell(start, inc, skip, k) == start + 9 * k && col_of(
            block_cell(start, inc, skip, k),
        ) == col_of(start),
        skip == 6 ==> block_cell(start, inc, skip, k) == start + k + 6 * (k / 3) && box_of(
            block_cell(start, inc, skip, k),
        ) == box_of(start),
{
    if inc == 9 {
        assert(k * inc == 9 * k) by (nonlinear_arith)
            requires
                inc == 9,
        ;
        assert((k / 3) * skip == 0) by (nonlinear_arith)
            requires
                skip == 0,
        ;
    } else {
        assert(k * inc == k) by (nonlinear_arith)
            requires
                inc == 1,
        ;
        if skip == 6 {
            assert((k / 3) * skip == 6 * (k / 3)) by (nonlinear_arith)
                requires
                    skip == 6,
            ;
        } else {
            assert((k / 3) * skip == 0) by (nonlinear_arith)
                requires
                    skip == 0,
            ;
        }
    }
}

/// The cell at place `k` of the box of cell `at` lies in that box, at that place.
pub proof fn lemma_box_slot(at: int, k: int)
    requires
        is_cell(at),
        0 <= k < 9,
    ensures
        is_cell(box_origin(at) + (k / 3) * 9 + k % 3),
        box_of(box_origin(at) + (k / 3) * 9 + k % 3) == box_of(at),
        box_slot(box_origin(at) + (k / 3) * 9 + k % 3) == k,
{
    let a = at / 27;
    let b = (at % 9) / 3;
    let r = k / 3;
    let c = k % 3;
    let j = 27 * a + 9 * r + 3 * b + c;
    assert(j == box_origin(at) + (k / 3) * 9 + k % 3);
    assert(j / 27 == a);
    assert(j / 9 == 3 * a + r);
    assert(j % 9 == 3 * b + c);
}

/// A cell is found from the origin of its box and its place in the box.
pub proof fn lemma_box_walk(at: int, j: int)
    requires
        is_cell(at),
        is_cell(j),
        box_of(j) == box_of(at),
    ensures
        0 <= box_slot(j) < 9,
        j == box_origin(at) + (box_slot(j) / 3) * 9 + box_slot(j) % 3,
{
    let a = j / 27;
    let b = (j % 9) / 3;
    let r = (j / 9) % 3;
    let c = (j % 9) % 3;
    assert(j / 9 == 3 * a + r);
    assert(j == 27 * a + 9 * r + 3 * b + c);
    assert(a == at / 27 && b == (at % 9) / 3);
    assert(box_slot(j) == 3 * r + c);
}

/// How a walk over a block gets from one cell to the next.
pub proof fn lemma_block_step(start: int, inc: int, skip: int, k: int)
    requires
        is_block(start, inc, skip),
        0 <= k < 9,
    ensures
        block_cell(start, inc, skip, 0) == start,
        block_cell(start, inc, skip, k + 1) == block_cell(start, inc, skip, k) + inc + if k % 3
            == 2 {
            skip
        } else {
            0
        },
        block_cell(start, inc, skip, k + 1) <= 81 + 9,
{
    assert(0 * inc == 0 && (k + 1) * inc == k * inc + inc) by (nonlinear_arith);
    assert((0int / 3) * skip == 0) by (nonlinear_arith);
    assert(((k + 1) / 3) * skip == (k / 3) * skip + if k % 3 == 2 {
        skip
    } else {
        0
    }) by (nonlinear_arith)
        requires
            0 <= k < 9,
    ;
    lemma_block_cell_unit(start, inc, skip, k);
}

/// In a solution every block holds every digit.
pub proof fn lemma_block_holds_digit(g: Seq<int>, start: int, inc: int, skip: int, d: int)
    requires
        is_solution(g),
        is_block(start, inc, skip),
        is_digit(d),
    ensures
        exists|k: int| 0 <= k < 9 && g[#[trigger] block_cell(start, inc, skip, k)] == d,
{
    broadcast use vstd::seq_lib::group_seq_properties;

    lemma_block_cells(start, inc, skip);
    let s = Seq::new(9, |k: int| g[block_cell(start, inc, skip, k)]);
    assert(s.no_duplicates()) by {
        assert forall|k: int, l: int| 0 <= k < 9 && 0 <= l < 9 && k != l implies s[k] != s[l] by {
            assert(peers(block_cell(start, inc, skip, k), block_cell(start, inc, skip, l)));
        }
    }
    s.unique_seq_to_set();
    lemma_int_range(1, 10);
    let all = set_int_range(1, 10);
    assert(s.to_set().subset_of(all)) by {
        assert forall|v: int| s.to_set().contains(v) implies all.contains(v) by {
            let k = choose|k: int| 0 <= k < s.len() && s[k] == v;
            assert(is_cell(block_cell(start, inc, skip, k)));
        }
    }
    lemma_len_subset(s.to_set(), all);
    lemma_subset_equality(s.to_set(), all);
    assert(all.contains(d));
    assert(s.to_set().contains(d));
    let k = choose|k: int| 0 <= k < s.len() && s[k] == d;
    assert(g[block_cell(start, inc, skip, k)] == d);
}

} // verus!
