//! Resolution of values that fit a single cell of a group.
//!
//! Whenever a cell is the only one in its row, column or block with a
//! particular option, then it must have that value.

use crate::bits::digits;
use crate::board::{board_within, is_board, lemma_cell_coordinates, lemma_within_twice, Sudoku};
use crate::cell::SudokuCell;
use vstd::prelude::*;

verus! {

/// The entries of `group`, in order, whose cell on the board `b` holds `v`.
pub open spec fn holders(b: Seq<Set<int>>, group: Seq<usize>, v: int) -> Seq<usize> {
    group.filter(|c: usize| b[c as int].contains(v))
}

/// Whether `v` is a digit that exactly one entry of `group` holds on the
/// board `b`, and `c` is that entry.
pub open spec fn fixes(b: Seq<Set<int>>, group: Seq<usize>, v: int, c: usize) -> bool {
    &&& 1 <= v <= 9
    &&& holders(b, group, v).len() == 1
    &&& holders(b, group, v)[0] == c
}

/// The greatest digit up to `upto` that fixes the cell `c`, if there is one.
pub open spec fn last_fixed(b: Seq<Set<int>>, group: Seq<usize>, c: usize, upto: int) -> Option<int>
    decreases upto,
{
    if upto <= 0 {
        None
    } else if fixes(b, group, upto, c) {
        Some(upto)
    } else {
        last_fixed(b, group, c, upto - 1)
    }
}

/// The board `b` after the digits up to `upto` that fit a single cell of
/// `group` were written to their cells, in ascending order.
pub open spec fn resolve_upto(b: Seq<Set<int>>, group: Seq<usize>, upto: int) -> Seq<Set<int>> {
    Seq::new(
        b.len(),
        |c: int|
            match last_fixed(b, group, c as usize, upto) {
                Some(v) => set![v],
                None => b[c],
            },
    )
}

/// The board `b` after every digit that fits a single cell of `group` was
/// written to its cell. Where several digits fit the same single cell, the
/// greatest stays.
pub open spec fn resolve_group(b: Seq<Set<int>>, group: Seq<usize>) -> Seq<Set<int>> {
    resolve_upto(b, group, 9)
}

/// The 9 cells of the row `y`, left to right.
pub open spec fn row_cells(y: int) -> Seq<usize> {
    Seq::new(9, |x: int| (y * 9 + x) as usize)
}

/// The 9 cells of the column `x`, top to bottom.
pub open spec fn col_cells(x: int) -> Seq<usize> {
    Seq::new(9, |y: int| (y * 9 + x) as usize)
}

/// The 9 cells of the block `idx`, row by row. Blocks are counted row by
/// row too.
pub open spec fn block_cells(idx: int) -> Seq<usize> {
    Seq::new(9, |i: int| ((idx / 3 * 3 + i / 3) * 9 + idx % 3 * 3 + i % 3) as usize)
}

/// The `k`-th group of a step: the 9 rows, then the 9 columns, then the 9
/// blocks.
pub open spec fn step_group(k: int) -> Seq<usize> {
    if k < 9 {
        row_cells(k)
    } else if k < 18 {
        col_cells(k - 9)
    } else {
        block_cells(k - 18)
    }
}

/// The board after the first `n` groups of a step were resolved, each on the
/// board that the one before left.
pub open spec fn unique_prefix(b: Seq<Set<int>>, n: nat) -> Seq<Set<int>>
    decreases n,
{
    if n == 0 {
        b
    } else {
        resolve_group(unique_prefix(b, (n - 1) as nat), step_group(n - 1))
    }
}

/// Looking at one more entry of the group adds it to the holders of `v` if
/// its cell holds `v`.
proof fn lemma_holders_step(b: Seq<Set<int>>, group: Seq<usize>, k: int, v: int)
    requires
        0 <= k < group.len(),
    ensures
        holders(b, group.take(k + 1), v) == if b[group[k] as int].contains(v) {
            holders(b, group.take(k), v).push(group[k])
        } else {
            holders(b, group.take(k), v)
        },
        holders(b, group.take(k), v).len() <= k,
{
    reveal(Seq::filter);
    assert(group.take(k + 1).drop_last() =~= group.take(k));
    group.take(k).lemma_filter_len(|c: usize| b[c as int].contains(v));
}

/// A digit that fixes a cell is possible in that cell, and the cell belongs
/// to the group.
pub proof fn lemma_fixes_holds(b: Seq<Set<int>>, group: Seq<usize>, v: int, c: usize)
    requires
        fixes(b, group, v, c),
    ensures
        b[c as int].contains(v),
        group.contains(c),
{
    let pred = |c: usize| b[c as int].contains(v);
    group.lemma_filter_pred(pred, 0);
    assert(group.filter(pred).contains(c));
    group.lemma_filter_contains_rev(pred, c);
}

/// Writing the digits that fit a single cell never adds a digit to a cell,
/// and it changes the board exactly if a cell that was not solved is fixed.
pub proof fn lemma_resolve_upto_within(b: Seq<Set<int>>, group: Seq<usize>, upto: int, c: int)
    requires
        0 <= c < b.len(),
        b.len() <= usize::MAX,
        b[c].finite(),
    ensures
        resolve_upto(b, group, upto)[c].subset_of(b[c]),
        b[c].len() == 1 ==> resolve_upto(b, group, upto)[c] == b[c],
        last_fixed(b, group, c as usize, upto) is Some && b[c].len() != 1 ==> resolve_upto(
            b,
            group,
            upto,
        )[c] != b[c],
    decreases upto,
{
    if upto > 0 {
        lemma_resolve_upto_within(b, group, upto - 1, c);
        if fixes(b, group, upto, c as usize) {
            lemma_fixes_holds(b, group, upto, c as usize);
            if b[c].len() == 1 {
                lemma_singleton(b[c], upto);
            }
        }
    }
}

/// Resolving a group never adds a digit to a cell.
pub proof fn lemma_resolve_group_within(b: Seq<Set<int>>, group: Seq<usize>)
    requires
        is_board(b),
    ensures
        board_within(resolve_group(b, group), b),
        is_board(resolve_group(b, group)),
{
    assert forall|c: int| 0 <= c < 81 implies (#[trigger] resolve_group(b, group)[c]).subset_of(
        b[c],
    ) by {
        lemma_resolve_upto_within(b, group, 9, c);
    }
}

/// The boards that a unique-cell step passes through only ever lose digits.
pub proof fn lemma_unique_prefix_within(b: Seq<Set<int>>, n: nat)
    requires
        is_board(b),
    ensures
        board_within(unique_prefix(b, n), b),
        is_board(unique_prefix(b, n)),
    decreases n,
{
    if n > 0 {
        let prev = unique_prefix(b, (n - 1) as nat);
        lemma_unique_prefix_within(b, (n - 1) as nat);
        lemma_resolve_group_within(prev, step_group(n - 1));
        lemma_within_twice(b, prev, unique_prefix(b, n));
    }
}

/// The cells of the row `y` are those whose index divided by 9 is `y`.
pub proof fn lemma_row_members(y: int, c: usize)
    requires
        0 <= y < 9,
    ensures
        row_cells(y).contains(c) <==> c / 9 == y,
{
    assert forall|i: int| 0 <= i < 9 && row_cells(y)[i] == c implies c / 9 == y by {
        lemma_cell_coordinates(y, i);
    }
    if c / 9 == y {
        assert(row_cells(y)[(c % 9) as int] == c);
    }
}

/// The cells of the column `x` are those on the board whose index leaves
/// the remainder `x` when divided by 9.
pub proof fn lemma_col_members(x: int, c: usize)
    requires
        0 <= x < 9,
    ensures
        col_cells(x).contains(c) <==> c < 81 && c % 9 == x,
{
    assert forall|i: int| 0 <= i < 9 && col_cells(x)[i] == c implies c < 81 && c % 9 == x by {
        lemma_cell_coordinates(i, x);
    }
    if c < 81 && c % 9 == x {
        assert(col_cells(x)[(c / 9) as int] == c);
    }
}

/// The cells of the block `idx` are those whose row divided by 3 is `idx / 3`
/// and whose column divided by 3 is `idx % 3`.
pub proof fn lemma_block_members(idx: int, c: usize)
    requires
        0 <= idx < 9,
    ensures
        block_cells(idx).contains(c) <==> c / 27 == idx / 3 && c % 9 / 3 == idx % 3,
{
    let top = idx / 3 * 3;
    let left = idx % 3 * 3;
    assert forall|i: int| 0 <= i < 9 && block_cells(idx)[i] == c implies c / 27 == idx / 3 && c % 9
        / 3 == idx % 3 by {
        lemma_cell_coordinates(top + i / 3, left + i % 3);
    }
    if c / 27 == idx / 3 && c % 9 / 3 == idx % 3 {
        let row = c / 9 - top;
        let col = c % 9 - left;
        assert(0 <= row < 3 && 0 <= col < 3);
        assert((row * 3 + col) / 3 == row && (row * 3 + col) % 3 == col);
        assert(block_cells(idx)[row * 3 + col] == c);
    }
}

/// A finite set of one element is the set of that element.
pub proof fn lemma_singleton(s: Set<int>, v: int)
    requires
        s.finite(),
        s.len() == 1,
        s.contains(v),
    ensures
        s == set![v],
{
    assert(s.remove(v).len() == 0);
    assert forall|w: int| s.contains(w) implies w == v by {
        if w != v {
            assert(s.remove(v).contains(w));
        }
    }
    assert(s =~= set![v]);
}

/// Whether the digit `v` was passed when the ascending list `vals` was read
/// up to position `j`.
spec fn passed(vals: Seq<usize>, j: int, v: int) -> bool {
    j >= vals.len() || v < vals[j]
}

/// Returns the indices of the cells of the row `y`.
pub fn row_iter(y: usize) -> (r: Vec<usize>)
    requires
        y < 9,
    ensures
        r@ == row_cells(y as int),
{
    let mut r: Vec<usize> = Vec::new();
    let mut x: usize = 0;
    while x < 9
        invariant
            y < 9,
            0 <= x <= 9,
            r.len() == x,
            forall|i: int| 0 <= i < x ==> r[i] == row_cells(y as int)[i],
        decreases 9 - x,
    {
        r.push(y * 9 + x);
        x += 1;
    }
    assert(r@ =~= row_cells(y as int));
    r
}

/// Returns the indices of the cells of the column `x`.
pub fn col_iter(x: usize) -> (r: Vec<usize>)
    requires
        x < 9,
    ensures
        r@ == col_cells(x as int),
{
    let mut r: Vec<usize> = Vec::new();
    let mut y: usize = 0;
    while y < 9
        invariant
            x < 9,
            0 <= y <= 9,
            r.len() == y,
            forall|i: int| 0 <= i < y ==> r[i] == col_cells(x as int)[i],
        decreases 9 - y,
    {
        r.push(y * 9 + x);
        y += 1;
    }
    assert(r@ =~= col_cells(x as int));
    r
}

/// Returns the indices of the cells of the block `idx`.
pub fn block_iter(idx: usize) -> (r: Vec<usize>)
    requires
        idx < 9,
    ensures
        r@ == block_cells(idx as int),
{
    let top = (idx / 3) * 3;  // y of block's top-left cell
    let left = (idx % 3) * 3;  // x of block's top-left cell
    let mut r: Vec<usize> = Vec::new();
    let mut y: usize = top;
    while y < top + 3
        invariant
            idx < 9,
            top == idx / 3 * 3,
            left == idx % 3 * 3,
            top <= y <= top + 3,
            r.len() == (y - top) * 3,
            forall|i: int| 0 <= i < r.len() ==> r[i] == block_cells(idx as int)[i],
        decreases top + 3 - y,
    {
        let mut x: usize = left;
        while x < left + 3
            invariant
                idx < 9,
                top == idx / 3 * 3,
                left == idx % 3 * 3,
                top <= y < top + 3,
                left <= x <= left + 3,
                r.len() == (y - top) * 3 + (x - left),
                forall|i: int| 0 <= i < r.len() ==> r[i] == block_cells(idx as int)[i],
            decreases left + 3 - x,
        {
            r.push(y * 9 + x);
            x += 1;
        }
        y += 1;
    }
    assert(r@ =~= block_cells(idx as int));
    r
}

/// Whenever a cell is the only one in its row/column/block with a particular
/// option, then it must have that value.
///
/// This function performs that step for a single row/column/block, given by
/// the indices of its cells, and reports whether a cell changed.
pub fn solve_unique_cell(sudoku: &mut Sudoku, group: Vec<usize>) -> (has_progressed: bool)
    requires
        forall|i: int| 0 <= i < group.len() ==> #[trigger] group[i] < 81,
    ensures
        final(sudoku)@ == resolve_group(old(sudoku)@, group@),
        board_within(final(sudoku)@, old(sudoku)@),
        has_progressed == (final(sudoku)@ != old(sudoku)@),
{
    let ghost before = sudoku@;
    proof {
        sudoku.lemma_view_is_board();
    }
    // First, we find out which value options occur only once.
    let mut counts: [usize; 9] = [0;9];  // maps vals to counts
    let mut idxs: [usize; 9] = [0;9];  // maps vals to idxs
    let mut i: usize = 0;
    proof {
        reveal(Seq::filter);
        assert(group@.take(0) =~= Seq::<usize>::empty());
    }
    while i < group.len()
        invariant
            0 <= i <= group.len(),
            sudoku@ == before,
            is_board(before),
            forall|k: int| 0 <= k < group.len() ==> #[trigger] group[k] < 81,
            forall|k: int|
                0 <= k < 9 ==> #[trigger] counts[k] == holders(
                    before,
                    group@.take(i as int),
                    k + 1,
                ).len(),
            forall|k: int|
                0 <= k < 9 && counts[k] > 0 ==> #[trigger] idxs[k] == holders(
                    before,
                    group@.take(i as int),
                    k + 1,
                ).last(),
        decreases group.len() - i,
    {
        let idx = group[i];
        let vals = sudoku.cell(idx).possible_values();
        let ghost cell = before[idx as int];
        let ghost seen = group@.take(i as int);
        let mut j: usize = 0;
        proof {
            assert forall|v: int| cell.contains(v) implies !passed(vals@, 0, v) by {
                let m = choose|m: int| 0 <= m < vals.len() && vals[m] == v as usize;
                assert(vals[0] <= vals[m]);
            }
        }
        while j < vals.len()
            invariant
                0 <= j <= vals.len(),
                0 <= i < group.len(),
                idx == group[i as int],
                idx < 81,
                cell == before[idx as int],
                cell.subset_of(digits()),
                seen == group@.take(i as int),
                forall|a: int, b: int| 0 <= a < b < vals.len() ==> vals[a] < vals[b],
                forall|a: int| 0 <= a < vals.len() ==> cell.contains(#[trigger] vals[a] as int),
                forall|v: int| cell.contains(v) ==> vals@.contains(v as usize),
                forall|k: int|
                    0 <= k < 9 ==> #[trigger] counts[k] == holders(before, seen, k + 1).len() + (if cell.contains(
                        k + 1,
                    ) && passed(vals@, j as int, k + 1) {
                        1int
                    } else {
                        0int
                    }),
                forall|k: int|
                    0 <= k < 9 && cell.contains(k + 1) && passed(vals@, j as int, k + 1)
                        ==> #[trigger] idxs[k] == idx,
                forall|k: int|
                    0 <= k < 9 && !(cell.contains(k + 1) && passed(vals@, j as int, k + 1))
                        && counts[k] > 0 ==> #[trigger] idxs[k] == holders(before, seen, k + 1).last(),
            decreases vals.len() - j,
        {
            let val = vals[j];
            proof {
                assert(cell.contains(vals[j as int] as int));
                lemma_holders_step(before, group@, i as int, val as int);
                assert forall|v: int|
                    cell.contains(v) && 1 <= v <= 9 implies (passed(vals@, j + 1, v) == (passed(
                        vals@,
                        j as int,
                        v,
                    ) || v == val)) by {
                    let m = choose|m: int| 0 <= m < vals.len() && vals[m] == v as usize;
                    if m < j {
                        assert(vals[m] < vals[j as int]);
                    } else if m > j {
                        assert(vals[j as int] < vals[m]);
                        if m > j + 1 {
                            assert(vals[j + 1] < vals[m]);
                        }
                    } else if j + 1 < vals.len() {
                        assert(vals[j as int] < vals[j + 1]);
                    }
                }
            }
            counts[val - 1] = counts[val - 1] + 1;
            idxs[val - 1] = idx;
            j += 1;
        }
        proof {
            assert forall|k: int| 0 <= k < 9 implies #[trigger] counts[k] == holders(
                before,
                group@.take(i + 1),
                k + 1,
            ).len() && (counts[k] > 0 ==> idxs[k] == holders(before, group@.take(i + 1), k + 1).last()) by {
                lemma_holders_step(before, group@, i as int, k + 1);
            }
        }
        i += 1;
    }
    proof {
        assert(group@.take(group.len() as int) =~= group@);
    }
    // Then, for the values that occur only once, we solve its cell
    let mut has_progressed = false;
    let mut val: usize = 1;
    proof {
        assert(sudoku@ =~= resolve_upto(before, group@, 0));
    }
    while val <= 9
        invariant
            1 <= val <= 10,
            is_board(before),
            forall|k: int| 0 <= k < group.len() ==> #[trigger] group[k] < 81,
            forall|k: int|
                0 <= k < 9 ==> #[trigger] counts[k] == holders(before, group@, k + 1).len(),
            forall|k: int|
                0 <= k < 9 && counts[k] > 0 ==> #[trigger] idxs[k] == holders(
                    before,
                    group@,
                    k + 1,
                ).last(),
            sudoku@ == resolve_upto(before, group@, val - 1),
            has_progressed == (sudoku@ != before),
        decreases 10 - val,
    {
        let ghost current = sudoku@;
        if counts[val - 1] == 1 {
            let idx = idxs[val - 1];
            proof {
                assert(fixes(before, group@, val as int, idx));
                lemma_fixes_holds(before, group@, val as int, idx);
                let m = choose|m: int| 0 <= m < group.len() && group[m] == idx;
                assert(group[m] < 81);
                lemma_resolve_upto_within(before, group@, val - 1, idx as int);
                lemma_resolve_upto_within(before, group@, val as int, idx as int);
            }
            // if it was already solved, solving it again doesn't count as progress
            has_progressed = has_progressed || !sudoku.cell(idx).is_solved();
            sudoku.set_cell(idx, SudokuCell::new_const(val));
            proof {
                assert(sudoku@ =~= resolve_upto(before, group@, val as int));
                if before[idx as int].len() == 1 {
                    assert(sudoku@ =~= current);
                }
            }
        } else {
            proof {
                assert(sudoku@ =~= resolve_upto(before, group@, val as int));
            }
        }
        val += 1;
    }
    proof {
        assert forall|c: int| 0 <= c < 81 implies (#[trigger] sudoku@[c]).subset_of(before[c]) by {
            lemma_resolve_upto_within(before, group@, 9, c);
        }
    }
    has_progressed
}

/// Whenever a cell is the only one in its row/column/block with a particular
/// option, then it must have that value.
///
/// Performs one iteration over all rows, columns, and blocks, and reports
/// whether a cell changed.
pub fn solve_unique_cells(sudoku: &mut Sudoku) -> (has_progressed: bool)
    ensures
        final(sudoku)@ == unique_prefix(old(sudoku)@, 27),
        board_within(final(sudoku)@, old(sudoku)@),
        has_progressed == (final(sudoku)@ != old(sudoku)@),
{
    let ghost before = sudoku@;
    let mut has_progressed = false;
    let mut y: usize = 0;
    while y < 9
        invariant
            0 <= y <= 9,
            board_within(sudoku@, before),
            sudoku@ == unique_prefix(before, y as nat),
            has_progressed == (sudoku@ != before),
        decreases 9 - y,
    {
        let ghost current = sudoku@;
        let p = solve_unique_cell(sudoku, row_iter(y));
        proof {
            lemma_within_twice(before, current, sudoku@);
        }
        has_progressed = p || has_progressed;
        y += 1;
    }
    let mut x: usize = 0;
    while x < 9
        invariant
            0 <= x <= 9,
            board_within(sudoku@, before),
            sudoku@ == unique_prefix(before, (9 + x) as nat),
            has_progressed == (sudoku@ != before),
        decreases 9 - x,
    {
        let ghost current = sudoku@;
        let p = solve_unique_cell(sudoku, col_iter(x));
        proof {
            lemma_within_twice(before, current, sudoku@);
        }
        has_progressed = p || has_progressed;
        x += 1;
    }
    let mut block_idx: usize = 0;
    while block_idx < 9
        invariant
            0 <= block_idx <= 9,
            board_within(sudoku@, before),
            sudoku@ == unique_prefix(before, (18 + block_idx) as nat),
            has_progressed == (sudoku@ != before),
        decreases 9 - block_idx,
    {
        let ghost current = sudoku@;
        let p = solve_unique_cell(sudoku, block_iter(block_idx));
        proof {
            lemma_within_twice(before, current, sudoku@);
        }
        has_progressed = p || has_progressed;
        block_idx += 1;
    }
    has_progressed
}

} // verus!
