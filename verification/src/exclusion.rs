//! Exclusion around three-cell fragments.
//!
//! A value that cannot stand outside a fragment on its line, or outside it in
//! its block, must stand inside the fragment. Such a value is taken out of the
//! candidate sets of all the cells that the fragment influences.

use crate::bits::{
    digits, lemma_digits_len, lemma_mask_bounds, lemma_values_constants, lemma_values_or,
    lemma_values_outside, mask_count, mask_values, ALL_VALUES,
};
use crate::board::{board_within, is_board, lemma_within_both, lemma_within_twice, Sudoku};
use crate::fragment::{spec_ext_cells, ColFragment, RowFragment, ThreeCellFragment};
use vstd::prelude::*;
use vstd::set_lib::lemma_len_subset;

verus! {

/// Why propagation gave up on a board.
#[derive(Clone, Copy, Debug, PartialEq, Eq, Structural)]
pub enum Error {
    /// More than three values would have to stand in one three-cell fragment.
    Unsolvable,
}

/// The digits that are possible in at least one of the cells `cells` of `b`.
pub open spec fn possible_in(b: Seq<Set<int>>, cells: Seq<usize>) -> Set<int> {
    Set::new(|v: int| exists|i: int| 0 <= i < cells.len() && (#[trigger] b[cells[i] as int]).contains(v))
}

/// The digits to which one of the cells `cells` of `b` is solved.
pub open spec fn solved_in(b: Seq<Set<int>>, cells: Seq<usize>) -> Set<int> {
    Set::new(
        |v: int|
            exists|i: int|
                0 <= i < cells.len() && (#[trigger] b[cells[i] as int]).len() == 1
                    && b[cells[i] as int].contains(v),
    )
}

/// The digits that must stand inside the fragment `frag` on the board `b`:
/// those that are impossible in the rest of its line, or impossible in the
/// rest of its block, or to which one of its cells is solved.
pub open spec fn forced_values<F: ThreeCellFragment>(b: Seq<Set<int>>, frag: &F) -> Set<int> {
    Set::new(
        |v: int|
            1 <= v <= 9 && (!possible_in(b, frag.spec_ext_adjacent_cells()).contains(v)
                || !possible_in(b, frag.spec_ext_block_cells()).contains(v) || solved_in(
                b,
                frag.spec_cells(),
            ).contains(v)),
    )
}

/// The board `b` with `values` taken out of the cells `cells`.
pub open spec fn exclude(b: Seq<Set<int>>, cells: Seq<usize>, values: Set<int>) -> Seq<Set<int>> {
    Seq::new(
        b.len(),
        |c: int|
            if cells.contains(c as usize) {
                b[c].difference(values)
            } else {
                b[c]
            },
    )
}

/// One exclusion pass over the fragment `frag`: `None` where more than three
/// values are forced into the fragment, else the board without the forced
/// values in the cells that the fragment influences.
pub open spec fn frag_pass<F: ThreeCellFragment>(b: Seq<Set<int>>, frag: &F) -> Option<
    Seq<Set<int>>,
> {
    if forced_values(b, frag).len() > 3 {
        None
    } else {
        Some(exclude(b, spec_ext_cells(frag), forced_values(b, frag)))
    }
}

/// Taking one more cell into account adds its digits.
proof fn lemma_possible_in_step(b: Seq<Set<int>>, cells: Seq<usize>, k: int)
    requires
        0 <= k < cells.len(),
    ensures
        possible_in(b, cells.take(k + 1)) == possible_in(b, cells.take(k)).union(
            b[cells[k] as int],
        ),
{
    let more = cells.take(k + 1);
    let less = cells.take(k);
    let l = possible_in(b, more);
    let r = possible_in(b, less).union(b[cells[k] as int]);
    assert forall|v: int| l.contains(v) == r.contains(v) by {
        if l.contains(v) {
            let i = choose|i: int| 0 <= i < more.len() && (#[trigger] b[more[i] as int]).contains(v);
            if i < k {
                assert(b[less[i] as int].contains(v));
            }
        }
        if possible_in(b, less).contains(v) {
            let i = choose|i: int| 0 <= i < less.len() && (#[trigger] b[less[i] as int]).contains(v);
            assert(b[more[i] as int].contains(v));
        }
        if b[cells[k] as int].contains(v) {
            assert(b[more[k] as int].contains(v));
        }
    }
    assert(l =~= r);
}

/// Taking one more cell into account adds its digit if it is solved.
proof fn lemma_solved_in_step(b: Seq<Set<int>>, cells: Seq<usize>, k: int)
    requires
        0 <= k < cells.len(),
    ensures
        solved_in(b, cells.take(k + 1)) == if b[cells[k] as int].len() == 1 {
            solved_in(b, cells.take(k)).union(b[cells[k] as int])
        } else {
            solved_in(b, cells.take(k))
        },
{
    let more = cells.take(k + 1);
    let less = cells.take(k);
    let l = solved_in(b, more);
    let r = if b[cells[k] as int].len() == 1 {
        solved_in(b, less).union(b[cells[k] as int])
    } else {
        solved_in(b, less)
    };
    assert forall|v: int| l.contains(v) == r.contains(v) by {
        if l.contains(v) {
            let i = choose|i: int|
                0 <= i < more.len() && (#[trigger] b[more[i] as int]).len() == 1
                    && b[more[i] as int].contains(v);
            if i < k {
                assert(b[less[i] as int].len() == 1 && b[less[i] as int].contains(v));
            }
        }
        if solved_in(b, less).contains(v) {
            let i = choose|i: int|
                0 <= i < less.len() && (#[trigger] b[less[i] as int]).len() == 1
                    && b[less[i] as int].contains(v);
            assert(b[more[i] as int].len() == 1 && b[more[i] as int].contains(v));
        }
        if b[cells[k] as int].len() == 1 && b[cells[k] as int].contains(v) {
            assert(b[more[k] as int].len() == 1 && b[more[k] as int].contains(v));
        }
    }
    assert(l =~= r);
}

/// Taking values out of cells changes the board exactly if one of the cells
/// holds one of the values. It never adds a digit to a cell.
pub proof fn lemma_exclude_changes(b: Seq<Set<int>>, cells: Seq<usize>, values: Set<int>)
    requires
        b.len() <= usize::MAX,
        forall|i: int| 0 <= i < cells.len() ==> #[trigger] cells[i] < b.len(),
    ensures
        board_within(exclude(b, cells, values), b),
        (exclude(b, cells, values) != b) == (exists|i: int|
            0 <= i < cells.len() && !(#[trigger] b[cells[i] as int]).disjoint(values)),
        is_board(b) ==> is_board(exclude(b, cells, values)),
{
    let e = exclude(b, cells, values);
    if exists|i: int| 0 <= i < cells.len() && !(#[trigger] b[cells[i] as int]).disjoint(values) {
        let i = choose|i: int|
            0 <= i < cells.len() && !(#[trigger] b[cells[i] as int]).disjoint(values);
        let c = cells[i] as int;
        let v = choose|v: int| b[c].contains(v) && values.contains(v);
        assert(cells.contains(c as usize));
        assert(!e[c].contains(v));
        assert(e[c] != b[c]);
    } else {
        assert forall|c: int| 0 <= c < b.len() implies e[c] == b[c] by {
            if cells.contains(c as usize) {
                let i = choose|i: int| 0 <= i < cells.len() && cells[i] == c as usize;
                assert(b[cells[i] as int].disjoint(values));
                assert(b[c].difference(values) =~= b[c]);
            }
        }
        assert(e =~= b);
    }
}

/// At most nine values are forced into a fragment, all of them digits.
pub proof fn lemma_forced_values_bounded<F: ThreeCellFragment>(b: Seq<Set<int>>, frag: &F)
    ensures
        forced_values(b, frag).subset_of(digits()),
        forced_values(b, frag).finite(),
        forced_values(b, frag).len() <= 9,
{
    lemma_digits_len();
    lemma_len_subset(forced_values(b, frag), digits());
}

/// A pass over a fragment never adds a digit to a cell, and it leaves the
/// cells of the fragment itself as they are.
pub proof fn lemma_frag_pass_within<F: ThreeCellFragment>(b: Seq<Set<int>>, frag: &F)
    requires
        frag.wf(),
        b.len() == 81,
    ensures
        frag_pass(b, frag) matches Some(c) ==> {
            &&& board_within(c, b)
            &&& (is_board(b) ==> is_board(c))
            &&& forall|i: int| 0 <= i < 3 ==> c[#[trigger] frag.spec_cells()[i] as int] == b[frag.spec_cells()[i] as int]
        },
{
    frag.lemma_layout();
    let ext = spec_ext_cells(frag);
    let all = frag.spec_cells() + frag.spec_ext_adjacent_cells() + frag.spec_ext_block_cells();
    assert forall|i: int| 0 <= i < ext.len() implies #[trigger] ext[i] < b.len() by {
        if i < 6 {
            assert(ext[i] == frag.spec_ext_adjacent_cells()[i]);
        } else {
            assert(ext[i] == frag.spec_ext_block_cells()[i - 6]);
        }
    }
    lemma_exclude_changes(b, ext, forced_values(b, frag));
    assert forall|i: int| 0 <= i < 3 implies !ext.contains(#[trigger] frag.spec_cells()[i]) by {
        if ext.contains(frag.spec_cells()[i]) {
            let j = choose|j: int| 0 <= j < ext.len() && ext[j] == frag.spec_cells()[i];
            assert(all[i] == frag.spec_cells()[i]);
            assert(all[j + 3] == ext[j]);
        }
    }
}

/// A second pass over the same fragment, right after the first, changes
/// nothing.
pub proof fn lemma_frag_pass_idempotent<F: ThreeCellFragment>(b: Seq<Set<int>>, frag: &F)
    requires
        frag.wf(),
        b.len() == 81,
    ensures
        frag_pass(b, frag) matches Some(c) ==> frag_pass(c, frag) == Some(c),
{
    if frag_pass(b, frag) is Some {
        let forced = forced_values(b, frag);
        let adjacent = frag.spec_ext_adjacent_cells();
        let block = frag.spec_ext_block_cells();
        let ext = spec_ext_cells(frag);
        let c = exclude(b, ext, forced);
        frag.lemma_layout();
        lemma_frag_pass_within(b, frag);
        assert forall|i: int| 0 <= i < 6 implies c[#[trigger] adjacent[i] as int] == b[adjacent[i] as int].difference(
            forced,
        ) by {
            assert(ext[i] == adjacent[i]);
        }
        assert forall|i: int| 0 <= i < 6 implies c[#[trigger] block[i] as int] == b[block[i] as int].difference(
            forced,
        ) by {
            assert(ext[i + 6] == block[i]);
        }
        assert forall|v: int| forced_values(c, frag).contains(v) == forced.contains(v) by {
            lemma_possible_in_excluded(b, c, adjacent, forced, v);
            lemma_possible_in_excluded(b, c, block, forced, v);
            lemma_solved_in_same(b, c, frag.spec_cells(), v);
        }
        assert(forced_values(c, frag) =~= forced);
        assert forall|i: int| 0 <= i < 81 implies exclude(c, ext, forced)[i] == c[i] by {
            if ext.contains(i as usize) {
                assert(b[i].difference(forced).difference(forced) =~= b[i].difference(forced));
            }
        }
        assert(exclude(c, ext, forced) =~= c);
    }
}

/// Where `values` were taken out of all the cells `cells`, a value is
/// possible among them exactly if it was before and is none of `values`.
proof fn lemma_possible_in_excluded(
    b: Seq<Set<int>>,
    c: Seq<Set<int>>,
    cells: Seq<usize>,
    values: Set<int>,
    v: int,
)
    requires
        forall|i: int|
            0 <= i < cells.len() ==> c[#[trigger] cells[i] as int] == b[cells[i] as int].difference(
                values,
            ),
    ensures
        possible_in(c, cells).contains(v) == (possible_in(b, cells).contains(v) && !values.contains(
            v,
        )),
{
    if possible_in(c, cells).contains(v) {
        let i = choose|i: int| 0 <= i < cells.len() && (#[trigger] c[cells[i] as int]).contains(v);
        assert(c[cells[i] as int] == b[cells[i] as int].difference(values));
        assert(b[cells[i] as int].contains(v));
    }
    if possible_in(b, cells).contains(v) && !values.contains(v) {
        let i = choose|i: int| 0 <= i < cells.len() && (#[trigger] b[cells[i] as int]).contains(v);
        assert(c[cells[i] as int] == b[cells[i] as int].difference(values));
        assert(c[cells[i] as int].contains(v));
    }
}

/// Two boards that agree on the cells `cells` have the same solved values
/// among them.
proof fn lemma_solved_in_same(b: Seq<Set<int>>, c: Seq<Set<int>>, cells: Seq<usize>, v: int)
    requires
        forall|i: int| 0 <= i < cells.len() ==> c[#[trigger] cells[i] as int] == b[cells[i] as int],
    ensures
        solved_in(c, cells).contains(v) == solved_in(b, cells).contains(v),
{
    if solved_in(c, cells).contains(v) {
        let i = choose|i: int|
            0 <= i < cells.len() && (#[trigger] c[cells[i] as int]).len() == 1
                && c[cells[i] as int].contains(v);
        assert(c[cells[i] as int] == b[cells[i] as int]);
        assert(b[cells[i] as int].len() == 1 && b[cells[i] as int].contains(v));
    }
    if solved_in(b, cells).contains(v) {
        let i = choose|i: int|
            0 <= i < cells.len() && (#[trigger] b[cells[i] as int]).len() == 1
                && b[cells[i] as int].contains(v);
        assert(c[cells[i] as int] == b[cells[i] as int]);
        assert(c[cells[i] as int].len() == 1 && c[cells[i] as int].contains(v));
    }
}

impl Sudoku {
    /// Returns a bitmask of the values that are possible in at least one of
    /// the cells `cells`.
    fn possible_mask(&self, cells: &Vec<usize>) -> (m: usize)
        requires
            forall|i: int| 0 <= i < cells.len() ==> #[trigger] cells[i] < 81,
        ensures
            mask_values(m) == possible_in(self@, cells@),
            m <= ALL_VALUES,
    {
        let mut m: usize = 0;
        let mut k: usize = 0;
        proof {
            lemma_values_constants();
            assert(possible_in(self@, cells@.take(0)) =~= Set::<int>::empty());
        }
        while k < cells.len()
            invariant
                0 <= k <= cells.len(),
                forall|i: int| 0 <= i < cells.len() ==> #[trigger] cells[i] < 81,
                mask_values(m) == possible_in(self@, cells@.take(k as int)),
                m <= ALL_VALUES,
            decreases cells.len() - k,
        {
            let bits = self.cell(cells[k]).bits();
            proof {
                lemma_values_or(m, bits);
                lemma_mask_bounds(m, bits, 0);
                lemma_possible_in_step(self@, cells@, k as int);
            }
            m = m | bits;
            k += 1;
        }
        proof {
            assert(cells@.take(cells.len() as int) =~= cells@);
        }
        m
    }

    /// Returns a bitmask of values that necessarily exist in the 3-cell
    /// fragment (i.e., because they are impossible outside it).
    pub fn frag_necessary<F: ThreeCellFragment>(&self, frag: &F) -> (m: usize)
        requires
            frag.wf(),
        ensures
            mask_values(m) == forced_values(self@, frag),
            m <= ALL_VALUES,
    {
        proof {
            frag.lemma_layout();
        }
        // values that are possible outside our fragment, on its line
        let line_ext_possible = self.possible_mask(&frag.ext_adjacent_cells());
        // values that are possible outside our fragment, in the block
        let block_ext_possible = self.possible_mask(&frag.ext_block_cells());
        let solved = self.frag_solutions(frag);
        proof {
            lemma_values_outside(line_ext_possible, block_ext_possible, solved);
            lemma_mask_bounds(!line_ext_possible | !block_ext_possible | solved, 0, 0);
            assert(mask_values((!line_ext_possible | !block_ext_possible | solved) & ALL_VALUES)
                =~= forced_values(self@, frag));
        }
        // things that are impossible outside our fragment surely have to be
        // inside our fragment.
        (!line_ext_possible | !block_ext_possible | solved) & ALL_VALUES
    }

    /// Returns a bitmask with bits set for solved cells within the fragment.
    pub fn frag_solutions<F: ThreeCellFragment>(&self, frag: &F) -> (m: usize)
        requires
            frag.wf(),
        ensures
            mask_values(m) == solved_in(self@, frag.spec_cells()),
            m <= ALL_VALUES,
    {
        let cells = frag.cells();
        let mut m: usize = 0;
        let mut k: usize = 0;
        proof {
            frag.lemma_layout();
            lemma_values_constants();
            assert(solved_in(self@, cells@.take(0)) =~= Set::<int>::empty());
        }
        while k < cells.len()
            invariant
                0 <= k <= cells.len(),
                forall|i: int| 0 <= i < cells.len() ==> #[trigger] cells[i] < 81,
                mask_values(m) == solved_in(self@, cells@.take(k as int)),
                m <= ALL_VALUES,
            decreases cells.len() - k,
        {
            let cell = self.cell(cells[k]);
            proof {
                lemma_solved_in_step(self@, cells@, k as int);
            }
            if cell.is_solved() {
                let bits = cell.bits();
                proof {
                    lemma_values_or(m, bits);
                    lemma_mask_bounds(m, bits, 0);
                }
                m = m | bits;
            }
            k += 1;
        }
        proof {
            assert(cells@.take(cells.len() as int) =~= cells@);
        }
        m
    }
}

/// Find values that necessarily exist in a 3-cell fragment, and exclude
/// those from the other fragments in the same block and row/col (for row/col
/// fragments, respectively).
///
/// Fails, and leaves the board as it is, where more than 3 values would have
/// to stand in the fragment. Otherwise reports whether a candidate was taken
/// out of any cell.
pub fn frag_exclusions<F: ThreeCellFragment>(sudoku: &mut Sudoku, frag: &F) -> (r: Result<
    bool,
    Error,
>)
    requires
        frag.wf(),
    ensures
        board_within(final(sudoku)@, old(sudoku)@),
        match r {
            Ok(has_progressed) => {
                &&& frag_pass(old(sudoku)@, frag) == Some(final(sudoku)@)
                &&& has_progressed == (final(sudoku)@ != old(sudoku)@)
            },
            Err(Error::Unsolvable) => {
                &&& frag_pass(old(sudoku)@, frag) is None
                &&& final(sudoku)@ == old(sudoku)@
            },
        },
{
    // A bitmask, set for values that must be in the fragment.
    let frag_necessary = sudoku.frag_necessary(frag);

    // If more than 3 values are necessary in a 3-cell fragment, surely it's
    // unsolvable.
    if mask_count(frag_necessary) > 3 {
        return Err(Error::Unsolvable);
    }
    let ghost before = sudoku@;
    let ghost forced = mask_values(frag_necessary);
    let ext = frag.ext_cells();
    let mut has_progressed = false;
    let mut k: usize = 0;
    proof {
        frag.lemma_layout();
        assert(sudoku@ =~= exclude(before, ext@.take(0), forced));
    }
    // Iterate over the cells influenced by our fragment
    //   (i.e., in the same block and row/column)
    while k < ext.len()
        invariant
            0 <= k <= ext.len(),
            before.len() == 81,
            forall|i: int| 0 <= i < ext.len() ==> #[trigger] ext[i] < 81,
            forced == mask_values(frag_necessary),
            sudoku@ == exclude(before, ext@.take(k as int), forced),
            has_progressed == (exists|i: int|
                0 <= i < k && !(#[trigger] before[ext[i] as int]).disjoint(forced)),
        decreases ext.len() - k,
    {
        // The values that are necessary in our fragment, are impossible in
        // its influenced cells. So remove those options.
        let cell_idx = ext[k];
        let cell = sudoku.cell(cell_idx);
        let ghost done = ext@.take(k as int);
        proof {
            if done.contains(cell_idx) {
                assert(cell@ == before[cell_idx as int].difference(forced));
                assert(cell@.disjoint(forced));
                assert(cell@.difference(forced) =~= cell@);
                let i = choose|i: int| 0 <= i < done.len() && done[i] == cell_idx;
                assert(ext[i] == cell_idx);
            } else {
                assert(cell@ == before[cell_idx as int]);
            }
        }
        if cell.meets(frag_necessary) {
            has_progressed = true;
        }
        sudoku.set_cell(cell_idx, cell.without(frag_necessary));
        proof {
            let more = ext@.take(k + 1);
            assert(more[k as int] == cell_idx);
            assert forall|c: int| 0 <= c < 81 implies sudoku@[c] == exclude(before, more, forced)[c] by {
                if c == cell_idx {
                    assert(more.contains(c as usize));
                } else if done.contains(c as usize) {
                    let i = choose|i: int| 0 <= i < done.len() && done[i] == c as usize;
                    assert(more[i] == c as usize);
                } else if more.contains(c as usize) {
                    let i = choose|i: int| 0 <= i < more.len() && more[i] == c as usize;
                    assert(done[i] == c as usize);
                }
            }
            assert(sudoku@ =~= exclude(before, more, forced));
        }
        k += 1;
    }
    proof {
        assert(ext@.take(ext.len() as int) =~= ext@);
        lemma_exclude_changes(before, ext@, forced);
    }
    Ok(has_progressed)
}

/// The pass over the `k`-th fragment of an exclusion step. A step takes the
/// 27 row fragments row by row, then the 27 column fragments column by column.
pub open spec fn step_pass(b: Seq<Set<int>>, k: int) -> Option<Seq<Set<int>>> {
    if k < 27 {
        frag_pass(b, &RowFragment { y: (k / 3) as usize, frag_x: (k % 3) as usize })
    } else {
        frag_pass(b, &ColFragment { x: ((k - 27) / 3) as usize, frag_y: ((k - 27) % 3) as usize })
    }
}

/// The board after the passes over the first `n` fragments of an exclusion
/// step, each on the board that the one before left; `None` where one of
/// them met a contradiction.
pub open spec fn exclusion_prefix(b: Seq<Set<int>>, n: nat) -> Option<Seq<Set<int>>>
    decreases n,
{
    if n == 0 {
        Some(b)
    } else {
        match exclusion_prefix(b, (n - 1) as nat) {
            Some(prev) => step_pass(prev, n - 1),
            None => None,
        }
    }
}

/// Whether an exclusion step on the board `b` stops at a contradiction and
/// leaves the board `stuck`: the board that the fragments before the
/// contradicting one left.
pub open spec fn exclusion_stops(b: Seq<Set<int>>, stuck: Seq<Set<int>>) -> bool {
    exists|k: int|
        0 <= k < 54 && #[trigger] exclusion_prefix(b, k as nat) == Some(stuck) && step_pass(
            stuck,
            k,
        ) is None
}

/// Once a contradiction was met, the rest of the step is not run.
pub proof fn lemma_exclusion_prefix_fails(b: Seq<Set<int>>, k: nat, n: nat)
    requires
        k <= n,
        exclusion_prefix(b, k) is None,
    ensures
        exclusion_prefix(b, n) is None,
    decreases n,
{
    if k < n {
        lemma_exclusion_prefix_fails(b, k, (n - 1) as nat);
    }
}

/// A pass over the `k`-th fragment of a step never adds a digit to a cell.
pub proof fn lemma_step_pass_within(b: Seq<Set<int>>, k: int)
    requires
        b.len() == 81,
        0 <= k < 54,
    ensures
        step_pass(b, k) matches Some(c) ==> board_within(c, b) && (is_board(b) ==> is_board(c)),
{
    if k < 27 {
        lemma_frag_pass_within(b, &RowFragment { y: (k / 3) as usize, frag_x: (k % 3) as usize });
    } else {
        lemma_frag_pass_within(
            b,
            &ColFragment { x: ((k - 27) / 3) as usize, frag_y: ((k - 27) % 3) as usize },
        );
    }
}

/// The boards that an exclusion step passes through only ever lose digits:
/// the board after `n` fragments lies within the board after `m <= n`
/// fragments, which lies within the board at the start.
pub proof fn lemma_exclusion_prefix_within(b: Seq<Set<int>>, m: nat, n: nat)
    requires
        b.len() == 81,
        m <= n <= 54,
    ensures
        exclusion_prefix(b, n) matches Some(c) ==> {
            &&& exclusion_prefix(b, m) matches Some(d)
            &&& board_within(c, d)
            &&& board_within(d, b)
            &&& (is_board(b) ==> is_board(c))
        },
    decreases n,
{
    if n > 0 && exclusion_prefix(b, n) is Some {
        let prev = exclusion_prefix(b, (n - 1) as nat).unwrap();
        lemma_exclusion_prefix_within(b, 0, (n - 1) as nat);
        lemma_step_pass_within(prev, n - 1);
        if m < n {
            lemma_exclusion_prefix_within(b, m, (n - 1) as nat);
        }
    }
}

/// An exclusion step leaves a board as it is exactly if the pass over each
/// of the 54 fragments, taken by itself, leaves it as it is.
pub proof fn lemma_exclusion_at_rest(b: Seq<Set<int>>)
    requires
        b.len() == 81,
    ensures
        exclusion_prefix(b, 54) == Some(b) <==> forall|k: int|
            0 <= k < 54 ==> #[trigger] step_pass(b, k) == Some(b),
{
    if exclusion_prefix(b, 54) == Some(b) {
        assert forall|k: int| 0 <= k < 54 implies #[trigger] step_pass(b, k) == Some(b) by {
            lemma_exclusion_prefix_within(b, k as nat, 54);
            lemma_exclusion_prefix_within(b, (k + 1) as nat, 54);
            let d = exclusion_prefix(b, k as nat).unwrap();
            let e = exclusion_prefix(b, (k + 1) as nat).unwrap();
            lemma_within_both(b, d);
            lemma_within_both(b, e);
        }
    }
    if forall|k: int| 0 <= k < 54 ==> #[trigger] step_pass(b, k) == Some(b) {
        lemma_exclusion_prefix_still(b, 54);
    }
}

/// Where no fragment changes the board, no number of fragments does.
proof fn lemma_exclusion_prefix_still(b: Seq<Set<int>>, n: nat)
    requires
        n <= 54,
        forall|k: int| 0 <= k < 54 ==> #[trigger] step_pass(b, k) == Some(b),
    ensures
        exclusion_prefix(b, n) == Some(b),
    decreases n,
{
    if n > 0 {
        lemma_exclusion_prefix_still(b, (n - 1) as nat);
        assert(step_pass(b, n - 1) == Some(b));
    }
}

/// An exclusion step that made no progress makes none when it is run again
/// at once: the second step meets no contradiction and leaves the board as
/// it is.
pub proof fn lemma_exclusion_step_twice(b: Seq<Set<int>>, once: Seq<Set<int>>)
    requires
        exclusion_prefix(b, 54) == Some(once),
        once == b,
    ensures
        exclusion_prefix(once, 54) == Some(once),
{
}

/// Perform a single iteration of excluding outside all 3-cell row/col
/// fragments.
///
/// Values that necessarily exist in a 3-cell row (or column) fragment, cannot
/// be solutions for its influenced cells (i.e., in the same block and
/// row/col). The step stops at the first fragment into which more than 3
/// values are forced; what earlier fragments took out stays out.
pub fn exclusion_step(sudoku: &mut Sudoku) -> (r: Result<bool, Error>)
    ensures
        board_within(final(sudoku)@, old(sudoku)@),
        match r {
            Ok(has_progressed) => {
                &&& exclusion_prefix(old(sudoku)@, 54) == Some(final(sudoku)@)
                &&& has_progressed == (final(sudoku)@ != old(sudoku)@)
            },
            Err(Error::Unsolvable) => {
                &&& exclusion_prefix(old(sudoku)@, 54) is None
                &&& exclusion_stops(old(sudoku)@, final(sudoku)@)
            },
        },
{
    let ghost before = sudoku@;
    let mut has_progressed = false;
    let mut y: usize = 0;
    while y < 9
        invariant
            0 <= y <= 9,
            before == old(sudoku)@,
            board_within(sudoku@, before),
            exclusion_prefix(before, (y * 3) as nat) == Some(sudoku@),
            has_progressed == (sudoku@ != before),
        decreases 9 - y,
    {
        let mut frag_x: usize = 0;
        while frag_x < 3
            invariant
                0 <= y < 9,
                0 <= frag_x <= 3,
                before == old(sudoku)@,
                board_within(sudoku@, before),
                exclusion_prefix(before, (y * 3 + frag_x) as nat) == Some(sudoku@),
                has_progressed == (sudoku@ != before),
            decreases 3 - frag_x,
        {
            let ghost current = sudoku@;
            let ghost k = (y * 3 + frag_x) as int;
            let frag = RowFragment { y, frag_x };
            assert(frag == RowFragment { y: (k / 3) as usize, frag_x: (k % 3) as usize });
            match frag_exclusions(sudoku, &frag) {
                Ok(p) => {
                    proof {
                        lemma_within_twice(before, current, sudoku@);
                    }
                    has_progressed = p || has_progressed;
                },
                Err(e) => {
                    proof {
                        assert(sudoku@ == current);
                        assert(exclusion_prefix(before, k as nat) == Some(current));
                        assert(step_pass(current, k) is None);
                        assert(exclusion_prefix(before, (k + 1) as nat) is None);
                        lemma_exclusion_prefix_fails(before, (k + 1) as nat, 54);
                    }
                    return Err(e);
                },
            }
            frag_x += 1;
        }
        y += 1;
    }
    let mut x: usize = 0;
    while x < 9
        invariant
            0 <= x <= 9,
            before == old(sudoku)@,
            board_within(sudoku@, before),
            exclusion_prefix(before, (27 + x * 3) as nat) == Some(sudoku@),
            has_progressed == (sudoku@ != before),
        decreases 9 - x,
    {
        let mut frag_y: usize = 0;
        while frag_y < 3
            invariant
                0 <= x < 9,
                0 <= frag_y <= 3,
                before == old(sudoku)@,
                board_within(sudoku@, before),
                exclusion_prefix(before, (27 + x * 3 + frag_y) as nat) == Some(sudoku@),
                has_progressed == (sudoku@ != before),
            decreases 3 - frag_y,
        {
            let ghost current = sudoku@;
            let ghost k = (27 + x * 3 + frag_y) as int;
            let frag = ColFragment { x, frag_y };
            assert(frag == ColFragment { x: ((k - 27) / 3) as usize, frag_y: ((k - 27) % 3) as usize });
            match frag_exclusions(sudoku, &frag) {
                Ok(p) => {
                    proof {
                        lemma_within_twice(before, current, sudoku@);
                    }
                    has_progressed = p || has_progressed;
                },
                Err(e) => {
                    proof {
                        assert(sudoku@ == current);
                        assert(exclusion_prefix(before, k as nat) == Some(current));
                        assert(step_pass(current, k) is None);
                        assert(exclusion_prefix(before, (k + 1) as nat) is None);
                        lemma_exclusion_prefix_fails(before, (k + 1) as nat, 54);
                    }
                    return Err(e);
                },
            }
            frag_y += 1;
        }
        x += 1;
    }
    Ok(has_progressed)
}

} // verus!
