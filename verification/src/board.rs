//! The board: 81 candidate sets in row-major order.
//!
//! The view of a board is the sequence of the views of its cells; the cell in
//! row `y` and column `x` stands at index `y * 9 + x`.

use crate::bits::{digits, lemma_digits_len};
use crate::cell::SudokuCell;
use vstd::prelude::*;
use vstd::set_lib::{lemma_len_subset, lemma_subset_equality};

verus! {

/// A board as a sequence of sets of digits: 81 finite sets of digits from 1 to 9.
pub open spec fn is_board(b: Seq<Set<int>>) -> bool {
    &&& b.len() == 81
    &&& forall|i: int| 0 <= i < 81 ==> (#[trigger] b[i]).finite() && b[i].subset_of(digits())
}

/// Whether every cell of the board `b` holds exactly one digit.
pub open spec fn board_solved(b: Seq<Set<int>>) -> bool {
    forall|i: int| 0 <= i < b.len() ==> (#[trigger] b[i]).len() == 1
}

/// Whether no cell of `b` holds a digit that it does not hold in `a`.
pub open spec fn board_within(b: Seq<Set<int>>, a: Seq<Set<int>>) -> bool {
    &&& b.len() == a.len()
    &&& forall|i: int| 0 <= i < b.len() ==> (#[trigger] b[i]).subset_of(a[i])
}

/// The board that the digits `input` describe: a cell is open to all digits
/// where the input has 0, and holds the given digit elsewhere.
pub open spec fn board_of(input: Seq<u8>) -> Seq<Set<int>> {
    Seq::new(
        input.len(),
        |i: int|
            if input[i] == 0 {
                digits()
            } else {
                set![input[i] as int]
            },
    )
}

/// The board that 81 digits from 0 to 9 describe is a board.
pub proof fn lemma_board_of_is_board(input: Seq<u8>)
    requires
        input.len() == 81,
        forall|i: int| 0 <= i < 81 ==> input[i] <= 9,
    ensures
        is_board(board_of(input)),
{
    lemma_digits_len();
}

/// On the board of an input without digits, all nine values are possible
/// in every cell.
pub proof fn lemma_board_of_blank(input: Seq<u8>)
    requires
        forall|i: int| 0 <= i < input.len() ==> input[i] == 0,
    ensures
        forall|i: int| 0 <= i < input.len() ==> (#[trigger] board_of(input)[i]).len() == 9,
{
    lemma_digits_len();
}

/// The board of an input with a digit in every cell is solved.
pub proof fn lemma_board_of_filled(input: Seq<u8>)
    requires
        forall|i: int| 0 <= i < input.len() ==> 1 <= #[trigger] input[i] <= 9,
    ensures
        board_solved(board_of(input)),
{
}

/// Row, column and band of the cell at the linear index `row * 9 + col`.
pub proof fn lemma_cell_coordinates(row: int, col: int)
    requires
        0 <= row < 9,
        0 <= col < 9,
    ensures
        0 <= row * 9 + col < 81,
        (row * 9 + col) / 9 == row,
        (row * 9 + col) % 9 == col,
        (row * 9 + col) / 27 == row / 3,
{
}

/// Two boards of equal length differ in some cell.
pub proof fn lemma_boards_differ(a: Seq<Set<int>>, b: Seq<Set<int>>) -> (i: int)
    requires
        a.len() == b.len(),
        a != b,
    ensures
        0 <= i < a.len(),
        a[i] != b[i],
{
    if forall|k: int| 0 <= k < a.len() ==> a[k] == b[k] {
        assert(a =~= b);
    }
    choose|k: int| 0 <= k < a.len() && a[k] != b[k]
}

/// A set that lies within another and differs from it lacks one of its
/// elements.
pub proof fn lemma_sets_differ(small: Set<int>, large: Set<int>) -> (v: int)
    requires
        small.subset_of(large),
        small != large,
    ensures
        large.contains(v),
        !small.contains(v),
{
    if forall|w: int| large.contains(w) ==> small.contains(w) {
        assert(small =~= large);
    }
    choose|w: int| large.contains(w) && !small.contains(w)
}

/// Narrowing a board twice narrows it, and the result differs from the
/// board at the start exactly if one of the two steps changed a cell.
pub proof fn lemma_within_twice(a: Seq<Set<int>>, b: Seq<Set<int>>, c: Seq<Set<int>>)
    requires
        board_within(b, a),
        board_within(c, b),
    ensures
        board_within(c, a),
        (c != a) == (b != a || c != b),
{
    if b != a {
        let i = lemma_boards_differ(b, a);
        let v = lemma_sets_differ(b[i], a[i]);
        assert(c[i].subset_of(b[i]));
        assert(!c[i].contains(v));
    }
}

/// Two boards that lie within each other are equal.
pub proof fn lemma_within_both(a: Seq<Set<int>>, b: Seq<Set<int>>)
    requires
        board_within(a, b),
        board_within(b, a),
    ensures
        a == b,
{
    assert forall|i: int| 0 <= i < a.len() implies a[i] == b[i] by {
        assert(a[i].subset_of(b[i]) && b[i].subset_of(a[i]));
        assert(a[i] =~= b[i]);
    }
    assert(a =~= b);
}

/// The number of candidates on the board `b`, all cells together.
pub open spec fn candidates(b: Seq<Set<int>>) -> nat
    decreases b.len(),
{
    if b.len() == 0 {
        0
    } else {
        candidates(b.drop_last()) + b.last().len()
    }
}

/// A board that was narrowed has no more candidates than before, and fewer
/// if a cell changed.
pub proof fn lemma_candidates_within(a: Seq<Set<int>>, b: Seq<Set<int>>)
    requires
        board_within(b, a),
        forall|i: int| 0 <= i < a.len() ==> (#[trigger] a[i]).finite(),
    ensures
        candidates(b) <= candidates(a),
        b != a ==> candidates(b) < candidates(a),
    decreases a.len(),
{
    if a.len() > 0 {
        let a0 = a.drop_last();
        let b0 = b.drop_last();
        assert forall|i: int| 0 <= i < b0.len() implies (#[trigger] b0[i]).subset_of(a0[i]) by {
            assert(b0[i] == b[i] && a0[i] == a[i]);
        }
        assert forall|i: int| 0 <= i < a0.len() implies (#[trigger] a0[i]).finite() by {
            assert(a0[i] == a[i]);
        }
        lemma_candidates_within(a0, b0);
        assert(b.last().subset_of(a.last()));
        lemma_len_subset(b.last(), a.last());
        if b != a {
            if b0 == a0 {
                assert(b.last() != a.last()) by {
                    if b.last() == a.last() {
                        assert(b =~= b0.push(b.last()));
                        assert(a =~= a0.push(a.last()));
                    }
                }
                if b.last().len() == a.last().len() {
                    lemma_subset_equality(b.last(), a.last());
                }
            }
        }
    } else {
        assert(b =~= a);
    }
}

/// A 9x9 board of candidate sets.
pub struct Sudoku {
    cells: [SudokuCell; 81],
}

impl View for Sudoku {
    type V = Seq<Set<int>>;

    open spec fn view(&self) -> Seq<Set<int>> {
        Seq::new(81, |i: int| self.spec_cell(i)@)
    }
}

impl Clone for Sudoku {
    fn clone(&self) -> (s: Sudoku)
        ensures
            s@ == self@,
    {
        let s = Sudoku { cells: self.cells };
        assert(s@ =~= self@);
        s
    }
}

impl Sudoku {
    /// The cell at the linear index `i`.
    pub closed spec fn spec_cell(&self, i: int) -> SudokuCell {
        self.cells[i]
    }

    /// The view of a board is a board of sets.
    pub proof fn lemma_view_is_board(&self)
        ensures
            is_board(self@),
    {
        assert forall|i: int| 0 <= i < 81 implies (#[trigger] self@[i]).finite() && self@[i].subset_of(
            digits(),
        ) by {
            self.spec_cell(i).lemma_view_bounded();
        }
    }

    /// Constructs a board from 81 digits in row-major order. A 0 leaves the
    /// cell open to all values; another digit fixes the cell to that value.
    pub fn from(input: [u8; 81]) -> (s: Sudoku)
        requires
            forall|i: int| 0 <= i < 81 ==> input[i] <= 9,
        ensures
            s@ == board_of(input@),
    {
        let mut cells = [SudokuCell::new_all();81];
        let mut i: usize = 0;
        while i < 81
            invariant
                0 <= i <= 81,
                forall|k: int| 0 <= k < 81 ==> input[k] <= 9,
                forall|k: int| 0 <= k < i ==> (#[trigger] cells[k])@ == board_of(input@)[k],
                forall|k: int| i <= k < 81 ==> (#[trigger] cells[k])@ == digits(),
            decreases 81 - i,
        {
            if input[i] != 0 {
                cells[i] = SudokuCell::new_const(input[i] as usize);
            }
            i += 1;
        }
        let s = Sudoku { cells };
        assert(s@ =~= board_of(input@));
        s
    }

    /// Returns `true` iff every cell of the board is solved.
    pub fn is_solved(&self) -> (b: bool)
        ensures
            b == board_solved(self@),
    {
        let mut i: usize = 0;
        while i < 81
            invariant
                0 <= i <= 81,
                forall|k: int| 0 <= k < i ==> (#[trigger] self@[k]).len() == 1,
            decreases 81 - i,
        {
            if !self.cells[i].is_solved() {
                assert(self@[i as int].len() != 1);
                return false;
            }
            i += 1;
        }
        true
    }

    /// Returns the cell at the linear index `idx`.
    pub fn cell(&self, idx: usize) -> (c: SudokuCell)
        requires
            idx < 81,
        ensures
            c == self.spec_cell(idx as int),
            c@ == self@[idx as int],
    {
        self.cells[idx]
    }

    /// Replaces the cell at the linear index `idx`.
    pub fn set_cell(&mut self, idx: usize, c: SudokuCell)
        requires
            idx < 81,
        ensures
            final(self)@ == old(self)@.update(idx as int, c@),
            forall|i: int| 0 <= i < 81 && i != idx ==> final(self).spec_cell(i) == old(self).spec_cell(i),
            final(self).spec_cell(idx as int) == c,
    {
        self.cells[idx] = c;
        assert(self@ =~= old(self)@.update(idx as int, c@));
    }
}

} // verus!
