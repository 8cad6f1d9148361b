//! Three-cell fragments: the intersection of a row or a column with a block.
//!
//! Cells are addressed by their linear index `row * 9 + column`.

use crate::board::lemma_cell_coordinates;
use vstd::prelude::*;

verus! {

/// Generalizes over 3-cell row/column fragments in a block. Effectively, it
/// captures the intersection between a row (or column) and a block.
pub trait ThreeCellFragment {
    /// Whether the fragment lies on the board.
    spec fn wf(&self) -> bool;

    /// The 3 cells inside the fragment, low to high along its line.
    spec fn spec_cells(&self) -> Seq<usize>;

    /// The 6 cells outside the fragment on its line, in ascending position
    /// wrapped past the fragment.
    spec fn spec_ext_adjacent_cells(&self) -> Seq<usize>;

    /// The 6 cells outside the fragment in its block, the next line of the
    /// block first.
    spec fn spec_ext_block_cells(&self) -> Seq<usize>;

    /// The three index sequences have 3, 6 and 6 entries, all on the board and
    /// no two of them equal.
    proof fn lemma_layout(&self)
        requires
            self.wf(),
        ensures
            self.spec_cells().len() == 3,
            self.spec_ext_adjacent_cells().len() == 6,
            self.spec_ext_block_cells().len() == 6,
            forall|i: int| 0 <= i < 3 ==> #[trigger] self.spec_cells()[i] < 81,
            forall|i: int| 0 <= i < 6 ==> #[trigger] self.spec_ext_adjacent_cells()[i] < 81,
            forall|i: int| 0 <= i < 6 ==> #[trigger] self.spec_ext_block_cells()[i] < 81,
            (self.spec_cells() + self.spec_ext_adjacent_cells()
                + self.spec_ext_block_cells()).no_duplicates(),
    ;

    /// Returns the 3 cells inside the fragment.
    fn cells(&self) -> (r: Vec<usize>)
        requires
            self.wf(),
        ensures
            r@ == self.spec_cells(),
    ;

    /// Returns the cell indices outside the fragment, but that are still
    /// influenced by this fragment (i.e., in the same row or column, or in the
    /// same block): first those of the line, then those of the block.
    fn ext_cells(&self) -> (r: Vec<usize>)
        requires
            self.wf(),
        ensures
            r@ == self.spec_ext_adjacent_cells() + self.spec_ext_block_cells(),
    {
        let mut r = self.ext_adjacent_cells();
        let mut block = self.ext_block_cells();
        r.append(&mut block);
        r
    }

    /// Returns the cell indices outside the fragment, but inside the same
    /// row/column (for row/column fragments, respectively).
    fn ext_adjacent_cells(&self) -> (r: Vec<usize>)
        requires
            self.wf(),
        ensures
            r@ == self.spec_ext_adjacent_cells(),
    ;

    /// Returns the cell indices outside the fragment, but inside the same block.
    fn ext_block_cells(&self) -> (r: Vec<usize>)
        requires
            self.wf(),
        ensures
            r@ == self.spec_ext_block_cells(),
    ;
}

/// The 12 cells that a fragment influences: those of its line, then those of
/// its block.
pub open spec fn spec_ext_cells<F: ThreeCellFragment + ?Sized>(frag: &F) -> Seq<usize> {
    frag.spec_ext_adjacent_cells() + frag.spec_ext_block_cells()
}

/// A fragment of length 3 in a row.
pub struct RowFragment {
    /// The row, below 9.
    pub y: usize,
    /// Which of the three fragments of the row, below 3.
    pub frag_x: usize,
}

/// A fragment of length 3 in a column.
pub struct ColFragment {
    /// The column, below 9.
    pub x: usize,
    /// Which of the three fragments of the column, below 3.
    pub frag_y: usize,
}

impl ThreeCellFragment for RowFragment {
    open spec fn wf(&self) -> bool {
        self.y < 9 && self.frag_x < 3
    }

    open spec fn spec_cells(&self) -> Seq<usize> {
        Seq::new(3, |i: int| (self.y * 9 + self.frag_x * 3 + i) as usize)
    }

    open spec fn spec_ext_adjacent_cells(&self) -> Seq<usize> {
        Seq::new(6, |i: int| (self.y * 9 + (self.frag_x * 3 + 3 + i) % 9) as usize)
    }

    open spec fn spec_ext_block_cells(&self) -> Seq<usize> {
        Seq::new(
            6,
            |i: int|
                ((self.y - self.y % 3 + (self.y + 1 + i / 3) % 3) * 9 + self.frag_x * 3 + i % 3) as usize,
        )
    }

    proof fn lemma_layout(&self) {
        let all = self.spec_cells() + self.spec_ext_adjacent_cells() + self.spec_ext_block_cells();
        let y = self.y as int;
        let first = self.frag_x * 3;
        assert forall|n: int| 0 <= n < 15 implies #[trigger] all[n] == place_line(y, n) * 9
            + place_pos(first, n) && all[n] < 81 by {
            lemma_place(y, first, n);
            lemma_cell_coordinates(place_line(y, n), place_pos(first, n));
        }
        assert forall|i: int| 0 <= i < 3 implies #[trigger] self.spec_cells()[i] < 81 by {
            assert(self.spec_cells()[i] == all[i]);
        }
        assert forall|i: int| 0 <= i < 6 implies #[trigger] self.spec_ext_adjacent_cells()[i]
            < 81 by {
            assert(self.spec_ext_adjacent_cells()[i] == all[i + 3]);
        }
        assert forall|i: int| 0 <= i < 6 implies #[trigger] self.spec_ext_block_cells()[i] < 81 by {
            assert(self.spec_ext_block_cells()[i] == all[i + 9]);
        }
        assert forall|i: int, j: int| 0 <= i < 15 && 0 <= j < 15 && i != j implies all[i]
            != all[j] by {
            lemma_place(y, first, i);
            lemma_place(y, first, j);
            lemma_cell_coordinates(place_line(y, i), place_pos(first, i));
            lemma_cell_coordinates(place_line(y, j), place_pos(first, j));
        }
    }

    fn cells(&self) -> (r: Vec<usize>) {
        let first = self.y * 9 + self.frag_x * 3;
        let r = vec![first, first + 1, first + 2];
        assert(r@ =~= self.spec_cells());
        r
    }

    fn ext_adjacent_cells(&self) -> (r: Vec<usize>) {
        let mut r: Vec<usize> = Vec::new();
        let mut x: usize = 3;
        while x < 9
            invariant
                self.wf(),
                3 <= x <= 9,
                r.len() == x - 3,
                forall|i: int| 0 <= i < r.len() ==> r[i] == self.spec_ext_adjacent_cells()[i],
            decreases 9 - x,
        {
            r.push(self.y * 9 + (self.frag_x * 3 + x) % 9);
            x += 1;
        }
        assert(r@ =~= self.spec_ext_adjacent_cells());
        r
    }

    fn ext_block_cells(&self) -> (r: Vec<usize>) {
        // the y of the top row in the block
        let base_y = self.y - self.y % 3;
        let mut r: Vec<usize> = Vec::new();
        let mut y: usize = 1;
        while y < 3
            invariant
                self.wf(),
                base_y == self.y - self.y % 3,
                1 <= y <= 3,
                r.len() == (y - 1) * 3,
                forall|i: int| 0 <= i < r.len() ==> r[i] == self.spec_ext_block_cells()[i],
            decreases 3 - y,
        {
            let other_row_y = base_y + (self.y + y) % 3;
            let mut x: usize = 0;
            while x < 3
                invariant
                    self.wf(),
                    1 <= y < 3,
                    other_row_y == self.y - self.y % 3 + (self.y + y) % 3,
                    0 <= x <= 3,
                    r.len() == (y - 1) * 3 + x,
                    forall|i: int| 0 <= i < r.len() ==> r[i] == self.spec_ext_block_cells()[i],
                decreases 3 - x,
            {
                r.push(other_row_y * 9 + (self.frag_x * 3 + x));
                x += 1;
            }
            y += 1;
        }
        assert(r@ =~= self.spec_ext_block_cells());
        r
    }
}

impl ThreeCellFragment for ColFragment {
    open spec fn wf(&self) -> bool {
        self.x < 9 && self.frag_y < 3
    }

    open spec fn spec_cells(&self) -> Seq<usize> {
        Seq::new(3, |i: int| ((self.frag_y * 3 + i) * 9 + self.x) as usize)
    }

    open spec fn spec_ext_adjacent_cells(&self) -> Seq<usize> {
        Seq::new(6, |i: int| (((self.frag_y * 3 + 3 + i) % 9) * 9 + self.x) as usize)
    }

    open spec fn spec_ext_block_cells(&self) -> Seq<usize> {
        Seq::new(
            6,
            |i: int|
                ((self.frag_y * 3 + i % 3) * 9 + self.x - self.x % 3 + (self.x + 1 + i / 3) % 3) as usize,
        )
    }

    proof fn lemma_layout(&self) {
        let all = self.spec_cells() + self.spec_ext_adjacent_cells() + self.spec_ext_block_cells();
        let x = self.x as int;
        let first = self.frag_y * 3;
        assert forall|n: int| 0 <= n < 15 implies #[trigger] all[n] == place_pos(first, n) * 9
            + place_line(x, n) && all[n] < 81 by {
            lemma_place(x, first, n);
            lemma_cell_coordinates(place_pos(first, n), place_line(x, n));
        }
        assert forall|i: int| 0 <= i < 3 implies #[trigger] self.spec_cells()[i] < 81 by {
            assert(self.spec_cells()[i] == all[i]);
        }
        assert forall|i: int| 0 <= i < 6 implies #[trigger] self.spec_ext_adjacent_cells()[i]
            < 81 by {
            assert(self.spec_ext_adjacent_cells()[i] == all[i + 3]);
        }
        assert forall|i: int| 0 <= i < 6 implies #[trigger] self.spec_ext_block_cells()[i] < 81 by {
            assert(self.spec_ext_block_cells()[i] == all[i + 9]);
        }
        assert forall|i: int, j: int| 0 <= i < 15 && 0 <= j < 15 && i != j implies all[i]
            != all[j] by {
            lemma_place(x, first, i);
            lemma_place(x, first, j);
            lemma_cell_coordinates(place_pos(first, i), place_line(x, i));
            lemma_cell_coordinates(place_pos(first, j), place_line(x, j));
        }
    }

    fn cells(&self) -> (r: Vec<usize>) {
        let first = self.frag_y * 27 + self.x;
        let r = vec![first, first + 9, first + 18];
        assert(r@ =~= self.spec_cells());
        r
    }

    fn ext_adjacent_cells(&self) -> (r: Vec<usize>) {
        let mut r: Vec<usize> = Vec::new();
        let mut y: usize = 3;
        while y < 9
            invariant
                self.wf(),
                3 <= y <= 9,
                r.len() == y - 3,
                forall|i: int| 0 <= i < r.len() ==> r[i] == self.spec_ext_adjacent_cells()[i],
            decreases 9 - y,
        {
            r.push(((self.frag_y * 3 + y) % 9) * 9 + self.x);
            y += 1;
        }
        assert(r@ =~= self.spec_ext_adjacent_cells());
        r
    }

    fn ext_block_cells(&self) -> (r: Vec<usize>) {
        // the x of the first column in the block
        let base_x = self.x - self.x % 3;
        let mut r: Vec<usize> = Vec::new();
        let mut x: usize = 1;
        while x < 3
            invariant
                self.wf(),
                base_x == self.x - self.x % 3,
                1 <= x <= 3,
                r.len() == (x - 1) * 3,
                forall|i: int| 0 <= i < r.len() ==> r[i] == self.spec_ext_block_cells()[i],
            decreases 3 - x,
        {
            let other_col_x = base_x + (self.x + x) % 3;
            let mut y: usize = 0;
            while y < 3
                invariant
                    self.wf(),
                    1 <= x < 3,
                    other_col_x == self.x - self.x % 3 + (self.x + x) % 3,
                    0 <= y <= 3,
                    r.len() == (x - 1) * 3 + y,
                    forall|i: int| 0 <= i < r.len() ==> r[i] == self.spec_ext_block_cells()[i],
                decreases 3 - y,
            {
                r.push((self.frag_y * 3 + y) * 9 + other_col_x);
                y += 1;
            }
            x += 1;
        }
        assert(r@ =~= self.spec_ext_block_cells());
        r
    }
}

/// The line of the `n`-th of the 15 cells of and around a fragment on the line
/// `own`: its 3 cells, its 6 adjacent cells, its 6 block cells.
spec fn place_line(own: int, n: int) -> int {
    if n < 9 {
        own
    } else {
        own - own % 3 + (own + 1 + (n - 9) / 3) % 3
    }
}

/// The position on its line of the `n`-th of the 15 cells of and around a
/// fragment that starts at position `first`.
spec fn place_pos(first: int, n: int) -> int {
    if n < 3 {
        first + n
    } else if n < 9 {
        (first + n) % 9
    } else {
        first + (n - 9) % 3
    }
}

/// Which of the 15 cells of and around a fragment lies at `pos` on `line`.
spec fn place_index(own: int, first: int, line: int, pos: int) -> int {
    if line != own {
        9 + (line + 2 - own) % 3 * 3 + pos - first
    } else if pos / 3 == first / 3 {
        pos - first
    } else {
        3 + (pos + 6 - first) % 9
    }
}

/// Each of the 15 cells lies on the board, and its place tells which of them
/// it is.
proof fn lemma_place(own: int, first: int, n: int)
    requires
        0 <= own < 9,
        first == 0 || first == 3 || first == 6,
        0 <= n < 15,
    ensures
        0 <= place_line(own, n) < 9,
        0 <= place_pos(first, n) < 9,
        place_index(own, first, place_line(own, n), place_pos(first, n)) == n,
{
    if 3 <= n < 9 {
        lemma_adjacent_position(first, n - 3);
    }
    if 9 <= n {
        lemma_block_position(own, (n - 9) / 3);
    }
}

/// Where the `i`-th cell after a fragment that starts at `first` lies on its
/// line, and how to get `i` back from that position.
proof fn lemma_adjacent_position(first: int, i: int)
    requires
        first == 0 || first == 3 || first == 6,
        0 <= i < 6,
    ensures
        0 <= (first + 3 + i) % 9 < 9,
        (first + 3 + i) % 9 / 3 != first / 3,
        ((first + 3 + i) % 9 + 6 - first) % 9 == i,
{
}

/// Which position on a line outside the fragment that starts at `first` is
/// the `i`-th after it.
proof fn lemma_adjacent_index(first: int, pos: int)
    requires
        first == 0 || first == 3 || first == 6,
        0 <= pos < 9,
        pos / 3 != first / 3,
    ensures
        0 <= (pos + 6 - first) % 9 < 6,
        (first + 3 + (pos + 6 - first) % 9) % 9 == pos,
{
}

/// Where the `k`-th other line of a block lies, seen from the line `own`, and
/// how to get `k` back from that line.
proof fn lemma_block_position(own: int, k: int)
    requires
        0 <= own < 9,
        0 <= k < 2,
    ensures
        0 <= own - own % 3 + (own + 1 + k) % 3 < 9,
        own - own % 3 + (own + 1 + k) % 3 != own,
        (own - own % 3 + (own + 1 + k) % 3) / 3 == own / 3,
        (own - own % 3 + (own + 1 + k) % 3 + 2 - own) % 3 == k,
{
}

/// Which other line of the block of `own` the line `other` is.
proof fn lemma_block_index(own: int, other: int)
    requires
        0 <= own < 9,
        0 <= other < 9,
        other != own,
        other / 3 == own / 3,
    ensures
        0 <= (other + 2 - own) % 3 < 2,
        own - own % 3 + (own + 1 + (other + 2 - own) % 3) % 3 == other,
{
}

/// The cells of a row fragment are those of its row within its block; its
/// adjacent cells are the rest of the row, and its block cells the rest of the
/// block.
pub proof fn lemma_row_fragment_members(frag: RowFragment, c: usize)
    requires
        frag.wf(),
    ensures
        frag.spec_cells().contains(c) <==> c / 9 == frag.y && c % 9 / 3 == frag.frag_x,
        frag.spec_ext_adjacent_cells().contains(c) <==> c / 9 == frag.y && c % 9 / 3
            != frag.frag_x,
        frag.spec_ext_block_cells().contains(c) <==> c / 9 != frag.y && c / 27 == frag.y / 3 && c
            % 9 / 3 == frag.frag_x,
{
    let y = frag.y as int;
    let first = frag.frag_x * 3;
    let row = c / 9;
    let col = c % 9;
    assert forall|i: int| 0 <= i < 3 && frag.spec_cells()[i] == c implies row == y && col / 3
        == frag.frag_x by {
        lemma_cell_coordinates(y, first + i);
    }
    if row == y && col / 3 == frag.frag_x {
        assert(frag.spec_cells()[col - first] == c);
    }
    assert forall|i: int| 0 <= i < 6 && frag.spec_ext_adjacent_cells()[i] == c implies row == y
        && col / 3 != frag.frag_x by {
        lemma_adjacent_position(first, i);
        lemma_cell_coordinates(y, (first + 3 + i) % 9);
    }
    if row == y && col / 3 != frag.frag_x {
        lemma_adjacent_index(first, col as int);
        assert(frag.spec_ext_adjacent_cells()[(col + 6 - first) % 9] == c);
    }
    assert forall|i: int| 0 <= i < 6 && frag.spec_ext_block_cells()[i] == c implies row != y && c
        / 27 == frag.y / 3 && col / 3 == frag.frag_x by {
        lemma_block_position(y, i / 3);
        lemma_cell_coordinates(y - y % 3 + (y + 1 + i / 3) % 3, first + i % 3);
    }
    if row != y && c / 27 == frag.y / 3 && col / 3 == frag.frag_x {
        lemma_block_index(y, row as int);
        let k = (row + 2 - y) % 3;
        assert(frag.spec_ext_block_cells()[k * 3 + (col - first)] == c);
    }
}

/// The cells of a column fragment are those of its column within its block;
/// its adjacent cells are the rest of the column, and its block cells the rest
/// of the block.
pub proof fn lemma_col_fragment_members(frag: ColFragment, c: usize)
    requires
        frag.wf(),
    ensures
        frag.spec_cells().contains(c) <==> c % 9 == frag.x && c / 27 == frag.frag_y,
        frag.spec_ext_adjacent_cells().contains(c) <==> c % 9 == frag.x && c < 81 && c / 27
            != frag.frag_y,
        frag.spec_ext_block_cells().contains(c) <==> c % 9 != frag.x && c % 9 / 3 == frag.x / 3
            && c / 27 == frag.frag_y,
{
    let x = frag.x as int;
    let first = frag.frag_y * 3;
    let row = c / 9;
    let col = c % 9;
    assert forall|i: int| 0 <= i < 3 && frag.spec_cells()[i] == c implies col == x && c / 27
        == frag.frag_y by {
        lemma_cell_coordinates(first + i, x);
    }
    if col == x && c / 27 == frag.frag_y {
        assert(frag.spec_cells()[row - first] == c);
    }
    assert forall|i: int| 0 <= i < 6 && frag.spec_ext_adjacent_cells()[i] == c implies col == x
        && c < 81 && c / 27 != frag.frag_y by {
        lemma_adjacent_position(first, i);
        lemma_cell_coordinates((first + 3 + i) % 9, x);
    }
    if col == x && c < 81 && c / 27 != frag.frag_y {
        lemma_adjacent_index(first, row as int);
        assert(frag.spec_ext_adjacent_cells()[(row + 6 - first) % 9] == c);
    }
    assert forall|i: int| 0 <= i < 6 && frag.spec_ext_block_cells()[i] == c implies col != x && col
        / 3 == frag.x / 3 && c / 27 == frag.frag_y by {
        lemma_block_position(x, i / 3);
        lemma_cell_coordinates(first + i % 3, x - x % 3 + (x + 1 + i / 3) % 3);
    }
    if col != x && col / 3 == frag.x / 3 && c / 27 == frag.frag_y {
        lemma_block_index(x, col as int);
        let k = (col + 2 - x) % 3;
        assert(frag.spec_ext_block_cells()[k * 3 + (row - first)] == c);
    }
}

} // verus!
