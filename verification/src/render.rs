//! The board as text: nine lines of nine cells, with a blank between the
//! blocks of a line and an empty line between the bands.

use crate::board::Sudoku;
use vstd::prelude::*;
use vstd::string::StringExecFns;

verus! {

/// The character of the digit `v`.
pub open spec fn digit_char(v: int) -> char {
    if v == 1 {
        '1'
    } else if v == 2 {
        '2'
    } else if v == 3 {
        '3'
    } else if v == 4 {
        '4'
    } else if v == 5 {
        '5'
    } else if v == 6 {
        '6'
    } else if v == 7 {
        '7'
    } else if v == 8 {
        '8'
    } else {
        '9'
    }
}

/// The character that stands for a cell: its digit where it is solved, an
/// underscore where it is not.
pub open spec fn cell_char(cell: Set<int>) -> char {
    if cell.len() == 1 {
        digit_char(cell.choose())
    } else {
        '_'
    }
}

/// The text of the first `n` cells of the row `y`: one character for each
/// cell, and a blank after the third and the sixth.
pub open spec fn row_text(b: Seq<Set<int>>, y: int, n: nat) -> Seq<char>
    decreases n,
{
    if n == 0 {
        Seq::empty()
    } else {
        row_text(b, y, (n - 1) as nat) + seq![cell_char(b[y * 9 + n - 1])] + if n == 3 || n == 6 {
            seq![' ']
        } else {
            Seq::empty()
        }
    }
}

/// The text of the first `n` rows: each row on a line of its own, and an
/// empty line after the third and the sixth.
pub open spec fn rows_text(b: Seq<Set<int>>, n: nat) -> Seq<char>
    decreases n,
{
    if n == 0 {
        Seq::empty()
    } else {
        rows_text(b, (n - 1) as nat) + row_text(b, n - 1, 9) + seq!['\n'] + if n == 3 || n == 6 {
            seq!['\n']
        } else {
            Seq::empty()
        }
    }
}

/// The text of the board `b`.
pub open spec fn grid_text(b: Seq<Set<int>>) -> Seq<char> {
    rows_text(b, 9)
}

/// The digit `v` as text.
fn digit_str(v: usize) -> (s: &'static str)
    requires
        1 <= v <= 9,
    ensures
        s@ == seq![digit_char(v as int)],
{
    proof {
        reveal_strlit("1");
        reveal_strlit("2");
        reveal_strlit("3");
        reveal_strlit("4");
        reveal_strlit("5");
        reveal_strlit("6");
        reveal_strlit("7");
        reveal_strlit("8");
        reveal_strlit("9");
    }
    let s = if v == 1 {
        "1"
    } else if v == 2 {
        "2"
    } else if v == 3 {
        "3"
    } else if v == 4 {
        "4"
    } else if v == 5 {
        "5"
    } else if v == 6 {
        "6"
    } else if v == 7 {
        "7"
    } else if v == 8 {
        "8"
    } else {
        "9"
    };
    assert(s@ =~= seq![digit_char(v as int)]);
    s
}

impl Sudoku {
    /// Returns the board as text: the digit of each solved cell, an
    /// underscore for each other cell.
    pub fn render(&self) -> (text: String)
        ensures
            text@ == grid_text(self@),
    {
        let mut text = String::new();
        let mut y: usize = 0;
        proof {
            reveal_strlit("_");
            reveal_strlit(" ");
            reveal_strlit("\n");
        }
        while y < 9
            invariant
                0 <= y <= 9,
                "_"@ == seq!['_'],
                " "@ == seq![' '],
                "\n"@ == seq!['\n'],
                text@ == rows_text(self@, y as nat),
            decreases 9 - y,
        {
            let ghost above = text@;
            let mut x: usize = 0;
            while x < 9
                invariant
                    0 <= y < 9,
                    0 <= x <= 9,
                    "_"@ == seq!['_'],
                    " "@ == seq![' '],
                    text@ == above + row_text(self@, y as int, x as nat),
                decreases 9 - x,
            {
                let ghost row = row_text(self@, y as int, x as nat);
                let ghost cell = self@[y * 9 + x];
                match self.cell(y * 9 + x).solution() {
                    Some(v) => {
                        proof {
                            assert(cell.contains(v as int));
                            self.spec_cell((y * 9 + x) as int).lemma_view_bounded();
                            assert(cell.contains(cell.choose()));
                        }
                        text.append(digit_str(v));
                    },
                    None => {
                        text.append("_");
                    },
                }
                assert(text@ =~= above + (row + seq![cell_char(cell)]));
                if x == 2 || x == 5 {
                    // separator after 3 columns
                    text.append(" ");
                }
                x += 1;
                assert(text@ =~= above + row_text(self@, y as int, x as nat));
            }
            text.append("\n");
            if y == 2 || y == 5 {
                // separator after 3 rows
                text.append("\n");
            }
            y += 1;
            assert(text@ =~= rows_text(self@, y as nat));
        }
        text
    }
}

} // verus!
