//! The board as text.
//!
//! The picture has a line of column numbers, then for each row a rule and a
//! line of cells, then a closing rule. The rule above every third row, and
//! the closing rule, mark the corners of the 3x3 blocks with `*`.

use vstd::prelude::*;
use crate::grid::{is_grid, Grid};
use crate::matrix::SudokuMatrix;

verus! {

/// The digit that stands for `d`.
pub open spec fn digit_text(d: int) -> Seq<char> {
    if d == 0 {
        "0"@
    } else if d == 1 {
        "1"@
    } else if d == 2 {
        "2"@
    } else if d == 3 {
        "3"@
    } else if d == 4 {
        "4"@
    } else if d == 5 {
        "5"@
    } else if d == 6 {
        "6"@
    } else if d == 7 {
        "7"@
    } else if d == 8 {
        "8"@
    } else {
        "9"@
    }
}

/// One cell: its digit, or a blank when it is empty, and the bar that
/// closes it.
pub open spec fn cell_text(v: u8) -> Seq<char> {
    if v == 0 {
        " |"@
    } else {
        digit_text(v as int) + "|"@
    }
}

/// The first `n` cells of a row.
pub open spec fn cells_text(row: Seq<u8>, n: nat) -> Seq<char>
    decreases n,
{
    if n == 0 {
        Seq::empty()
    } else {
        cells_text(row, (n - 1) as nat) + cell_text(row[n - 1])
    }
}

/// The rule above row `r`.
pub open spec fn rule_text(r: int) -> Seq<char> {
    if r % 3 == 0 {
        "  *-----*-----*-----*\n"@
    } else {
        "  -------------------\n"@
    }
}

/// Row `r`: its rule, its number and its nine cells.
pub open spec fn row_text(g: Grid, r: int) -> Seq<char> {
    rule_text(r) + digit_text(r) + " |"@ + cells_text(g[r], 9) + "\n"@
}

/// The first `n` rows.
pub open spec fn rows_text(g: Grid, n: nat) -> Seq<char>
    decreases n,
{
    if n == 0 {
        Seq::empty()
    } else {
        rows_text(g, (n - 1) as nat) + row_text(g, n - 1)
    }
}

/// The whole picture of a board.
pub open spec fn board_text(g: Grid) -> Seq<char> {
    "   0 1 2 3 4 5 6 7 8\n"@ + rows_text(g, 9) + rule_text(0)
}

/// The digit for `d` as a string.
fn digit_str(d: u8) -> (s: &'static str)
    requires
        d <= 9,
    ensures
        s@ == digit_text(d as int),
{
    match d {
        0 => "0",
        1 => "1",
        2 => "2",
        3 => "3",
        4 => "4",
        5 => "5",
        6 => "6",
        7 => "7",
        8 => "8",
        _ => "9",
    }
}

impl SudokuMatrix {
    /// Draws the board as text: the rows from top to bottom, the 3x3 blocks
    /// set off by the marked rules, an empty cell shown as a blank.
    pub fn render(&self) -> (text: String)
        ensures
            text@ == board_text(self@),
    {
        let mut text = String::from_str("   0 1 2 3 4 5 6 7 8\n");
        proof {
            use_type_invariant(self);
        }
        for i in 0..9usize
            invariant
                is_grid(self@),
                text@ == "   0 1 2 3 4 5 6 7 8\n"@ + rows_text(self@, i as nat),
        {
            let ghost before = text@;
            if i % 3 == 0 {
                text.append("  *-----*-----*-----*\n");
            } else {
                text.append("  -------------------\n");
            }
            text.append(digit_str(i as u8));
            text.append(" |");
            let ghost start = text@;
            for j in 0..9usize
                invariant
                    i < 9,
                    is_grid(self@),
                    text@ == start + cells_text(self@[i as int], j as nat),
            {
                let v = self.get_value(i, j);
                if v != 0 {
                    text.append(digit_str(v));
                    text.append("|");
                } else {
                    text.append(" |");
                }
                assert(text@ =~= start + cells_text(self@[i as int], (j + 1) as nat));
            }
            text.append("\n");
            assert(text@ =~= "   0 1 2 3 4 5 6 7 8\n"@ + rows_text(self@, (i + 1) as nat));
        }
        text.append("  *-----*-----*-----*\n");
        assert(text@ =~= board_text(self@));
        text
    }
}

} // verus!
