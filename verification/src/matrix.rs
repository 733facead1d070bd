//! The board: a 9x9 grid of cell values.

use vstd::prelude::*;
use crate::grid::{
    compatible, complete, empty_grid, in_board, is_grid, lemma_all_zero_is_empty_grid,
    lemma_peer_is_unit_cell, lemma_put_is_grid, peers, put, unit_cell, Grid,
};

verus! {

/// A Sudoku board. A cell holds `0` when it is empty and a value from `1` to
/// `9` when it is filled; no other value is ever stored.
#[derive(Debug)]
pub struct SudokuMatrix {
    matrix: [[u8; 9]; 9],
}

impl View for SudokuMatrix {
    type V = Grid;

    closed spec fn view(&self) -> Grid {
        Seq::new(9, |r: int| self.matrix@[r]@)
    }
}

impl SudokuMatrix {
    /// What holds of every board: nine rows of nine cells, each from `0` to `9`.
    #[verifier::type_invariant]
    pub open spec fn valid(&self) -> bool {
        is_grid(self@)
    }

    /// Creates a board with every cell empty.
    pub fn new() -> (m: Self)
        ensures
            m@ == empty_grid(),
            is_grid(m@),
    {
        let m = SudokuMatrix { matrix: [[0u8; 9]; 9] };
        proof {
            assert forall|r: int, c: int| in_board(r, c) implies #[trigger] m@[r][c] == 0 by {
                assert(m.matrix@[r]@[c] == 0);
            }
            lemma_all_zero_is_empty_grid(m@);
        }
        m
    }

    /// Writes `v` at row `r`, column `c`; `0` clears the cell. No conflict is
    /// looked for. A value above `9` is not a cell value: the call then
    /// leaves the board as it is.
    pub fn set_value(&mut self, r: usize, c: usize, v: u8)
        requires
            r < 9,
            c < 9,
        ensures
            final(self)@ == if v <= 9 {
                put(old(self)@, r as int, c as int, v)
            } else {
                old(self)@
            },
            is_grid(final(self)@),
            v <= 9 ==> final(self)@[r as int][c as int] == v,
            forall|r2: int, c2: int|
                in_board(r2, c2) && (r2 != r || c2 != c) ==> #[trigger] final(self)@[r2][c2] == old(
                    self,
                )@[r2][c2],
    {
        proof {
            use_type_invariant(&*self);
        }
        if v <= 9 {
            let mut cells = self.matrix;
            cells[r][c] = v;
            proof {
                let g = Seq::new(9, |i: int| cells@[i]@);
                assert(cells@[r as int]@ =~= self.matrix@[r as int]@.update(c as int, v));
                assert(g =~~= put(self@, r as int, c as int, v));
                lemma_put_is_grid(self@, r as int, c as int, v);
            }
            self.matrix = cells;
        }
    }

    /// Reads the value at row `r`, column `c`; `0` means the cell is empty.
    pub fn get_value(&self, r: usize, c: usize) -> (v: u8)
        requires
            r < 9,
            c < 9,
        ensures
            v == self@[r as int][c as int],
            v <= 9,
            is_grid(self@),
    {
        proof {
            use_type_invariant(self);
        }
        self.matrix[r][c]
    }

    /// Tells whether every cell is filled.
    pub fn is_complete(&self) -> (full: bool)
        ensures
            full == complete(self@),
    {
        for i in 0..9usize
            invariant
                forall|r: int, c: int| 0 <= r < i && 0 <= c < 9 ==> #[trigger] self@[r][c] != 0,
        {
            for j in 0..9usize
                invariant
                    i < 9,
                    forall|r: int, c: int| 0 <= r < i && 0 <= c < 9 ==> #[trigger] self@[r][c] != 0,
                    forall|c: int| 0 <= c < j ==> #[trigger] self@[i as int][c] != 0,
            {
                if self.get_value(i, j) == 0 {
                    assert(in_board(i as int, j as int));
                    return false;
                }
            }
        }
        true
    }

    /// Tells whether the board is free of conflicts: no value occurs twice in
    /// a row, a column or a 3x3 block.
    pub fn is_compatible(&self) -> (ok: bool)
        ensures
            ok == compatible(self@),
    {
        for r in 0..9usize
            invariant
                forall|r1: int, c1: int, r2: int, c2: int|
                    #![trigger peers(r1, c1, r2, c2)]
                    r1 < r && peers(r1, c1, r2, c2) && self@[r1][c1] != 0 ==> self@[r1][c1]
                        != self@[r2][c2],
        {
            for c in 0..9usize
                invariant
                    r < 9,
                    forall|r1: int, c1: int, r2: int, c2: int|
                        #![trigger peers(r1, c1, r2, c2)]
                        (r1 < r || (r1 == r && c1 < c)) && peers(r1, c1, r2, c2) && self@[r1][c1]
                            != 0 ==> self@[r1][c1] != self@[r2][c2],
            {
                let v = self.get_value(r, c);
                if v != 0 {
                    let block_r = r / 3;
                    let block_c = c / 3;
                    for idx in 0..9usize
                        invariant
                            r < 9,
                            c < 9,
                            block_r == r / 3,
                            block_c == c / 3,
                            v == self@[r as int][c as int],
                            v != 0,
                            forall|j: int, r2: int, c2: int|
                                #![trigger unit_cell(r as int, c as int, j, r2, c2)]
                                0 <= j < idx && unit_cell(r as int, c as int, j, r2, c2) && (r2
                                    != r || c2 != c) ==> self@[r2][c2] != v,
                    {
                        let rr = block_r * 3 + idx / 3;
                        let cc = block_c * 3 + idx % 3;
                        if idx != c && self.get_value(r, idx) == v {
                            assert(peers(r as int, c as int, r as int, idx as int));
                            return false;
                        }
                        if idx != r && self.get_value(idx, c) == v {
                            assert(peers(r as int, c as int, idx as int, c as int));
                            return false;
                        }
                        if (rr != r || cc != c) && self.get_value(rr, cc) == v {
                            assert(peers(r as int, c as int, rr as int, cc as int));
                            return false;
                        }
                    }
                    assert forall|r2: int, c2: int|
                        #![trigger peers(r as int, c as int, r2, c2)]
                        peers(r as int, c as int, r2, c2) implies self@[r2][c2] != v by {
                        let j = lemma_peer_is_unit_cell(r as int, c as int, r2, c2);
                        assert(unit_cell(r as int, c as int, j, r2, c2));
                    }
                }
            }
        }
        true
    }
}

impl Clone for SudokuMatrix {
    /// Copies the board; the copy shares nothing with the board it was made
    /// from.
    fn clone(&self) -> (m: Self)
        ensures
            m@ == self@,
            is_grid(m@),
    {
        proof {
            use_type_invariant(self);
        }
        SudokuMatrix { matrix: self.matrix }
    }
}

impl Default for SudokuMatrix {
    /// The board with every cell empty.
    fn default() -> (m: Self)
        ensures
            m@ == empty_grid(),
            is_grid(m@),
    {
        SudokuMatrix::new()
    }
}

} // verus!
