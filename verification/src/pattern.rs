//! A solved board that is known in advance, and with it that the empty
//! board has a solution.

use vstd::prelude::*;
use crate::grid::{
    compatible, complete, empty_grid, in_board, is_grid, lemma_empty_grid, peers, solvable, solves,
    Grid,
};

verus! {

/// The value of cell `(r, c)` in the board known in advance.
pub open spec fn pattern_value(r: int, c: int) -> int {
    ((r % 3) * 3 + r / 3 + c) % 9 + 1
}

/// A solved board that is known in advance: each row is the row above it
/// shifted by three, and by one more from one band to the next.
pub open spec fn pattern_grid() -> Grid {
    Seq::new(9, |r: int| Seq::new(9, |c: int| pattern_value(r, c) as u8))
}

/// What is left of a number below 18 when it is divided by 9.
proof fn lemma_mod_nine(e: int)
    requires
        0 <= e < 18,
    ensures
        e % 9 == (if e < 9 {
            e
        } else {
            e - 9
        }),
{
}

/// Two peers hold different values in the board known in advance.
proof fn lemma_pattern_distinct(r1: int, c1: int, r2: int, c2: int)
    requires
        peers(r1, c1, r2, c2),
    ensures
        pattern_value(r1, c1) != pattern_value(r2, c2),
        1 <= pattern_value(r1, c1) <= 9,
        1 <= pattern_value(r2, c2) <= 9,
{
    let (a1, b1) = (r1 % 3, r1 / 3);
    let (a2, b2) = (r2 % 3, r2 / 3);
    assert(0 <= a1 < 3 && 0 <= b1 < 3 && r1 == 3 * b1 + a1);
    assert(0 <= a2 < 3 && 0 <= b2 < 3 && r2 == 3 * b2 + a2);
    let e1 = a1 * 3 + b1 + c1;
    let e2 = a2 * 3 + b2 + c2;
    lemma_mod_nine(e1);
    lemma_mod_nine(e2);
    if e1 % 9 == e2 % 9 {
        let d = e1 - e2;
        assert(d == 0 || d == 9 || d == -9);
        if r1 == r2 {
            assert(d == c1 - c2);
        } else if c1 == c2 {
            assert(d == 3 * (a1 - a2) + (b1 - b2));
            assert(-8 <= d <= 8);
            assert(a1 == a2 && b1 == b2);
        } else {
            assert(b1 == b2);
            assert(c1 / 3 == c2 / 3);
            assert(-2 <= c1 - c2 <= 2);
            assert(d == 3 * (a1 - a2) + (c1 - c2));
            assert(-8 <= d <= 8);
            assert(a1 == a2 && c1 == c2);
        }
    }
}

/// The board known in advance is complete and free of conflicts.
pub proof fn lemma_pattern_grid_is_solution()
    ensures
        is_grid(pattern_grid()),
        complete(pattern_grid()),
        compatible(pattern_grid()),
{
    let w = pattern_grid();
    assert forall|r: int, c: int| in_board(r, c) implies 1 <= #[trigger] w[r][c] <= 9 by {
        assert(w[r][c] == pattern_value(r, c) as u8);
    }
    assert forall|r1: int, c1: int, r2: int, c2: int|
        #![trigger peers(r1, c1, r2, c2)]
        peers(r1, c1, r2, c2) && w[r1][c1] != 0 implies w[r1][c1] != w[r2][c2] by {
        assert(w[r1][c1] == pattern_value(r1, c1) as u8);
        assert(w[r2][c2] == pattern_value(r2, c2) as u8);
        lemma_pattern_distinct(r1, c1, r2, c2);
    }
}

/// The empty board has a solution.
pub proof fn lemma_empty_grid_solvable()
    ensures
        solvable(empty_grid()),
{
    lemma_pattern_grid_is_solution();
    lemma_empty_grid();
    assert(solves(pattern_grid(), empty_grid()));
}

} // verus!
