//! Counting: how few filled cells leave every empty cell a candidate.
//!
//! Nine values can only all be held where nine cells are filled. So while
//! eight cells at most are filled, some value is held by no peer of an empty
//! cell, and the cell has a candidate.

use vstd::prelude::*;
use crate::candidates::{blocked, candidates};
use crate::grid::{
    filled_count, in_board, is_grid, lemma_clear_decreases_filled, lemma_put_is_grid, peers, put,
    Grid,
};

verus! {

/// Some cell of the board holds `v`.
pub open spec fn held(g: Grid, v: u8) -> bool {
    exists|r: int, c: int| in_board(r, c) && #[trigger] g[r][c] == v
}

/// A board that holds each value from `1` to `m` somewhere has `m` filled
/// cells at least.
pub proof fn lemma_values_need_cells(g: Grid, m: u8)
    requires
        is_grid(g),
        m <= 9,
        forall|v: u8| 1 <= v <= m ==> held(g, v),
    ensures
        filled_count(g) >= m,
    decreases m,
{
    if m > 0 {
        assert(held(g, m));
        let (r, c) = choose|r: int, c: int| in_board(r, c) && #[trigger] g[r][c] == m;
        let h = put(g, r, c, 0);
        lemma_put_is_grid(g, r, c, 0);
        lemma_clear_decreases_filled(g, r, c);
        assert forall|v: u8| 1 <= v <= m - 1 implies held(h, v) by {
            assert(held(g, v));
            let (r2, c2) = choose|r2: int, c2: int| in_board(r2, c2) && #[trigger] g[r2][c2] == v;
            assert(r2 != r || c2 != c);
            assert(h[r2][c2] == g[r2][c2]);
            assert(in_board(r2, c2) && h[r2][c2] == v);
        }
        lemma_values_need_cells(h, (m - 1) as u8);
    }
}

/// While eight cells at most are filled, every empty cell has a candidate.
pub proof fn lemma_few_filled(g: Grid, r: int, c: int) -> (v: u8)
    requires
        is_grid(g),
        in_board(r, c),
        g[r][c] == 0,
        filled_count(g) <= 8,
    ensures
        1 <= v <= 9,
        candidates(g, r, c).contains(v),
{
    if forall|w: u8| 1 <= w <= 9 ==> #[trigger] blocked(g, r, c, w) {
        assert forall|w: u8| 1 <= w <= 9 implies held(g, w) by {
            assert(blocked(g, r, c, w));
            let (r2, c2) = choose|r2: int, c2: int|
                #![trigger peers(r, c, r2, c2)]
                peers(r, c, r2, c2) && g[r2][c2] == w;
            assert(in_board(r2, c2) && g[r2][c2] == w);
        }
        lemma_values_need_cells(g, 9);
    }
    choose|w: u8| 1 <= w <= 9 && !#[trigger] blocked(g, r, c, w)
}

} // verus!
