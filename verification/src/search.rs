//! The search: propagation, then branching on the most constrained cell.
//!
//! `search` says which board the solver arrives at, step by step. The lemmas
//! below say what that board is worth: it is a solution of the input
//! whenever there is one, and there is none whenever the search fails.

use vstd::prelude::*;
use crate::candidates::{candidates, lemma_candidates_bounded};
use crate::grid::{
    cell_at, compatible, complete, empty_count, in_board, is_grid, is_solution,
    lemma_fill_decreases_empty, lemma_put_is_grid, peers, put, solvable, solves, Grid,
};
use crate::propagation::{
    lemma_extends_put, lemma_propagate, lemma_solution_cell_is_candidate, propagate,
};

verus! {

/// How many candidates the `k`-th cell, in row-major order, has.
pub open spec fn options(g: Grid, k: int) -> nat {
    candidates(g, k / 9, k % 9).len()
}

/// Some empty cell has no candidate left.
pub open spec fn dead_end(g: Grid) -> bool {
    exists|k: int| 0 <= k < 81 && cell_at(g, k) == 0 && #[trigger] options(g, k) == 0
}

/// The `k`-th cell is the one to branch on: an empty cell with the fewest
/// candidates, and the first such cell in row-major order.
pub open spec fn is_branch_cell(g: Grid, k: int) -> bool {
    &&& 0 <= k < 81
    &&& cell_at(g, k) == 0
    &&& forall|j: int| 0 <= j < 81 && cell_at(g, j) == 0 ==> options(g, k) <= #[trigger] options(g, j)
    &&& forall|j: int| 0 <= j < k && cell_at(g, j) == 0 ==> options(g, k) < #[trigger] options(g, j)
}

/// The cell to branch on.
pub open spec fn branch_cell(g: Grid) -> int {
    choose|k: int| is_branch_cell(g, k)
}

/// The board the solver arrives at from `g`, or `None` where it gives up:
/// on a conflict, on an empty cell without candidates, or when no candidate
/// of the branching cell leads anywhere.
pub open spec fn search(g: Grid) -> Option<Grid>
    decreases empty_count(g), 1int, 0int,
{
    if !is_grid(g) || !compatible(g) {
        None
    } else {
        let p = propagate(g);
        if complete(p) {
            Some(p)
        } else if dead_end(p) {
            None
        } else {
            proof {
                lemma_propagate(g);
            }
            try_values(p, branch_cell(p), 1)
        }
    }
}

/// The board the solver arrives at by trying, in ascending order, the
/// candidates of the `k`-th cell that are at least `v`.
pub open spec fn try_values(p: Grid, k: int, v: int) -> Option<Grid>
    decreases empty_count(p), 0int, 10 - v,
{
    if !is_grid(p) || !(0 <= k < 81) || v < 1 || v > 9 {
        None
    } else if candidates(p, k / 9, k % 9).contains(v as u8) {
        proof {
            lemma_fill_decreases_empty(p, k / 9, k % 9, v as u8);
        }
        match search(put(p, k / 9, k % 9, v as u8)) {
            Some(s) => Some(s),
            None => try_values(p, k, v + 1),
        }
    } else {
        try_values(p, k, v + 1)
    }
}

/// How many boards the search looks at from `g`: `g` itself and every board
/// it branches to.
pub open spec fn search_cost(g: Grid) -> nat
    decreases empty_count(g), 1int, 0int,
{
    if !is_grid(g) || !compatible(g) {
        1
    } else {
        let p = propagate(g);
        if complete(p) || dead_end(p) {
            1
        } else {
            proof {
                lemma_propagate(g);
            }
            1 + try_cost(p, branch_cell(p), 1)
        }
    }
}

/// How many boards the search looks at while it tries, in ascending order,
/// the candidates of the `k`-th cell that are at least `v`.
pub open spec fn try_cost(p: Grid, k: int, v: int) -> nat
    decreases empty_count(p), 0int, 10 - v,
{
    if !is_grid(p) || !(0 <= k < 81) || v < 1 || v > 9 {
        0
    } else if candidates(p, k / 9, k % 9).contains(v as u8) {
        proof {
            lemma_fill_decreases_empty(p, k / 9, k % 9, v as u8);
        }
        let q = put(p, k / 9, k % 9, v as u8);
        if search(q) is Some {
            search_cost(q)
        } else {
            search_cost(q) + try_cost(p, k, v + 1)
        }
    } else {
        try_cost(p, k, v + 1)
    }
}

/// The first empty cell with the fewest candidates among the first `n`
/// cells, or `-1` if none of them is empty.
spec fn best_upto(g: Grid, n: nat) -> int
    decreases n,
{
    if n == 0 {
        -1
    } else {
        let b = best_upto(g, (n - 1) as nat);
        if cell_at(g, n - 1) == 0 && (b < 0 || options(g, n - 1) < options(g, b)) {
            n - 1
        } else {
            b
        }
    }
}

/// What `best_upto` finds is empty, has no more candidates than any empty
/// cell among the first `n`, and fewer than any before it.
proof fn lemma_best_upto(g: Grid, n: nat)
    ensures
        -1 <= best_upto(g, n) < n,
        best_upto(g, n) < 0 ==> forall|j: int| 0 <= j < n ==> #[trigger] cell_at(g, j) != 0,
        best_upto(g, n) >= 0 ==> {
            let b = best_upto(g, n);
            &&& cell_at(g, b) == 0
            &&& forall|j: int|
                0 <= j < n && cell_at(g, j) == 0 ==> options(g, b) <= #[trigger] options(g, j)
            &&& forall|j: int|
                0 <= j < b && cell_at(g, j) == 0 ==> options(g, b) < #[trigger] options(g, j)
        },
    decreases n,
{
    if n > 0 {
        lemma_best_upto(g, (n - 1) as nat);
    }
}

/// A board with an empty cell has a cell to branch on.
pub proof fn lemma_branch_cell_exists(g: Grid)
    requires
        !complete(g),
    ensures
        is_branch_cell(g, branch_cell(g)),
{
    lemma_best_upto(g, 81);
    let b = best_upto(g, 81);
    if b < 0 {
        assert forall|r: int, c: int| in_board(r, c) implies #[trigger] g[r][c] != 0 by {
            let k = 9 * r + c;
            assert(k / 9 == r && k % 9 == c);
            assert(cell_at(g, k) != 0);
        }
    }
    assert(is_branch_cell(g, b));
}

/// There is one cell to branch on at most.
pub proof fn lemma_branch_cell_unique(g: Grid, k: int)
    requires
        is_branch_cell(g, k),
    ensures
        branch_cell(g) == k,
{
    let b = branch_cell(g);
    assert(is_branch_cell(g, b));
    if b < k {
        assert(options(g, k) < options(g, b));
        assert(options(g, b) <= options(g, k));
    } else if k < b {
        assert(options(g, b) < options(g, k));
        assert(options(g, k) <= options(g, b));
    }
}

/// A board that has a solution is free of conflicts.
pub proof fn lemma_solvable_is_compatible(g: Grid)
    requires
        solvable(g),
    ensures
        compatible(g),
{
    let s = choose|s: Grid| solves(s, g);
    assert forall|r1: int, c1: int, r2: int, c2: int|
        #![trigger peers(r1, c1, r2, c2)]
        peers(r1, c1, r2, c2) && g[r1][c1] != 0 implies g[r1][c1] != g[r2][c2] by {
        if g[r1][c1] == g[r2][c2] {
            assert(s[r1][c1] == g[r1][c1]);
            assert(s[r2][c2] == g[r2][c2]);
            assert(peers(r1, c1, r2, c2));
        }
    }
}

/// A board on which some empty cell has no candidate has no solution.
pub proof fn lemma_dead_end_unsolvable(g: Grid)
    requires
        dead_end(g),
    ensures
        !solvable(g),
{
    if solvable(g) {
        let s = choose|s: Grid| solves(s, g);
        let k = choose|k: int| 0 <= k < 81 && cell_at(g, k) == 0 && #[trigger] options(g, k) == 0;
        assert(in_board(k / 9, k % 9));
        lemma_solution_cell_is_candidate(g, s, k / 9, k % 9);
        lemma_candidates_bounded(g, k / 9, k % 9);
        assert(candidates(g, k / 9, k % 9).len() != 0);
    }
}

/// Soundness: a board the search arrives at is complete and free of
/// conflicts, and it agrees with the input on every cell that the input had
/// filled.
pub proof fn lemma_search_sound(g: Grid)
    ensures
        search(g) matches Some(s) ==> solves(s, g),
    decreases empty_count(g), 1int, 0int,
{
    if is_grid(g) && compatible(g) {
        let p = propagate(g);
        lemma_propagate(g);
        if complete(p) {
        } else if dead_end(p) {
        } else {
            lemma_try_values_sound(p, branch_cell(p), 1);
            if let Some(s) = try_values(p, branch_cell(p), 1) {
                assert(solves(s, p));
                assert(solves(s, g));
            }
        }
    }
}

/// Soundness of trying the candidates of one cell.
pub proof fn lemma_try_values_sound(p: Grid, k: int, v: int)
    ensures
        try_values(p, k, v) matches Some(s) ==> solves(s, p),
    decreases empty_count(p), 0int, 10 - v,
{
    if !is_grid(p) || !(0 <= k < 81) || v < 1 || v > 9 {
    } else {
        let (r, c) = (k / 9, k % 9);
        assert(in_board(r, c));
        if candidates(p, r, c).contains(v as u8) {
            let q = put(p, r, c, v as u8);
            lemma_fill_decreases_empty(p, r, c, v as u8);
            lemma_search_sound(q);
            if let Some(s) = search(q) {
                lemma_extends_put(p, s, r, c, v as u8);
            } else {
                lemma_try_values_sound(p, k, v + 1);
            }
        } else {
            lemma_try_values_sound(p, k, v + 1);
        }
    }
}

/// Completeness: on a board that has a solution the search arrives at one.
pub proof fn lemma_search_complete(g: Grid)
    requires
        is_grid(g),
        solvable(g),
    ensures
        search(g) is Some,
    decreases empty_count(g), 1int, 0int,
{
    lemma_solvable_is_compatible(g);
    let s = choose|s: Grid| solves(s, g);
    let p = propagate(g);
    lemma_propagate(g);
    assert(solves(s, p));
    if complete(p) {
    } else {
        if dead_end(p) {
            lemma_dead_end_unsolvable(p);
        }
        lemma_branch_cell_exists(p);
        let k = branch_cell(p);
        let (r, c) = (k / 9, k % 9);
        assert(in_board(r, c));
        lemma_solution_cell_is_candidate(p, s, r, c);
        let w = s[r][c];
        lemma_extends_put(p, s, r, c, w);
        assert(solves(s, put(p, r, c, w)));
        lemma_try_values_complete(p, k, 1, w);
    }
}

/// Completeness of trying the candidates of one cell: if writing the
/// candidate `w`, which is at least `v`, gives a board that has a solution,
/// trying the candidates from `v` on arrives at a board.
pub proof fn lemma_try_values_complete(p: Grid, k: int, v: int, w: u8)
    requires
        is_grid(p),
        0 <= k < 81,
        1 <= v <= w <= 9,
        candidates(p, k / 9, k % 9).contains(w),
        solvable(put(p, k / 9, k % 9, w)),
    ensures
        try_values(p, k, v) is Some,
    decreases empty_count(p), 0int, 10 - v,
{
    let (r, c) = (k / 9, k % 9);
    assert(in_board(r, c));
    if candidates(p, r, c).contains(v as u8) {
        let q = put(p, r, c, v as u8);
        lemma_fill_decreases_empty(p, r, c, v as u8);
        lemma_put_is_grid(p, r, c, v as u8);
        if search(q) is None {
            if v == w {
                lemma_search_complete(q);
            }
            lemma_try_values_complete(p, k, v + 1, w);
        }
    } else {
        lemma_try_values_complete(p, k, v + 1, w);
    }
}

/// The search succeeds exactly on the boards that have a solution.
pub proof fn lemma_search_decides(g: Grid)
    requires
        is_grid(g),
    ensures
        search(g) is Some <==> solvable(g),
{
    lemma_search_sound(g);
    if solvable(g) {
        lemma_search_complete(g);
    }
    if let Some(s) = search(g) {
        assert(solves(s, g));
    }
}

/// Idempotence: on a complete board that is free of conflicts the search
/// arrives at that very board.
pub proof fn lemma_search_solved_board(g: Grid)
    requires
        is_solution(g),
    ensures
        search(g) == Some(g),
{
    assert(propagate(g) == g);
}

/// A board with a conflict is given up at once, whatever else it holds.
pub proof fn lemma_search_conflict(g: Grid)
    requires
        !compatible(g),
    ensures
        search(g) is None,
        !solvable(g),
{
    if solvable(g) {
        lemma_solvable_is_compatible(g);
    }
}

} // verus!
