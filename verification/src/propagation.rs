//! Forced moves: what the solver deduces without guessing.
//!
//! A cell with exactly one candidate must hold it. A pass visits the 81
//! cells in row-major order and fills each cell that is forced at the moment
//! it is visited; propagation repeats passes until one changes nothing.

use vstd::prelude::*;
use crate::candidates::{blocked, candidates, lemma_candidates_bounded};
use crate::grid::{
    compatible, complete, empty_count, extends, filled_count, in_board, is_grid,
    lemma_fill_decreases_empty, lemma_filled_upto_bound, lemma_put_is_grid, peers, put, solves,
    Grid,
};

verus! {

/// The `k`-th cell, in row-major order, has exactly one candidate.
pub open spec fn forced(g: Grid, k: int) -> bool {
    candidates(g, k / 9, k % 9).len() == 1
}

/// The grid after the `k`-th cell was visited: filled with its candidate if
/// it had exactly one, and left alone otherwise.
pub open spec fn visit(g: Grid, k: int) -> Grid {
    if forced(g, k) {
        put(g, k / 9, k % 9, candidates(g, k / 9, k % 9).choose())
    } else {
        g
    }
}

/// The grid after the first `n` cells were visited in row-major order.
pub open spec fn pass_upto(g: Grid, n: nat) -> Grid
    decreases n,
{
    if n == 0 {
        g
    } else {
        visit(pass_upto(g, (n - 1) as nat), n - 1)
    }
}

/// The grid after one pass over all 81 cells.
pub open spec fn pass(g: Grid) -> Grid {
    pass_upto(g, 81)
}

/// The grid after passes were repeated until the board was complete or a
/// pass changed nothing.
pub open spec fn propagate(g: Grid) -> Grid
    decreases empty_count(g),
{
    if !is_grid(g) || complete(g) || pass(g) == g {
        g
    } else {
        proof {
            lemma_pass_upto(g, 81);
        }
        propagate(pass(g))
    }
}

/// A finite set of one element is the set of that element, and choosing from
/// it gives that element.
pub proof fn lemma_singleton(s: Set<u8>, v: u8)
    requires
        s.finite(),
        s.len() == 1,
        s.contains(v),
    ensures
        s == set![v],
        s.choose() == v,
{
    assert(s.remove(v).len() == 0);
    assert(s.remove(v) =~= Set::empty());
    assert(s =~= set![v]);
    assert(s.contains(s.choose()));
}

/// In a solution of `g`, every cell that `g` leaves empty holds one of its
/// candidates on `g`.
pub proof fn lemma_solution_cell_is_candidate(g: Grid, s: Grid, r: int, c: int)
    requires
        solves(s, g),
        in_board(r, c),
        g[r][c] == 0,
    ensures
        candidates(g, r, c).contains(s[r][c]),
{
    let v = s[r][c];
    assert(v != 0);
    assert(v <= 9);
    if blocked(g, r, c, v) {
        let (r2, c2) = choose|r2: int, c2: int|
            #![trigger peers(r, c, r2, c2)]
            peers(r, c, r2, c2) && g[r2][c2] == v;
        assert(s[r2][c2] == g[r2][c2]);
        assert(peers(r, c, r2, c2));
        assert(false);
    }
}

/// Writing a candidate into its cell keeps a conflict-free grid free of
/// conflicts.
pub proof fn lemma_put_candidate_compatible(g: Grid, r: int, c: int, v: u8)
    requires
        is_grid(g),
        compatible(g),
        in_board(r, c),
        candidates(g, r, c).contains(v),
    ensures
        compatible(put(g, r, c, v)),
{
    let p = put(g, r, c, v);
    lemma_put_is_grid(g, r, c, v);
    assert forall|r1: int, c1: int, r2: int, c2: int|
        #![trigger peers(r1, c1, r2, c2)]
        peers(r1, c1, r2, c2) && p[r1][c1] != 0 implies p[r1][c1] != p[r2][c2] by {
        if r1 == r && c1 == c {
            assert(p[r2][c2] == g[r2][c2]);
            if g[r2][c2] == v {
                assert(peers(r, c, r2, c2) && g[r2][c2] == v);
                assert(blocked(g, r, c, v));
            }
        } else if r2 == r && c2 == c {
            assert(p[r1][c1] == g[r1][c1]);
            if g[r1][c1] == v {
                assert(peers(r, c, r1, c1) && g[r1][c1] == v);
                assert(blocked(g, r, c, v));
            }
        } else {
            assert(p[r1][c1] == g[r1][c1]);
            assert(p[r2][c2] == g[r2][c2]);
        }
    }
}

/// A grid that keeps the filled cells of `g` with `v` written into an empty
/// cell is one that keeps the filled cells of `g` and holds `v` there.
pub proof fn lemma_extends_put(g: Grid, s: Grid, r: int, c: int, v: u8)
    requires
        is_grid(g),
        in_board(r, c),
        g[r][c] == 0,
        1 <= v <= 9,
    ensures
        extends(put(g, r, c, v), s) <==> (extends(g, s) && s[r][c] == v),
{
    let p = put(g, r, c, v);
    lemma_put_is_grid(g, r, c, v);
    if extends(p, s) {
        assert(s[r][c] == p[r][c]);
        assert forall|r2: int, c2: int| in_board(r2, c2) && g[r2][c2] != 0 implies #[trigger] s[r2][c2]
            == g[r2][c2] by {
            assert(p[r2][c2] == g[r2][c2]);
            assert(s[r2][c2] == p[r2][c2]);
        }
    }
    if extends(g, s) && s[r][c] == v {
        assert forall|r2: int, c2: int| in_board(r2, c2) && p[r2][c2] != 0 implies #[trigger] s[r2][c2]
            == p[r2][c2] by {
            if r2 == r && c2 == c {
            } else {
                assert(p[r2][c2] == g[r2][c2]);
                assert(s[r2][c2] == g[r2][c2]);
            }
        }
    }
}

/// Every grid keeps its own filled cells, and keeping filled cells carries
/// over from one grid to the next.
pub proof fn lemma_extends_chain(g: Grid, h: Grid, s: Grid)
    requires
        extends(g, h),
        extends(h, s),
    ensures
        extends(g, s),
        extends(g, g),
{
    assert forall|r: int, c: int| in_board(r, c) && g[r][c] != 0 implies #[trigger] s[r][c]
        == g[r][c] by {
        assert(h[r][c] == g[r][c]);
        assert(s[r][c] == h[r][c]);
    }
}

/// A conflict stays when cells are filled: a board that keeps the filled
/// cells of a board with a conflict has that conflict too.
pub proof fn lemma_conflict_stays(g: Grid, h: Grid)
    requires
        extends(g, h),
        !compatible(g),
    ensures
        !compatible(h),
{
    let (r1, c1, r2, c2) = choose|r1: int, c1: int, r2: int, c2: int|
        #![trigger peers(r1, c1, r2, c2)]
        peers(r1, c1, r2, c2) && g[r1][c1] != 0 && g[r1][c1] == g[r2][c2];
    assert(h[r1][c1] == g[r1][c1]);
    assert(h[r2][c2] == g[r2][c2]);
    assert(peers(r1, c1, r2, c2) && h[r1][c1] != 0 && h[r1][c1] == h[r2][c2]);
}

/// What visiting one cell does: the grid stays a grid and keeps its filled
/// cells and its freedom from conflicts, it has the same solutions as
/// before, and it changes exactly when the cell was forced, by one more
/// filled cell.
pub proof fn lemma_visit(g: Grid, k: int)
    requires
        is_grid(g),
        0 <= k < 81,
    ensures
        is_grid(visit(g, k)),
        extends(g, visit(g, k)),
        compatible(g) ==> compatible(visit(g, k)),
        forall|s: Grid| solves(s, g) <==> #[trigger] solves(s, visit(g, k)),
        forced(g, k) ==> filled_count(visit(g, k)) == filled_count(g) + 1,
        !forced(g, k) ==> visit(g, k) == g,
{
    let (r, c) = (k / 9, k % 9);
    assert(in_board(r, c));
    lemma_extends_chain(g, g, g);
    if forced(g, k) {
        let set = candidates(g, r, c);
        let v = set.choose();
        lemma_candidates_bounded(g, r, c);
        assert(set.len() != 0);
        assert(set.contains(v));
        assert(g[r][c] == 0);
        assert(1 <= v <= 9);
        let p = put(g, r, c, v);
        lemma_put_is_grid(g, r, c, v);
        lemma_fill_decreases_empty(g, r, c, v);
        lemma_extends_put(g, p, r, c, v);
        lemma_extends_chain(p, p, p);
        if compatible(g) {
            lemma_put_candidate_compatible(g, r, c, v);
        }
        assert forall|s: Grid| solves(s, g) <==> #[trigger] solves(s, p) by {
            lemma_extends_put(g, s, r, c, v);
            if solves(s, g) {
                lemma_solution_cell_is_candidate(g, s, r, c);
                lemma_singleton(set, s[r][c]);
            }
        }
    }
}

/// What visiting the first `n` cells does: the grid stays a grid and keeps
/// its filled cells and its freedom from conflicts, it has the same
/// solutions as before, and it changes exactly when it gains filled cells.
pub proof fn lemma_pass_upto(g: Grid, n: nat)
    requires
        is_grid(g),
        n <= 81,
    ensures
        is_grid(pass_upto(g, n)),
        extends(g, pass_upto(g, n)),
        compatible(g) ==> compatible(pass_upto(g, n)),
        forall|s: Grid| solves(s, g) <==> #[trigger] solves(s, pass_upto(g, n)),
        filled_count(pass_upto(g, n)) >= filled_count(g),
        pass_upto(g, n) != g ==> filled_count(pass_upto(g, n)) > filled_count(g),
        pass_upto(g, n) != g ==> empty_count(pass_upto(g, n)) < empty_count(g),
    decreases n,
{
    lemma_extends_chain(g, g, g);
    if n > 0 {
        let h = pass_upto(g, (n - 1) as nat);
        lemma_pass_upto(g, (n - 1) as nat);
        lemma_visit(h, n - 1);
        lemma_extends_chain(g, h, visit(h, n - 1));
        assert forall|s: Grid| solves(s, g) <==> #[trigger] solves(s, pass_upto(g, n)) by {
            assert(solves(s, g) <==> solves(s, h));
            assert(solves(s, h) <==> solves(s, visit(h, n - 1)));
        }
        lemma_filled_upto_bound(pass_upto(g, n), 81);
    }
}

/// None of the first `n` cells has exactly one candidate.
pub open spec fn none_forced(g: Grid, n: int) -> bool {
    forall|k: int| 0 <= k < n ==> !#[trigger] forced(g, k)
}

/// Visiting cells of which none has exactly one candidate changes nothing.
pub proof fn lemma_pass_idle(g: Grid, n: nat)
    requires
        none_forced(g, n as int),
    ensures
        pass_upto(g, n) == g,
    decreases n,
{
    if n > 0 {
        lemma_pass_idle(g, (n - 1) as nat);
        assert(!forced(g, n - 1));
    }
}

/// Visiting cells of which one has exactly one candidate fills a cell.
pub proof fn lemma_pass_fills(g: Grid, n: nat)
    requires
        is_grid(g),
        n <= 81,
        !none_forced(g, n as int),
    ensures
        filled_count(pass_upto(g, n)) > filled_count(g),
    decreases n,
{
    if n > 0 {
        let h = pass_upto(g, (n - 1) as nat);
        lemma_pass_upto(g, (n - 1) as nat);
        lemma_visit(h, n - 1);
        if none_forced(g, n - 1) {
            lemma_pass_idle(g, (n - 1) as nat);
            assert(forced(g, n - 1));
        } else {
            lemma_pass_fills(g, (n - 1) as nat);
        }
    }
}

/// A pass leaves the board as it is exactly when no cell has exactly one
/// candidate.
pub proof fn lemma_pass_changes_iff_forced(g: Grid)
    requires
        is_grid(g),
    ensures
        pass(g) == g <==> none_forced(g, 81),
{
    if none_forced(g, 81) {
        lemma_pass_idle(g, 81);
    } else {
        lemma_pass_fills(g, 81);
    }
}

/// What propagation does: the grid stays a grid and keeps its filled cells
/// and its freedom from conflicts, it has the same solutions as before, and
/// it has no more empty cells than before. At its end the board is complete
/// or another pass would change nothing.
pub proof fn lemma_propagate(g: Grid)
    requires
        is_grid(g),
    ensures
        is_grid(propagate(g)),
        extends(g, propagate(g)),
        compatible(g) ==> compatible(propagate(g)),
        forall|s: Grid| solves(s, g) <==> #[trigger] solves(s, propagate(g)),
        empty_count(propagate(g)) <= empty_count(g),
        complete(propagate(g)) || pass(propagate(g)) == propagate(g),
    decreases empty_count(g),
{
    lemma_extends_chain(g, g, g);
    if complete(g) || pass(g) == g {
    } else {
        let h = pass(g);
        lemma_pass_upto(g, 81);
        lemma_propagate(h);
        lemma_extends_chain(g, h, propagate(h));
        assert forall|s: Grid| solves(s, g) <==> #[trigger] solves(s, propagate(g)) by {
            assert(solves(s, g) <==> solves(s, h));
            assert(solves(s, h) <==> solves(s, propagate(h)));
        }
    }
}

} // verus!
