//! The mathematical model of a Sudoku board.
//!
//! A board is a 9x9 grid of cell values, `0` for an empty cell and `1..=9`
//! for a filled one. Everything in this module is specification: the
//! executable types state their contracts over these definitions.

use vstd::prelude::*;

verus! {

/// Nine rows of nine cell values each.
pub type Grid = Seq<Seq<u8>>;

/// `(r, c)` names one of the 81 cells.
pub open spec fn in_board(r: int, c: int) -> bool {
    0 <= r < 9 && 0 <= c < 9
}

/// The shape and value range every board has.
pub open spec fn is_grid(g: Grid) -> bool {
    &&& g.len() == 9
    &&& forall|r: int| 0 <= r < 9 ==> (#[trigger] g[r]).len() == 9
    &&& forall|r: int, c: int| in_board(r, c) ==> #[trigger] g[r][c] <= 9
}

/// Two cells share a row, a column or a 3x3 block.
pub open spec fn same_unit(r1: int, c1: int, r2: int, c2: int) -> bool {
    r1 == r2 || c1 == c2 || (r1 / 3 == r2 / 3 && c1 / 3 == c2 / 3)
}

/// Two distinct cells of the board that constrain each other.
pub open spec fn peers(r1: int, c1: int, r2: int, c2: int) -> bool {
    &&& in_board(r1, c1)
    &&& in_board(r2, c2)
    &&& (r1 != r2 || c1 != c2)
    &&& same_unit(r1, c1, r2, c2)
}

/// The row of the `idx`-th cell of the block that holds row `r`.
pub open spec fn block_row(r: int, idx: int) -> int {
    (r / 3) * 3 + idx / 3
}

/// The column of the `idx`-th cell of the block that holds column `c`.
pub open spec fn block_col(c: int, idx: int) -> int {
    (c / 3) * 3 + idx % 3
}

/// `(r2, c2)` is the `idx`-th cell of the row, of the column or of the block
/// of `(r, c)`.
pub open spec fn unit_cell(r: int, c: int, idx: int, r2: int, c2: int) -> bool {
    ||| (r2 == r && c2 == idx)
    ||| (r2 == idx && c2 == c)
    ||| (r2 == block_row(r, idx) && c2 == block_col(c, idx))
}

/// No cell is empty.
pub open spec fn complete(g: Grid) -> bool {
    forall|r: int, c: int| in_board(r, c) ==> #[trigger] g[r][c] != 0
}

/// No two peers hold the same nonzero value.
pub open spec fn compatible(g: Grid) -> bool {
    forall|r1: int, c1: int, r2: int, c2: int|
        #![trigger peers(r1, c1, r2, c2)]
        peers(r1, c1, r2, c2) && g[r1][c1] != 0 ==> g[r1][c1] != g[r2][c2]
}

/// The grid with every cell empty.
pub open spec fn empty_grid() -> Grid {
    Seq::new(9, |r: int| Seq::new(9, |c: int| 0u8))
}

/// The grid `g` with `v` written at `(r, c)`.
pub open spec fn put(g: Grid, r: int, c: int, v: u8) -> Grid {
    g.update(r, g[r].update(c, v))
}

/// Every filled cell of `g` holds the same value in `s`.
pub open spec fn extends(g: Grid, s: Grid) -> bool {
    forall|r: int, c: int| in_board(r, c) && g[r][c] != 0 ==> #[trigger] s[r][c] == g[r][c]
}

/// A finished, conflict-free board.
pub open spec fn is_solution(s: Grid) -> bool {
    is_grid(s) && complete(s) && compatible(s)
}

/// `s` is a finished, conflict-free board that keeps every filled cell of `g`.
pub open spec fn solves(s: Grid, g: Grid) -> bool {
    is_solution(s) && extends(g, s)
}

/// Some finished, conflict-free board keeps every filled cell of `g`.
pub open spec fn solvable(g: Grid) -> bool {
    exists|s: Grid| solves(s, g)
}

/// The value of the `k`-th cell in row-major order.
pub open spec fn cell_at(g: Grid, k: int) -> u8 {
    g[k / 9][k % 9]
}

/// How many of the first `n` cells, in row-major order, are filled.
pub open spec fn filled_upto(g: Grid, n: nat) -> nat
    decreases n,
{
    if n == 0 {
        0
    } else {
        filled_upto(g, (n - 1) as nat) + if cell_at(g, n - 1) != 0 {
            1nat
        } else {
            0nat
        }
    }
}

/// How many cells are filled.
pub open spec fn filled_count(g: Grid) -> nat {
    filled_upto(g, 81)
}

/// How many cells are empty.
pub open spec fn empty_count(g: Grid) -> nat {
    (81 - filled_count(g)) as nat
}

/// Every peer of a cell is the `idx`-th cell of its row, column or block for
/// some `idx` below 9.
pub proof fn lemma_peer_is_unit_cell(r: int, c: int, r2: int, c2: int) -> (idx: int)
    requires
        peers(r, c, r2, c2),
    ensures
        0 <= idx < 9,
        unit_cell(r, c, idx, r2, c2),
{
    if r2 == r {
        c2
    } else if c2 == c {
        r2
    } else {
        let idx = (r2 % 3) * 3 + c2 % 3;
        assert(idx / 3 == r2 % 3 && idx % 3 == c2 % 3);
        idx
    }
}

/// The `idx`-th cell of the row, column or block of a cell is the cell itself
/// or one of its peers.
pub proof fn lemma_unit_cell_is_peer(r: int, c: int, idx: int, r2: int, c2: int)
    requires
        in_board(r, c),
        0 <= idx < 9,
        unit_cell(r, c, idx, r2, c2),
    ensures
        in_board(r2, c2),
        (r2 == r && c2 == c) || peers(r, c, r2, c2),
{
}

/// Writing a cell value into a cell of the board gives a grid again, with
/// that value in that cell and every other cell as it was.
pub proof fn lemma_put_is_grid(g: Grid, r: int, c: int, v: u8)
    requires
        is_grid(g),
        in_board(r, c),
        v <= 9,
    ensures
        is_grid(put(g, r, c, v)),
        put(g, r, c, v)[r][c] == v,
        forall|r2: int, c2: int|
            in_board(r2, c2) && (r2 != r || c2 != c) ==> #[trigger] put(g, r, c, v)[r2][c2]
                == g[r2][c2],
{
    let p = put(g, r, c, v);
    assert forall|r2: int| 0 <= r2 < 9 implies (#[trigger] p[r2]).len() == 9 by {
        assert(g[r2].len() == 9);
    }
    assert forall|r2: int, c2: int| in_board(r2, c2) implies #[trigger] p[r2][c2] <= 9 by {
        assert(g[r2].len() == 9);
        assert(g[r2][c2] <= 9);
    }
    assert forall|r2: int, c2: int| in_board(r2, c2) && (r2 != r || c2 != c) implies #[trigger] p[r2][c2]
        == g[r2][c2] by {
        assert(g[r2].len() == 9);
    }
}

/// No more cells are filled than there are.
pub proof fn lemma_filled_upto_bound(g: Grid, n: nat)
    ensures
        filled_upto(g, n) <= n,
    decreases n,
{
    if n > 0 {
        lemma_filled_upto_bound(g, (n - 1) as nat);
    }
}

/// Writing at cell `k` changes the count of the first `n` cells by what
/// changed at `k`, and only once `n` has passed `k`.
pub proof fn lemma_filled_upto_put(g: Grid, r: int, c: int, v: u8, n: nat)
    requires
        is_grid(g),
        in_board(r, c),
        v <= 9,
        n <= 81,
    ensures
        filled_upto(put(g, r, c, v), n) + (if n > 9 * r + c && g[r][c] != 0 {
            1nat
        } else {
            0nat
        }) == filled_upto(g, n) + (if n > 9 * r + c && v != 0 {
            1nat
        } else {
            0nat
        }),
    decreases n,
{
    lemma_put_is_grid(g, r, c, v);
    if n > 0 {
        lemma_filled_upto_put(g, r, c, v, (n - 1) as nat);
        let k = n - 1;
        let p = put(g, r, c, v);
        if k == 9 * r + c {
            assert(k / 9 == r && k % 9 == c);
            assert(cell_at(p, k) == v);
        } else {
            assert(in_board(k / 9, k % 9));
            assert(k / 9 != r || k % 9 != c);
            assert(p[k / 9][k % 9] == g[k / 9][k % 9]);
        }
    }
}

/// Filling an empty cell leaves one empty cell fewer.
pub proof fn lemma_fill_decreases_empty(g: Grid, r: int, c: int, v: u8)
    requires
        is_grid(g),
        in_board(r, c),
        g[r][c] == 0,
        1 <= v <= 9,
    ensures
        filled_count(put(g, r, c, v)) == filled_count(g) + 1,
        empty_count(put(g, r, c, v)) + 1 == empty_count(g),
{
    lemma_filled_upto_put(g, r, c, v, 81);
    lemma_filled_upto_bound(put(g, r, c, v), 81);
}

/// Clearing a filled cell leaves one filled cell fewer.
pub proof fn lemma_clear_decreases_filled(g: Grid, r: int, c: int)
    requires
        is_grid(g),
        in_board(r, c),
        g[r][c] != 0,
    ensures
        filled_count(put(g, r, c, 0)) + 1 == filled_count(g),
{
    lemma_filled_upto_put(g, r, c, 0, 81);
}

/// If the first `n` cells are all filled, the count is `n`, and conversely.
pub proof fn lemma_filled_upto_full(g: Grid, n: nat)
    ensures
        filled_upto(g, n) == n <==> forall|k: int| 0 <= k < n ==> #[trigger] cell_at(g, k) != 0,
    decreases n,
{
    if n > 0 {
        lemma_filled_upto_full(g, (n - 1) as nat);
        lemma_filled_upto_bound(g, (n - 1) as nat);
        if filled_upto(g, n) == n {
            assert forall|k: int| 0 <= k < n implies #[trigger] cell_at(g, k) != 0 by {
                if k < n - 1 {
                } else {
                    assert(k == n - 1);
                }
            }
        } else {
            if forall|k: int| 0 <= k < n ==> #[trigger] cell_at(g, k) != 0 {
                assert(cell_at(g, n - 1) != 0);
                assert(forall|k: int| 0 <= k < n - 1 ==> #[trigger] cell_at(g, k) != 0);
                assert(false);
            }
        }
    }
}

/// A board is complete exactly when all 81 cells are counted as filled.
pub proof fn lemma_complete_iff_full(g: Grid)
    ensures
        complete(g) <==> filled_count(g) == 81,
        complete(g) <==> empty_count(g) == 0,
{
    lemma_filled_upto_full(g, 81);
    lemma_filled_upto_bound(g, 81);
    if complete(g) {
        assert forall|k: int| 0 <= k < 81 implies #[trigger] cell_at(g, k) != 0 by {
            assert(in_board(k / 9, k % 9));
        }
    }
    if filled_count(g) == 81 {
        assert forall|r: int, c: int| in_board(r, c) implies #[trigger] g[r][c] != 0 by {
            let k = 9 * r + c;
            assert(k / 9 == r && k % 9 == c);
            assert(cell_at(g, k) != 0);
        }
    }
}

/// The empty grid is a grid without a filled cell.
pub proof fn lemma_empty_grid()
    ensures
        is_grid(empty_grid()),
        compatible(empty_grid()),
        filled_count(empty_grid()) == 0,
        forall|r: int, c: int| in_board(r, c) ==> #[trigger] empty_grid()[r][c] == 0,
{
    lemma_empty_upto(81);
}

/// None of the first `n` cells of the empty grid is filled.
proof fn lemma_empty_upto(n: nat)
    requires
        n <= 81,
    ensures
        filled_upto(empty_grid(), n) == 0,
    decreases n,
{
    if n > 0 {
        lemma_empty_upto((n - 1) as nat);
        let k = n - 1;
        assert(in_board(k / 9, k % 9));
        assert(empty_grid()[k / 9][k % 9] == 0);
    }
}

/// A grid is the empty grid as soon as it has its shape and no filled cell.
pub proof fn lemma_all_zero_is_empty_grid(g: Grid)
    requires
        is_grid(g),
        forall|r: int, c: int| in_board(r, c) ==> #[trigger] g[r][c] == 0,
    ensures
        g == empty_grid(),
{
    assert forall|r: int| 0 <= r < 9 implies #[trigger] g[r] == empty_grid()[r] by {
        assert(g[r].len() == 9);
        assert forall|c: int| 0 <= c < 9 implies g[r][c] == #[trigger] empty_grid()[r][c] by {
            assert(in_board(r, c));
            assert(g[r][c] == 0);
        }
        assert(g[r] =~= empty_grid()[r]);
    }
    assert(g =~= empty_grid());
}

/// Grids of the board's shape are equal when all their cells are.
pub proof fn lemma_grid_ext(g: Grid, h: Grid)
    requires
        is_grid(g),
        is_grid(h),
        forall|r: int, c: int| in_board(r, c) ==> #[trigger] g[r][c] == h[r][c],
    ensures
        g == h,
{
    assert forall|r: int| 0 <= r < 9 implies #[trigger] g[r] == h[r] by {
        assert(g[r].len() == 9);
        assert(h[r].len() == 9);
        assert forall|c: int| 0 <= c < 9 implies #[trigger] g[r][c] == h[r][c] by {
            assert(in_board(r, c));
        }
        assert(g[r] =~= h[r]);
    }
    assert(g =~= h);
}

} // verus!
