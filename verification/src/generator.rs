//! The puzzle generator: a random seed, solved, then carved down to the
//! number of filled cells that was asked for.

use vstd::prelude::*;
use crate::candidates::{candidate_grid, candidates, lemma_assign_is_rederivation};
use crate::grid::{
    cell_at, compatible, complete, filled_count, filled_upto, in_board, is_grid,
    lemma_clear_decreases_filled, lemma_complete_iff_full, lemma_empty_grid,
    lemma_fill_decreases_empty, lemma_put_is_grid, put, solvable, solves, Grid,
};
use crate::matrix::SudokuMatrix;
use crate::pattern::lemma_empty_grid_solvable;
use crate::propagation::lemma_put_candidate_compatible;
use crate::random::{choose_value, random_u32, shuffle};
use crate::scarcity::lemma_few_filled;
use crate::search::{lemma_search_sound, lemma_solvable_is_compatible};
use crate::solver::{search_board, solve_sudoku, SearchEnd, SudokuSolverState};

verus! {

/// How many cells a random seed gets.
pub const SEED_CELLS: usize = 15;

/// How many boards the search may look at for one seed before the seed is
/// dropped.
pub const SEED_SEARCH_STEPS: u64 = 1000;

/// How many random seeds are tried before the empty board is taken as seed.
pub const SEED_ATTEMPTS: usize = 1000;

/// How many of the first `n` cells, in row-major order, are empty.
pub open spec fn empty_upto(g: Grid, n: nat) -> int {
    n - filled_upto(g, n)
}

/// Finds the empty cell that has exactly `count` empty cells before it in
/// row-major order; there is none when the board has `count` empty cells or
/// fewer.
pub fn get_empty_cell_coordinate_by_count(mat: &SudokuMatrix, count: usize) -> (cell: Option<
    (usize, usize),
>)
    ensures
        match cell {
            Some((r, c)) => r < 9 && c < 9 && mat@[r as int][c as int] == 0 && empty_upto(
                mat@,
                (9 * r + c) as nat,
            ) == count,
            None => empty_upto(mat@, 81) <= count,
        },
{
    let mut ahead = count;
    for i in 0..9usize
        invariant
            ahead <= count,
            empty_upto(mat@, (9 * i) as nat) == count - ahead,
    {
        for j in 0..9usize
            invariant
                i < 9,
                ahead <= count,
                empty_upto(mat@, (9 * i + j) as nat) == count - ahead,
        {
            let ghost k = (9 * i + j) as int;
            proof {
                assert(k / 9 == i && k % 9 == j);
                assert(filled_upto(mat@, (k + 1) as nat) == filled_upto(mat@, k as nat) + (if cell_at(
                    mat@,
                    k,
                ) != 0 {
                    1nat
                } else {
                    0nat
                }));
            }
            if mat.get_value(i, j) == 0 {
                if ahead == 0 {
                    return Some((i, j));
                } else {
                    ahead -= 1
                }
            }
        }
    }
    None
}

/// Which empty cell a draw names while the `fill_idx`-th seed value is
/// placed: how many empty cells stand before it in row-major order.
pub open spec fn drawn_count(fill_idx: usize, draw: u32) -> int {
    draw as int % (81 - fill_idx)
}

/// Picks the cell for the `fill_idx`-th seed value from a number that was
/// drawn: the empty cell that has `drawn_count(fill_idx, draw)` empty cells
/// before it. On a board with `fill_idx` filled cells at most there is such
/// a cell, whatever was drawn.
pub fn seed_cell(mat: &SudokuMatrix, fill_idx: usize, draw: u32) -> (cell: Option<(usize, usize)>)
    requires
        fill_idx < 81,
    ensures
        match cell {
            Some((r, c)) => r < 9 && c < 9 && mat@[r as int][c as int] == 0 && empty_upto(
                mat@,
                (9 * r + c) as nat,
            ) == drawn_count(fill_idx, draw),
            None => empty_upto(mat@, 81) <= drawn_count(fill_idx, draw),
        },
        filled_count(mat@) <= fill_idx ==> cell is Some,
{
    let pid = (draw as usize) % (81 - fill_idx);
    get_empty_cell_coordinate_by_count(mat, pid)
}

/// Writes the value that was picked for the empty cell `(r, c)` of a seed
/// into the board and the state. Nothing is picked when the cell has no
/// candidate left: then nothing is written, and the seed is to be given up.
pub fn seed_write(
    mat: &mut SudokuMatrix,
    state: &mut SudokuSolverState,
    r: usize,
    c: usize,
    picked: Option<u8>,
) -> (written: bool)
    requires
        r < 9,
        c < 9,
        old(state)@ == candidate_grid(old(mat)@),
        picked matches Some(v) ==> candidates(old(mat)@, r as int, c as int).contains(v),
    ensures
        written == picked is Some,
        final(mat)@ == (match picked {
            Some(v) => put(old(mat)@, r as int, c as int, v),
            None => old(mat)@,
        }),
        final(state)@ == candidate_grid(final(mat)@),
        compatible(old(mat)@) ==> compatible(final(mat)@),
        filled_count(final(mat)@) == filled_count(old(mat)@) + (if written {
            1nat
        } else {
            0nat
        }),
{
    match picked {
        None => false,
        Some(v) => {
            proof {
                use_type_invariant(&*mat);
                state.lemma_tracks(mat@);
                if compatible(mat@) {
                    lemma_put_candidate_compatible(mat@, r as int, c as int, v);
                }
                lemma_assign_is_rederivation(mat@, r as int, c as int, v);
                lemma_fill_decreases_empty(mat@, r as int, c as int, v);
            }
            mat.set_value(r, c, v);
            state.update_with_new_value(r, c, v);
            true
        },
    }
}

/// Fills `filled_cnt` cells of an empty board at random: each time an empty
/// cell is drawn and one of its candidates is written into it. When the
/// cell that was drawn has no candidate left the seed is given up, and
/// there is none. A seed is free of conflicts; it may have no solution.
/// While eight cells at most are filled every empty cell has a candidate,
/// so a seed of up to nine cells is never given up.
pub fn create_seed_matrix(filled_cnt: usize) -> (seed: Option<SudokuMatrix>)
    requires
        filled_cnt <= 81,
    ensures
        seed matches Some(m) ==> compatible(m@) && filled_count(m@) == filled_cnt,
        filled_cnt <= 9 ==> seed is Some,
{
    let mut mat = SudokuMatrix::new();
    let mut state = SudokuSolverState::init_state_from_matrix(&mat);
    let mut rng = rand::rng();
    proof {
        lemma_empty_grid();
    }
    for fill_idx in 0..filled_cnt
        invariant
            filled_cnt <= 81,
            compatible(mat@),
            state@ == candidate_grid(mat@),
            filled_count(mat@) == fill_idx,
    {
        let draw = random_u32(&mut rng);
        match seed_cell(&mat, fill_idx, draw) {
            None => {
                return None;
            },
            Some((r, c)) => {
                let avail_vals = state.candidates_of(r, c);
                proof {
                    state.lemma_tracks(mat@);
                    if fill_idx <= 8 {
                        use_type_invariant(&mat);
                        let v = lemma_few_filled(mat@, r as int, c as int);
                        assert(avail_vals@.contains(v));
                    }
                }
                let picked = choose_value(&avail_vals, &mut rng);
                if !seed_write(&mut mat, &mut state, r, c, picked) {
                    return None;
                }
            },
        }
    }
    Some(mat)
}

/// The cell numbers from `0` to `80` in ascending order.
fn cell_numbers() -> (order: Vec<usize>)
    ensures
        order@.len() == 81,
        forall|i: int| 0 <= i < 81 ==> order@[i] == i,
{
    let mut order: Vec<usize> = Vec::new();
    for i in 0..81usize
        invariant
            order@.len() == i,
            forall|j: int| 0 <= j < i ==> order@[j] == j,
    {
        order.push(i);
    }
    order
}

/// Clears the cells that `order` names from position `keep` on; a cell is
/// named by its number in row-major order. Every other cell stays as it
/// is.
pub fn remove_cells(mat: &mut SudokuMatrix, order: &Vec<usize>, keep: usize)
    requires
        forall|i: int| 0 <= i < order@.len() ==> order@[i] < 81,
    ensures
        forall|k: int|
            0 <= k < 81 ==> #[trigger] cell_at(final(mat)@, k) == (if named_from(
                order@,
                keep as int,
                k,
            ) {
                0
            } else {
                cell_at(old(mat)@, k)
            }),
        complete(old(mat)@) && order@.no_duplicates() ==> filled_count(final(mat)@) == 81 - (if keep
            < order@.len() {
            order@.len() - keep
        } else {
            0
        }),
{
    let ghost g0 = mat@;
    let n = order.len();
    proof {
        use_type_invariant(&*mat);
        lemma_complete_iff_full(g0);
    }
    if keep < n {
        for i in keep..n
            invariant
                keep < n,
                n == order@.len(),
                is_grid(g0),
                forall|j: int| 0 <= j < order@.len() ==> order@[j] < 81,
                forall|k: int|
                    0 <= k < 81 ==> #[trigger] cell_at(mat@, k) == (if cleared_upto(
                        order@,
                        keep as int,
                        i as int,
                        k,
                    ) {
                        0
                    } else {
                        cell_at(g0, k)
                    }),
                complete(g0) && order@.no_duplicates() ==> filled_count(mat@) == 81 - (i - keep),
        {
            let cell = order[i];
            let ghost h = mat@;
            proof {
                use_type_invariant(&*mat);
                assert(in_board(cell as int / 9, cell as int % 9));
                if complete(g0) && order@.no_duplicates() {
                    assert(!cleared_upto(order@, keep as int, i as int, cell as int));
                    assert(cell_at(h, cell as int) == cell_at(g0, cell as int));
                    assert(g0[cell as int / 9][cell as int % 9] != 0);
                    lemma_clear_decreases_filled(h, cell as int / 9, cell as int % 9);
                }
                lemma_put_is_grid(h, cell as int / 9, cell as int % 9, 0);
            }
            mat.set_value(cell / 9, cell % 9, 0);
            proof {
                assert forall|k: int| 0 <= k < 81 implies #[trigger] cell_at(mat@, k) == (
                if cleared_upto(order@, keep as int, i + 1, k) {
                    0
                } else {
                    cell_at(g0, k)
                }) by {
                    assert(in_board(k / 9, k % 9));
                    assert(cleared_upto(order@, keep as int, i + 1, k) <==> (cleared_upto(
                        order@,
                        keep as int,
                        i as int,
                        k,
                    ) || k == cell));
                    if k != cell {
                        assert(k / 9 != cell as int / 9 || k % 9 != cell as int % 9);
                        assert(cell_at(mat@, k) == cell_at(h, k));
                    }
                }
            }
        }
    }
}

/// `order` names cell `k` at some position from `from` up to `to`
/// (exclusive).
pub open spec fn cleared_upto(order: Seq<usize>, from: int, to: int, k: int) -> bool {
    exists|i: int| from <= i < to && 0 <= i < order.len() && #[trigger] order[i] == k
}

/// `order` names cell `k` at some position from `from` on.
pub open spec fn named_from(order: Seq<usize>, from: int, k: int) -> bool {
    cleared_upto(order, from, order.len() as int, k)
}

/// Generates a puzzle: a board with `filled_cnt` filled cells, or with all
/// 81 filled if `filled_cnt` is more, that is free of conflicts and has a
/// solution.
///
/// A random seed of `SEED_CELLS` cells is solved, and cells of the solved
/// board are cleared in random order until `filled_cnt` are left. An
/// attempt is dropped, and another one made, when the seed was given up,
/// when it has no solution or when the search for one has looked at
/// `SEED_SEARCH_STEPS` boards without an end. After `SEED_ATTEMPTS`
/// attempts were dropped the empty board, which has a solution, is taken as
/// the seed, so the call always returns; with the limits as they are this
/// is not to be expected in practice.
pub fn create_matrix(filled_cnt: usize) -> (mat: SudokuMatrix)
    ensures
        filled_count(mat@) == (if filled_cnt < 81 {
            filled_cnt
        } else {
            81
        }),
        compatible(mat@),
        solvable(mat@),
{
    let mut attempt: usize = 0;
    loop
        invariant
            attempt <= SEED_ATTEMPTS,
        decreases SEED_ATTEMPTS - attempt,
    {
        let mut solved: Option<SudokuMatrix> = None;
        if attempt < SEED_ATTEMPTS {
            if let Some(seed) = create_seed_matrix(SEED_CELLS) {
                let mut mat = seed;
                let ghost start = mat@;
                let mut steps = SEED_SEARCH_STEPS;
                proof {
                    lemma_search_sound(start);
                }
                match search_board(&mut mat, true, &mut steps) {
                    SearchEnd::Solved => {
                        solved = Some(mat);
                    },
                    _ => {},
                }
            }
        } else {
            let mut mat = SudokuMatrix::new();
            proof {
                lemma_empty_grid_solvable();
            }
            if solve_sudoku(&mut mat, true) {
                solved = Some(mat);
            }
        }
        if let Some(full_board) = solved {
            let mut mat = full_board;
            let ghost full = mat@;
            let mut rng = rand::rng();
            let mut idx = cell_numbers();
            let ghost sorted = idx@;
            shuffle(&mut idx, &mut rng);
            proof {
                use_type_invariant(&mat);
                lemma_permuted_cell_numbers(sorted, idx@);
            }
            remove_cells(&mut mat, &idx, filled_cnt);
            proof {
                use_type_invariant(&mat);
                lemma_cleared_board_solvable(full, mat@);
            }
            return mat;
        }
        attempt += 1;
    }
}

/// Generates a puzzle as `create_matrix` does and makes sure, by solving a
/// copy of it, that it has a solution. Every generated puzzle has one, so
/// the first one is handed out.
pub fn generate_valid_matrix(filled: usize) -> (mat: SudokuMatrix)
    ensures
        filled_count(mat@) == (if filled < 81 {
            filled
        } else {
            81
        }),
        compatible(mat@),
        solvable(mat@),
{
    loop
        decreases 0int,
    {
        let mat = create_matrix(filled);
        let mut mmat = mat.clone();
        if solve_sudoku(&mut mmat, false) {
            return mat;
        }
    }
}

/// A rearrangement of the cell numbers names each cell once.
proof fn lemma_permuted_cell_numbers(sorted: Seq<usize>, order: Seq<usize>)
    requires
        sorted.len() == 81,
        forall|i: int| 0 <= i < 81 ==> sorted[i] == i,
        order.to_multiset() == sorted.to_multiset(),
    ensures
        order.len() == 81,
        order.no_duplicates(),
        forall|i: int| 0 <= i < order.len() ==> order[i] < 81,
{
    broadcast use vstd::seq_lib::group_to_multiset_ensures;

    assert(sorted.no_duplicates());
    sorted.lemma_multiset_has_no_duplicates();
    order.lemma_multiset_has_no_duplicates_conv();
    assert(order.len() == order.to_multiset().len());
    assert(sorted.len() == sorted.to_multiset().len());
    assert forall|i: int| 0 <= i < order.len() implies order[i] < 81 by {
        let x = order[i];
        assert(order.contains(x));
        assert(order.to_multiset().count(x) > 0);
        assert(sorted.contains(x));
        let j = choose|j: int| 0 <= j < sorted.len() && sorted[j] == x;
        assert(sorted[j] == j);
    }
}

/// A solved board from which cells were cleared is free of conflicts and
/// has a solution: the solved board itself.
proof fn lemma_cleared_board_solvable(full: Grid, g: Grid)
    requires
        is_grid(full),
        complete(full),
        compatible(full),
        is_grid(g),
        forall|k: int| 0 <= k < 81 ==> #[trigger] cell_at(g, k) == 0 || cell_at(g, k) == cell_at(full, k),
    ensures
        solvable(g),
        compatible(g),
{
    assert forall|r: int, c: int| in_board(r, c) && g[r][c] != 0 implies #[trigger] full[r][c]
        == g[r][c] by {
        let k = 9 * r + c;
        assert(k / 9 == r && k % 9 == c);
        assert(cell_at(g, k) == 0 || cell_at(g, k) == cell_at(full, k));
    }
    assert(solves(full, g));
    lemma_solvable_is_compatible(g);
}

} // verus!
