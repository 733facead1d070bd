//! The constraint state and the solver built on it.

use std::collections::HashSet;
use vstd::prelude::*;
use crate::candidates::{
    all_values, assign, blocked, blocked_upto, candidate_grid, candidates, full_candidate_grid,
    is_candidate_grid, lemma_all_values, lemma_assign_is_rederivation, lemma_blocked_upto_all,
    lemma_candidate_grid_ext, lemma_candidate_grid_shape, lemma_candidates_bounded,
    CandidateGrid,
};
use crate::grid::{
    block_col, block_row, cell_at, compatible, complete, empty_count, in_board, is_grid,
    is_solution, lemma_fill_decreases_empty, lemma_peer_is_unit_cell, lemma_unit_cell_is_peer,
    peers, solvable, solves, unit_cell, Grid,
};
use crate::matrix::SudokuMatrix;
use crate::propagation::{
    forced, lemma_conflict_stays, lemma_pass_upto, lemma_propagate, lemma_singleton, lemma_visit,
    pass, pass_upto, propagate, visit,
};
use crate::search::{
    branch_cell, dead_end, is_branch_cell, lemma_branch_cell_unique, lemma_search_conflict,
    lemma_search_decides, lemma_search_solved_board, lemma_search_sound, options, search,
    search_cost, try_cost, try_values,
};

verus! {

/// The solver's constraint state: for each cell the set of values that do
/// not conflict with any peer. It is derived from a board and kept up to
/// date, assignment by assignment, with `update_with_new_value`.
#[derive(Debug, Clone)]
pub struct SudokuSolverState {
    pub avail_vals: Vec<Vec<HashSet<u8>>>,
}

impl View for SudokuSolverState {
    type V = CandidateGrid;

    open spec fn view(&self) -> CandidateGrid {
        Seq::new(
            self.avail_vals@.len(),
            |r: int| Seq::new(self.avail_vals@[r]@.len(), |c: int| self.avail_vals@[r]@[c]@),
        )
    }
}

impl SudokuSolverState {
    /// The state holds nine rows of nine sets.
    pub open spec fn shaped(&self) -> bool {
        &&& self.avail_vals@.len() == 9
        &&& forall|r: int| 0 <= r < 9 ==> (#[trigger] self.avail_vals@[r])@.len() == 9
    }

    /// A state whose view has nine rows of nine sets holds them itself, and
    /// its view shows each set as it is.
    pub proof fn lemma_shaped(&self)
        requires
            self@.len() == 9,
            forall|r: int| 0 <= r < 9 ==> (#[trigger] self@[r]).len() == 9,
        ensures
            self.shaped(),
            forall|r: int, c: int|
                in_board(r, c) ==> #[trigger] self@[r][c] == self.avail_vals@[r]@[c]@,
    {
        assert forall|r: int| 0 <= r < 9 implies (#[trigger] self.avail_vals@[r])@.len() == 9 by {
            assert(self@[r].len() == 9);
        }
    }

    /// Creates the state in which every cell may still hold every value.
    pub fn new() -> (state: Self)
        ensures
            state@ == full_candidate_grid(),
            is_candidate_grid(state@),
            state.shaped(),
    {
        let mut avail_vals: Vec<Vec<HashSet<u8>>> = Vec::new();
        for i in 0..9usize
            invariant
                avail_vals@.len() == i,
                forall|r: int| 0 <= r < i ==> (#[trigger] avail_vals@[r])@.len() == 9,
                forall|r: int, c: int|
                    0 <= r < i && 0 <= c < 9 ==> (#[trigger] avail_vals@[r]@[c])@ == all_values(),
        {
            let mut row: Vec<HashSet<u8>> = Vec::new();
            for j in 0..9usize
                invariant
                    row@.len() == j,
                    forall|c: int| 0 <= c < j ==> (#[trigger] row@[c])@ == all_values(),
            {
                let mut set: HashSet<u8> = HashSet::new();
                for v in 1u8..10u8
                    invariant
                        set@ =~= Set::new(|w: u8| 1 <= w < v),
                {
                    set.insert(v);
                }
                assert(set@ =~= all_values());
                row.push(set);
            }
            avail_vals.push(row);
        }
        let state = SudokuSolverState { avail_vals };
        proof {
            assert forall|r: int, c: int| in_board(r, c) implies #[trigger] state@[r][c]
                =~= full_candidate_grid()[r][c] by {
                assert(state.avail_vals@[r]@[c]@ == all_values());
            }
            lemma_candidate_grid_ext(state@, full_candidate_grid());
            state.lemma_shaped();
        }
        state
    }

    /// Derives the state of a board: an empty cell gets the values from `1`
    /// to `9` that occur nowhere in its row, column and block, a filled cell
    /// gets none.
    pub fn init_state_from_matrix(mat: &SudokuMatrix) -> (state: SudokuSolverState)
        ensures
            state@ == candidate_grid(mat@),
            is_candidate_grid(state@),
            state.shaped(),
    {
        let mut state = SudokuSolverState::new();
        proof {
            use_type_invariant(mat);
            state.lemma_shaped();
            assert forall|i: int, j: int| in_board(i, j) implies (
            #[trigger] state.avail_vals@[i]@[j])@ == all_values() by {
                assert(state@[i][j] == all_values());
            }
        }
        for r in 0..9usize
            invariant
                is_grid(mat@),
                state.shaped(),
                forall|i: int, j: int|
                    0 <= i < r && 0 <= j < 9 ==> (#[trigger] state.avail_vals@[i]@[j])@
                        =~= candidates(mat@, i, j),
                forall|i: int, j: int|
                    r <= i < 9 && 0 <= j < 9 ==> (#[trigger] state.avail_vals@[i]@[j])@
                        == all_values(),
        {
            for c in 0..9usize
                invariant
                    r < 9,
                    is_grid(mat@),
                    state.shaped(),
                    forall|i: int, j: int|
                        in_board(i, j) && (i < r || (i == r && j < c)) ==> (
                        #[trigger] state.avail_vals@[i]@[j])@ =~= candidates(mat@, i, j),
                    forall|i: int, j: int|
                        in_board(i, j) && (i > r || (i == r && j >= c)) ==> (
                        #[trigger] state.avail_vals@[i]@[j])@ == all_values(),
            {
                if mat.get_value(r, c) != 0 {
                    state.avail_vals[r][c].clear();
                } else {
                    let block_r = r / 3;
                    let block_c = c / 3;
                    let ghost before = state.avail_vals@;
                    for idx in 0..9usize
                        invariant
                            r < 9,
                            c < 9,
                            block_r == r / 3,
                            block_c == c / 3,
                            is_grid(mat@),
                            state.shaped(),
                            before.len() == 9,
                            forall|i: int| 0 <= i < 9 ==> (#[trigger] before[i])@.len() == 9,
                            forall|i: int, j: int|
                                in_board(i, j) && (i != r || j != c) ==> #[trigger] state.avail_vals@[i]@[j]
                                    == before[i]@[j],
                            state.avail_vals@[r as int]@[c as int]@ =~= Set::new(
                                |v: u8|
                                    1 <= v <= 9 && !blocked_upto(
                                        mat@,
                                        r as int,
                                        c as int,
                                        v,
                                        idx as int,
                                    ),
                            ),
                    {
                        let ghost prev = state.avail_vals@[r as int]@[c as int]@;
                        let in_row = mat.get_value(r, idx);
                        let in_col = mat.get_value(idx, c);
                        let in_block = mat.get_value(block_r * 3 + idx / 3, block_c * 3 + idx % 3);
                        state.avail_vals[r][c].remove(&in_row);
                        state.avail_vals[r][c].remove(&in_col);
                        state.avail_vals[r][c].remove(&in_block);
                        proof {
                            let now = state.avail_vals@[r as int]@[c as int]@;
                            assert(now == prev.remove(in_row).remove(in_col).remove(in_block));
                            assert forall|v: u8| 1 <= v <= 9 implies (blocked_upto(
                                mat@,
                                r as int,
                                c as int,
                                v,
                                idx + 1,
                            ) <==> (blocked_upto(mat@, r as int, c as int, v, idx as int) || v
                                == in_row || v == in_col || v == in_block)) by {
                                let (ri, ci, k) = (r as int, c as int, idx as int);
                                if blocked_upto(mat@, ri, ci, v, k + 1) {
                                    let (j, r2, c2) = choose|j: int, r2: int, c2: int|
                                        #![trigger unit_cell(ri, ci, j, r2, c2)]
                                        0 <= j < k + 1 && unit_cell(ri, ci, j, r2, c2)
                                            && mat@[r2][c2] == v;
                                    if j < k {
                                        assert(unit_cell(ri, ci, j, r2, c2));
                                    }
                                }
                                if blocked_upto(mat@, ri, ci, v, k) {
                                    let (j, r2, c2) = choose|j: int, r2: int, c2: int|
                                        #![trigger unit_cell(ri, ci, j, r2, c2)]
                                        0 <= j < k && unit_cell(ri, ci, j, r2, c2) && mat@[r2][c2]
                                            == v;
                                    assert(unit_cell(ri, ci, j, r2, c2));
                                }
                                if v == in_row {
                                    assert(unit_cell(ri, ci, k, ri, k));
                                }
                                if v == in_col {
                                    assert(unit_cell(ri, ci, k, k, ci));
                                }
                                if v == in_block {
                                    assert(unit_cell(
                                        ri,
                                        ci,
                                        k,
                                        block_row(ri, k),
                                        block_col(ci, k),
                                    ));
                                }
                            }
                        }
                    }
                    proof {
                        assert forall|v: u8| 1 <= v <= 9 implies (blocked_upto(
                            mat@,
                            r as int,
                            c as int,
                            v,
                            9,
                        ) <==> blocked(mat@, r as int, c as int, v)) by {
                            lemma_blocked_upto_all(mat@, r as int, c as int, v);
                        }
                    }
                }
            }
        }
        proof {
            assert forall|i: int, j: int| in_board(i, j) implies #[trigger] state@[i][j]
                =~= candidate_grid(mat@)[i][j] by {
                assert(state.avail_vals@[i]@[j]@ =~= candidates(mat@, i, j));
            }
            lemma_candidate_grid_ext(state@, candidate_grid(mat@));
            state.lemma_tracks(mat@);
        }
        state
    }

    /// Records that `v` was assigned to row `r`, column `c`: the cell loses
    /// every candidate and each other cell of its row, column and block
    /// loses `v`. The board itself is not touched.
    pub fn update_with_new_value(&mut self, r: usize, c: usize, v: u8)
        requires
            r < 9,
            c < 9,
            is_candidate_grid(old(self)@),
        ensures
            final(self)@ == assign(old(self)@, r as int, c as int, v),
            is_candidate_grid(final(self)@),
            final(self).shaped(),
    {
        let block_r = r / 3;
        let block_c = c / 3;
        proof {
            self.lemma_shaped();
        }
        self.avail_vals[r][c].clear();
        for idx in 0..9usize
            invariant
                r < 9,
                c < 9,
                block_r == r / 3,
                block_c == c / 3,
                self.shaped(),
                old(self).shaped(),
                forall|i: int, j: int|
                    in_board(i, j) ==> (#[trigger] self.avail_vals@[i]@[j])@ =~= struck(
                        old(self).avail_vals@[i]@[j]@,
                        r as int,
                        c as int,
                        v,
                        idx as int,
                        i,
                        j,
                    ),
        {
            let ghost prev = *self;
            self.strike(r, idx, v);
            self.strike(idx, c, v);
            self.strike(block_r * 3 + idx / 3, block_c * 3 + idx % 3, v);
            proof {
                let (ri, ci, n) = (r as int, c as int, idx as int);
                assert forall|i: int, j: int| in_board(i, j) implies (
                #[trigger] self.avail_vals@[i]@[j])@ =~= struck(
                    old(self).avail_vals@[i]@[j]@,
                    ri,
                    ci,
                    v,
                    n + 1,
                    i,
                    j,
                ) by {
                    lemma_struck_step(old(self).avail_vals@[i]@[j]@, ri, ci, v, n, i, j);
                    assert(prev.avail_vals@[i]@[j]@ =~= struck(
                        old(self).avail_vals@[i]@[j]@,
                        ri,
                        ci,
                        v,
                        n,
                        i,
                        j,
                    ));
                }
            }
        }
        proof {
            let (ri, ci) = (r as int, c as int);
            let target = assign(old(self)@, ri, ci, v);
            old(self).lemma_shaped();
            assert forall|i: int, j: int| in_board(i, j) implies #[trigger] self@[i][j]
                =~= target[i][j] by {
                assert(old(self)@[i][j] == old(self).avail_vals@[i]@[j]@);
                assert(self@[i][j] == self.avail_vals@[i]@[j]@);
                lemma_struck_all(old(self).avail_vals@[i]@[j]@, ri, ci, v, i, j);
            }
            lemma_candidate_grid_ext(self@, target);
            assert forall|i: int, j: int| in_board(i, j) implies (#[trigger] self@[i][j]).subset_of(
                all_values(),
            ) by {
                assert(old(self)@[i][j].subset_of(all_values()));
            }
        }
    }

    /// A state that holds the candidates of a board has the shape of a
    /// state, and each of its sets is the candidate set of its cell.
    pub proof fn lemma_tracks(&self, g: Grid)
        requires
            self@ == candidate_grid(g),
        ensures
            self.shaped(),
            is_candidate_grid(self@),
            forall|r: int, c: int|
                in_board(r, c) ==> (#[trigger] self.avail_vals@[r]@[c])@ == candidates(g, r, c),
    {
        lemma_candidate_grid_shape(g);
        self.lemma_shaped();
        assert forall|r: int, c: int| in_board(r, c) implies (#[trigger] self.avail_vals@[r]@[c])@
            == candidates(g, r, c) by {
            assert(self@[r][c] == candidates(g, r, c));
        }
    }

    /// Lists the candidates of row `r`, column `c` in ascending order.
    pub fn candidates_of(&self, r: usize, c: usize) -> (values: Vec<u8>)
        requires
            r < 9,
            c < 9,
            is_candidate_grid(self@),
        ensures
            forall|v: u8| values@.contains(v) <==> self@[r as int][c as int].contains(v),
            forall|i: int, j: int| 0 <= i < j < values@.len() ==> values@[i] < values@[j],
    {
        let mut values: Vec<u8> = Vec::new();
        proof {
            self.lemma_shaped();
        }
        let ghost set = self@[r as int][c as int];
        for v in 1u8..10u8
            invariant
                r < 9,
                c < 9,
                self.shaped(),
                set == self.avail_vals@[r as int]@[c as int]@,
                forall|i: int|
                    0 <= i < values@.len() ==> (#[trigger] values@[i]) < v && set.contains(
                        values@[i],
                    ),
                forall|w: u8| 1 <= w < v && set.contains(w) ==> values@.contains(w),
                forall|i: int, j: int| 0 <= i < j < values@.len() ==> values@[i] < values@[j],
        {
            if self.avail_vals[r][c].contains(&v) {
                let ghost before = values@;
                values.push(v);
                proof {
                    assert forall|w: u8| 1 <= w < v + 1 && set.contains(w) implies values@.contains(
                        w,
                    ) by {
                        if w < v {
                            assert(before.contains(w));
                            let i = choose|i: int| 0 <= i < before.len() && before[i] == w;
                            assert(values@[i] == w);
                        } else {
                            assert(values@[before.len() as int] == w);
                        }
                    }
                }
            }
        }
        proof {
            assert forall|w: u8| values@.contains(w) <==> set.contains(w) by {
                if set.contains(w) {
                    assert(set.subset_of(all_values()));
                    assert(all_values().contains(w));
                }
                if values@.contains(w) {
                    let i = choose|i: int| 0 <= i < values@.len() && values@[i] == w;
                    assert(set.contains(values@[i]));
                }
            }
        }
        values
    }

    /// Takes `v` out of the candidates of one cell.
    fn strike(&mut self, r: usize, c: usize, v: u8)
        requires
            r < 9,
            c < 9,
            old(self).shaped(),
        ensures
            final(self).shaped(),
            forall|i: int, j: int|
                in_board(i, j) ==> (#[trigger] final(self).avail_vals@[i]@[j])@ == (if i == r && j
                    == c {
                    old(self).avail_vals@[i]@[j]@.remove(v)
                } else {
                    old(self).avail_vals@[i]@[j]@
                }),
    {
        self.avail_vals[r][c].remove(&v);
    }
}

/// What is left of the set `s` of cell `(i, j)` while `v` is assigned to
/// `(r, c)`, once the first `n` cells of the row, column and block of
/// `(r, c)` have been visited.
spec fn struck(s: Set<u8>, r: int, c: int, v: u8, n: int, i: int, j: int) -> Set<u8> {
    if i == r && j == c {
        Set::empty()
    } else if exists|k: int| #![trigger unit_cell(r, c, k, i, j)] 0 <= k < n && unit_cell(r, c, k, i, j) {
        s.remove(v)
    } else {
        s
    }
}

/// Visiting one more cell takes `v` out of that cell's set and leaves every
/// other set as it is.
proof fn lemma_struck_step(s: Set<u8>, r: int, c: int, v: u8, n: int, i: int, j: int)
    ensures
        struck(s, r, c, v, n + 1, i, j) =~= (if unit_cell(r, c, n, i, j) && n >= 0 {
            struck(s, r, c, v, n, i, j).remove(v)
        } else {
            struck(s, r, c, v, n, i, j)
        }),
{
    let before = exists|k: int|
        #![trigger unit_cell(r, c, k, i, j)]
        0 <= k < n && unit_cell(r, c, k, i, j);
    let after = exists|k: int|
        #![trigger unit_cell(r, c, k, i, j)]
        0 <= k < n + 1 && unit_cell(r, c, k, i, j);
    if before {
        let k = choose|k: int|
            #![trigger unit_cell(r, c, k, i, j)]
            0 <= k < n && unit_cell(r, c, k, i, j);
        assert(unit_cell(r, c, k, i, j));
    }
    if after {
        let k = choose|k: int|
            #![trigger unit_cell(r, c, k, i, j)]
            0 <= k < n + 1 && unit_cell(r, c, k, i, j);
        if k < n {
            assert(unit_cell(r, c, k, i, j));
        }
    }
    assert(after <==> (before || (n >= 0 && unit_cell(r, c, n, i, j))));
}

/// Once all nine cells of the row, column and block are visited, exactly
/// the peers have lost `v`.
proof fn lemma_struck_all(s: Set<u8>, r: int, c: int, v: u8, i: int, j: int)
    requires
        in_board(r, c),
        in_board(i, j),
    ensures
        struck(s, r, c, v, 9, i, j) == (if i == r && j == c {
            Set::empty()
        } else if peers(r, c, i, j) {
            s.remove(v)
        } else {
            s
        }),
{
    if i == r && j == c {
    } else if peers(r, c, i, j) {
        let k = lemma_peer_is_unit_cell(r, c, i, j);
        assert(unit_cell(r, c, k, i, j));
    } else {
        if exists|k: int| #![trigger unit_cell(r, c, k, i, j)] 0 <= k < 9 && unit_cell(r, c, k, i, j) {
            let k = choose|k: int|
                #![trigger unit_cell(r, c, k, i, j)]
                0 <= k < 9 && unit_cell(r, c, k, i, j);
            lemma_unit_cell_is_peer(r, c, k, i, j);
        }
    }
}

/// Finds the only value of a set that holds exactly one.
fn single_value(set: &HashSet<u8>) -> (v: u8)
    requires
        set@.subset_of(all_values()),
        set@.len() == 1,
    ensures
        set@ == set![v],
        set@.choose() == v,
        1 <= v <= 9,
{
    proof {
        lemma_all_values();
        vstd::set_lib::lemma_len_subset(set@, all_values());
    }
    let mut v: u8 = 1;
    while v < 9 && !set.contains(&v)
        invariant
            1 <= v <= 9,
            forall|w: u8| 1 <= w < v ==> !set@.contains(w),
        decreases 9 - v,
    {
        v += 1;
    }
    proof {
        if !set@.contains(v) {
            assert(set@ =~= Set::empty());
        }
        lemma_singleton(set@, v);
    }
    v
}

/// Makes one pass of forced moves: visits the cells in row-major order and
/// fills each one that has exactly one candidate when it is visited,
/// updating the state with it. Returns whether any cell was filled.
pub fn solve_sudoku_derive(mat: &mut SudokuMatrix, state: &mut SudokuSolverState) -> (updated:
    bool)
    requires
        old(state)@ == candidate_grid(old(mat)@),
    ensures
        final(mat)@ == pass(old(mat)@),
        final(state)@ == candidate_grid(final(mat)@),
        updated == (final(mat)@ != old(mat)@),
{
    let ghost g0 = mat@;
    let mut updated = false;
    proof {
        use_type_invariant(&*mat);
    }
    for r in 0..9usize
        invariant
            is_grid(g0),
            mat@ == pass_upto(g0, (9 * r) as nat),
            state@ == candidate_grid(mat@),
            updated == (mat@ != g0),
    {
        for c in 0..9usize
            invariant
                r < 9,
                is_grid(g0),
                mat@ == pass_upto(g0, (9 * r + c) as nat),
                state@ == candidate_grid(mat@),
                updated == (mat@ != g0),
        {
            let ghost k = (9 * r + c) as int;
            let ghost h = mat@;
            proof {
                assert(k / 9 == r && k % 9 == c);
                state.lemma_tracks(h);
                lemma_pass_upto(g0, k as nat);
                lemma_visit(h, k);
                lemma_candidates_bounded(h, r as int, c as int);
                assert(pass_upto(g0, (k + 1) as nat) == visit(h, k));
            }
            if state.avail_vals[r][c].len() == 1 {
                let v = single_value(&state.avail_vals[r][c]);
                mat.set_value(r, c, v);
                state.update_with_new_value(r, c, v);
                updated = true;
                proof {
                    assert(forced(h, k));
                    assert(h[r as int][c as int] == 0);
                    lemma_assign_is_rederivation(h, r as int, c as int, v);
                    assert(mat@ == visit(h, k));
                }
            } else {
                assert(!forced(h, k));
            }
        }
    }
    updated
}

/// Repeats passes of forced moves until the board is complete or a pass
/// fills no cell. On a board with a conflict one pass is made and no more.
pub fn solve_sudoku_derive_until_no_change(mat: &mut SudokuMatrix, state: &mut SudokuSolverState)
    requires
        old(state)@ == candidate_grid(old(mat)@),
    ensures
        final(mat)@ == (if compatible(old(mat)@) || complete(old(mat)@) {
            propagate(old(mat)@)
        } else {
            pass(old(mat)@)
        }),
        final(state)@ == candidate_grid(final(mat)@),
{
    let ghost g0 = mat@;
    let ghost target = if compatible(g0) || complete(g0) {
        propagate(g0)
    } else {
        pass(g0)
    };
    proof {
        use_type_invariant(&*mat);
    }
    while !mat.is_complete()
        invariant_except_break
            compatible(g0) ==> compatible(mat@) && propagate(mat@) == propagate(g0),
            !compatible(g0) ==> mat@ == g0,
        invariant
            is_grid(mat@),
            state@ == candidate_grid(mat@),
            target == (if compatible(g0) || complete(g0) {
                propagate(g0)
            } else {
                pass(g0)
            }),
        ensures
            mat@ == target,
            state@ == candidate_grid(mat@),
        decreases empty_count(mat@),
    {
        let ghost h = mat@;
        proof {
            lemma_pass_upto(h, 81);
            if !compatible(h) {
                lemma_conflict_stays(h, pass(h));
            }
        }
        if !solve_sudoku_derive(mat, state) {
            break ;
        }
        if !mat.is_compatible() {
            break ;
        }
    }
}

/// Picks the cell to branch on: the first empty cell, in row-major order,
/// among those with the fewest candidates. There is none when the board is
/// complete or when some empty cell has no candidate left.
fn find_branch_cell(mat: &SudokuMatrix, state: &SudokuSolverState) -> (cell: Option<
    (usize, usize),
>)
    requires
        state@ == candidate_grid(mat@),
    ensures
        match cell {
            None => complete(mat@) || dead_end(mat@),
            Some((r, c)) => r < 9 && c < 9 && !complete(mat@) && !dead_end(mat@) && branch_cell(
                mat@,
            ) == 9 * r + c,
        },
{
    let ghost g = mat@;
    let mut candidate: Option<(usize, usize)> = None;
    let mut candidate_options: usize = 10;
    proof {
        use_type_invariant(mat);
        state.lemma_tracks(g);
    }
    for i in 0..9usize
        invariant
            g == mat@,
            state@ == candidate_grid(g),
            best_so_far(g, 9 * i, candidate, candidate_options),
    {
        for j in 0..9usize
            invariant
                i < 9,
                g == mat@,
                state@ == candidate_grid(g),
                best_so_far(g, 9 * i + j, candidate, candidate_options),
        {
            let ghost k = (9 * i + j) as int;
            proof {
                assert(k / 9 == i && k % 9 == j);
                state.lemma_tracks(g);
                lemma_candidates_bounded(g, i as int, j as int);
            }
            if mat.get_value(i, j) == 0 {
                let avail_cnt = state.avail_vals[i][j].len();
                assert(avail_cnt == options(g, k));
                if avail_cnt == 0 {
                    assert(cell_at(g, k) == 0 && options(g, k) == 0);
                    return None;
                }
                if avail_cnt < candidate_options {
                    candidate_options = avail_cnt;
                    candidate = Some((i, j));
                }
            }
        }
    }
    proof {
        match candidate {
            None => {
                assert forall|r: int, c: int| in_board(r, c) implies #[trigger] g[r][c] != 0 by {
                    let k = 9 * r + c;
                    assert(k / 9 == r && k % 9 == c);
                    assert(cell_at(g, k) != 0);
                }
            },
            Some((r, c)) => {
                let k = 9 * r + c;
                assert(k / 9 == r && k % 9 == c);
                assert(is_branch_cell(g, k));
                lemma_branch_cell_unique(g, k);
                assert(in_board(r as int, c as int));
                assert(g[r as int][c as int] == 0);
            },
        }
    }
    candidate
}

/// What the scan for the branching cell knows after the first `n` cells.
spec fn best_so_far(g: Grid, n: int, candidate: Option<(usize, usize)>, count: usize) -> bool {
    &&& forall|k: int| 0 <= k < n && cell_at(g, k) == 0 ==> #[trigger] options(g, k) != 0
    &&& match candidate {
        None => count == 10 && forall|k: int| 0 <= k < n ==> #[trigger] cell_at(g, k) != 0,
        Some((r, c)) => {
            let b = 9 * r + c;
            &&& r < 9
            &&& c < 9
            &&& b < n
            &&& cell_at(g, b) == 0
            &&& count == options(g, b)
            &&& forall|k: int|
                0 <= k < n && cell_at(g, k) == 0 ==> options(g, b) <= #[trigger] options(g, k)
            &&& forall|k: int|
                0 <= k < b && cell_at(g, k) == 0 ==> options(g, b) < #[trigger] options(g, k)
        },
    }
}

/// How a search ended.
#[derive(Clone, Copy, Debug)]
pub enum SearchEnd {
    /// The board now holds the solution that was found.
    Solved,
    /// The board has no solution.
    Unsolvable,
    /// The search ran out of steps before it could tell.
    GaveUp,
}

/// Searches for a solution by propagation and backtracking, in place.
///
/// A search that is `bounded` takes one step out of `steps` for each board
/// it looks at, this one and each one it branches to, and gives up when
/// none is left. A search that is not never gives up and leaves `steps`
/// alone. The board is overwritten with the solution when one is found and
/// left as it was otherwise.
pub fn search_board(mat: &mut SudokuMatrix, bounded: bool, steps: &mut u64) -> (end: SearchEnd)
    ensures
        end is GaveUp <==> bounded && search_cost(old(mat)@) > *old(steps),
        end is Solved ==> search(old(mat)@) == Some(final(mat)@),
        end is Unsolvable ==> search(old(mat)@) is None,
        !(end is Solved) ==> final(mat)@ == old(mat)@,
        *final(steps) == (if !bounded {
            *old(steps) as int
        } else if end is GaveUp {
            0
        } else {
            *old(steps) - search_cost(old(mat)@)
        }),
    decreases empty_count(old(mat)@),
{
    let ghost g0 = mat@;
    proof {
        use_type_invariant(&*mat);
        lemma_propagate(g0);
    }
    if bounded {
        if *steps == 0 {
            return SearchEnd::GaveUp;
        }
        *steps = *steps - 1;
    }
    if !mat.is_compatible() {
        return SearchEnd::Unsolvable;
    }
    let mut work = mat.clone();
    let mut state = SudokuSolverState::init_state_from_matrix(&work);
    solve_sudoku_derive_until_no_change(&mut work, &mut state);
    let ghost p = work@;
    if work.is_complete() {
        *mat = work;
        return SearchEnd::Solved;
    }
    // Forced moves bring no conflict into a board that had none.
    if !work.is_compatible() {
        return SearchEnd::Unsolvable;
    }
    match find_branch_cell(&work, &state) {
        None => SearchEnd::Unsolvable,
        Some((cr, cc)) => {
            let ghost k = (9 * cr + cc) as int;
            let mut v: u8 = 1;
            proof {
                assert(k / 9 == cr && k % 9 == cc);
                state.lemma_tracks(p);
            }
            while v <= 9
                invariant
                    1 <= v <= 10,
                    cr < 9,
                    cc < 9,
                    k == 9 * cr + cc,
                    is_grid(g0),
                    is_grid(p),
                    work@ == p,
                    mat@ == g0,
                    old(mat)@ == g0,
                    state@ == candidate_grid(p),
                    empty_count(p) <= empty_count(g0),
                    search(g0) == try_values(p, k, v as int),
                    !bounded ==> *steps == *old(steps),
                    search_cost(g0) >= try_cost(p, k, v as int),
                    bounded ==> *steps + (search_cost(g0) - try_cost(p, k, v as int)) == *old(
                        steps,
                    ),
                decreases 10 - v,
            {
                proof {
                    assert(k / 9 == cr && k % 9 == cc);
                    state.lemma_tracks(p);
                }
                if state.avail_vals[cr][cc].contains(&v) {
                    let mut new_mat = work.clone();
                    new_mat.set_value(cr, cc, v);
                    proof {
                        assert(p[cr as int][cc as int] == 0);
                        lemma_fill_decreases_empty(p, cr as int, cc as int, v);
                    }
                    match search_board(&mut new_mat, bounded, steps) {
                        SearchEnd::Solved => {
                            *mat = new_mat;
                            return SearchEnd::Solved;
                        },
                        SearchEnd::GaveUp => {
                            return SearchEnd::GaveUp;
                        },
                        SearchEnd::Unsolvable => {},
                    }
                }
                v += 1;
            }
            SearchEnd::Unsolvable
        },
    }
}

/// Solves a partially filled board by propagation and backtracking.
///
/// Returns whether the board has a solution. With `commit` set, a board
/// that has one is overwritten with the solution found; in every other case
/// the board is left as it was. The solution found is a complete board free
/// of conflicts that keeps every cell the board had filled. A board with a
/// conflict has none, and a complete board free of conflicts is its own.
pub fn solve_sudoku(mat: &mut SudokuMatrix, commit: bool) -> (solved: bool)
    ensures
        solved == solvable(old(mat)@),
        solved == search(old(mat)@).is_some(),
        solved ==> solves(search(old(mat)@).unwrap(), old(mat)@),
        final(mat)@ == (if solved && commit {
            search(old(mat)@).unwrap()
        } else {
            old(mat)@
        }),
        !compatible(old(mat)@) ==> !solved,
        is_solution(old(mat)@) ==> solved && final(mat)@ == old(mat)@,
{
    proof {
        use_type_invariant(&*mat);
        lemma_search_decides(mat@);
        lemma_search_sound(mat@);
        if !compatible(mat@) {
            lemma_search_conflict(mat@);
        }
        if is_solution(mat@) {
            lemma_search_solved_board(mat@);
        }
    }
    let mut work = mat.clone();
    let mut steps: u64 = 0;
    match search_board(&mut work, false, &mut steps) {
        SearchEnd::Solved => {
            if commit {
                *mat = work;
            }
            true
        },
        _ => false,
    }
}

} // verus!
