//! Candidate sets: for each cell, the values that no peer holds yet.

use vstd::prelude::*;
use crate::grid::{
    in_board, is_grid, lemma_peer_is_unit_cell, lemma_unit_cell_is_peer, peers, put, unit_cell,
    Grid,
};

verus! {

/// Nine rows of nine candidate sets each.
pub type CandidateGrid = Seq<Seq<Set<u8>>>;

/// The values a cell may hold at all.
pub open spec fn all_values() -> Set<u8> {
    Set::new(|v: u8| 1 <= v <= 9)
}

/// The shape every constraint state has: a set of values from `1` to `9` for
/// each of the 81 cells.
pub open spec fn is_candidate_grid(s: CandidateGrid) -> bool {
    &&& s.len() == 9
    &&& forall|r: int| 0 <= r < 9 ==> (#[trigger] s[r]).len() == 9
    &&& forall|r: int, c: int| in_board(r, c) ==> (#[trigger] s[r][c]).subset_of(all_values())
}

/// The candidate grid in which every cell may still hold every value.
pub open spec fn full_candidate_grid() -> CandidateGrid {
    Seq::new(9, |r: int| Seq::new(9, |c: int| all_values()))
}

/// Some peer of `(r, c)` holds `v`.
pub open spec fn blocked(g: Grid, r: int, c: int, v: u8) -> bool {
    exists|r2: int, c2: int| #![trigger peers(r, c, r2, c2)] peers(r, c, r2, c2) && g[r2][c2] == v
}

/// The candidates of `(r, c)` on `g`: none for a filled cell, and for an
/// empty one the values from `1` to `9` that no peer holds.
pub open spec fn candidates(g: Grid, r: int, c: int) -> Set<u8> {
    if g[r][c] != 0 {
        Set::empty()
    } else {
        Set::new(|v: u8| 1 <= v <= 9 && !blocked(g, r, c, v))
    }
}

/// The candidates of every cell of `g`.
pub open spec fn candidate_grid(g: Grid) -> CandidateGrid {
    Seq::new(9, |r: int| Seq::new(9, |c: int| candidates(g, r, c)))
}

/// What assigning `v` to `(r, c)` does to a candidate grid: the cell itself
/// loses every candidate, each of its peers loses `v`, and no other cell
/// changes.
pub open spec fn assign(s: CandidateGrid, r: int, c: int, v: u8) -> CandidateGrid {
    Seq::new(
        9,
        |r2: int|
            Seq::new(
                9,
                |c2: int|
                    if r2 == r && c2 == c {
                        Set::empty()
                    } else if peers(r, c, r2, c2) {
                        s[r2][c2].remove(v)
                    } else {
                        s[r2][c2]
                    },
            ),
    )
}

/// One of the first `n` cells of the row, the column or the block of
/// `(r, c)` holds `v`.
pub open spec fn blocked_upto(g: Grid, r: int, c: int, v: u8, n: int) -> bool {
    exists|j: int, r2: int, c2: int|
        #![trigger unit_cell(r, c, j, r2, c2)]
        0 <= j < n && unit_cell(r, c, j, r2, c2) && g[r2][c2] == v
}

/// For an empty cell and a value from `1` to `9`, looking through all nine
/// cells of its row, column and block finds exactly the peers that hold it.
pub proof fn lemma_blocked_upto_all(g: Grid, r: int, c: int, v: u8)
    requires
        in_board(r, c),
        g[r][c] == 0,
        v != 0,
    ensures
        blocked_upto(g, r, c, v, 9) == blocked(g, r, c, v),
{
    if blocked(g, r, c, v) {
        let (r2, c2) = choose|r2: int, c2: int|
            #![trigger peers(r, c, r2, c2)]
            peers(r, c, r2, c2) && g[r2][c2] == v;
        let j = lemma_peer_is_unit_cell(r, c, r2, c2);
        assert(unit_cell(r, c, j, r2, c2));
    }
    if blocked_upto(g, r, c, v, 9) {
        let (j, r2, c2) = choose|j: int, r2: int, c2: int|
            #![trigger unit_cell(r, c, j, r2, c2)]
            0 <= j < 9 && unit_cell(r, c, j, r2, c2) && g[r2][c2] == v;
        lemma_unit_cell_is_peer(r, c, j, r2, c2);
        assert(peers(r, c, r2, c2));
    }
}

/// Candidate sets are finite and hold values from `1` to `9` only.
pub proof fn lemma_candidates_bounded(g: Grid, r: int, c: int)
    ensures
        candidates(g, r, c).subset_of(all_values()),
        candidates(g, r, c).finite(),
        all_values().finite(),
        all_values().len() == 9,
        candidates(g, r, c).len() <= 9,
{
    lemma_all_values();
    vstd::set_lib::lemma_len_subset(candidates(g, r, c), all_values());
}

/// There are nine values.
pub proof fn lemma_all_values()
    ensures
        all_values().finite(),
        all_values().len() == 9,
{
    let s = set![1u8, 2u8, 3u8, 4u8, 5u8, 6u8, 7u8, 8u8, 9u8];
    assert(all_values() =~= s);
}

/// The candidates of every cell form a well-shaped candidate grid.
pub proof fn lemma_candidate_grid_shape(g: Grid)
    ensures
        is_candidate_grid(candidate_grid(g)),
        forall|r: int, c: int|
            in_board(r, c) ==> #[trigger] candidate_grid(g)[r][c] == candidates(g, r, c),
{
    assert forall|r: int, c: int| in_board(r, c) implies (#[trigger] candidate_grid(g)[r][c]).subset_of(
        all_values(),
    ) by {
        lemma_candidates_bounded(g, r, c);
    }
}

/// Candidate grids of the right shape are equal when all their sets are.
pub proof fn lemma_candidate_grid_ext(s: CandidateGrid, t: CandidateGrid)
    requires
        s.len() == 9,
        t.len() == 9,
        forall|r: int| 0 <= r < 9 ==> (#[trigger] s[r]).len() == 9,
        forall|r: int| 0 <= r < 9 ==> (#[trigger] t[r]).len() == 9,
        forall|r: int, c: int| in_board(r, c) ==> #[trigger] s[r][c] =~= t[r][c],
    ensures
        s == t,
{
    assert forall|r: int| 0 <= r < 9 implies #[trigger] s[r] == t[r] by {
        assert(s[r].len() == 9);
        assert(t[r].len() == 9);
        assert forall|c: int| 0 <= c < 9 implies #[trigger] s[r][c] == t[r][c] by {
            assert(in_board(r, c));
        }
        assert(s[r] =~= t[r]);
    }
    assert(s =~= t);
}

/// Some peer of `(r2, c2)` other than `(r, c)` holds `w`.
pub open spec fn held_elsewhere(g: Grid, r: int, c: int, r2: int, c2: int, w: u8) -> bool {
    exists|r3: int, c3: int|
        #![trigger peers(r2, c2, r3, c3)]
        peers(r2, c2, r3, c3) && (r3 != r || c3 != c) && g[r3][c3] == w
}

/// When assigning `v` to `(r, c)` in the candidates of `g` gives the
/// candidates of the board with `v` written there. The value the cell held
/// must not come free again for a peer: the cell was empty, or it held `v`
/// already, or each of its empty peers has that value held by another peer
/// as well. And where `v` is `0`, so that the cell is left empty, it must
/// have no candidate at all.
pub open spec fn assignment_tracks(g: Grid, r: int, c: int, v: u8) -> bool {
    &&& v == 0 ==> forall|x: u8| 1 <= x <= 9 ==> #[trigger] blocked(g, r, c, x)
    &&& g[r][c] == 0 || g[r][c] == v || forall|r2: int, c2: int|
        #![trigger peers(r, c, r2, c2)]
        peers(r, c, r2, c2) && g[r2][c2] == 0 ==> held_elsewhere(g, r, c, r2, c2, g[r][c])
}

/// What blocks a value at a cell other than `(r, c)` once `v` is written at
/// `(r, c)`: a peer other than `(r, c)` that holds it, or `v` itself at
/// `(r, c)` if the two cells are peers.
proof fn lemma_blocked_after_put(g: Grid, r: int, c: int, v: u8, r2: int, c2: int, x: u8)
    requires
        is_grid(g),
        in_board(r, c),
        in_board(r2, c2),
        r2 != r || c2 != c,
    ensures
        blocked(put(g, r, c, v), r2, c2, x) <==> (held_elsewhere(g, r, c, r2, c2, x) || (x == v
            && peers(r, c, r2, c2))),
        blocked(g, r2, c2, x) <==> (held_elsewhere(g, r, c, r2, c2, x) || (x == g[r][c] && peers(
            r,
            c,
            r2,
            c2,
        ))),
{
    let p = put(g, r, c, v);
    assert(g[r].len() == 9);
    assert(p[r][c] == v);
    assert forall|r3: int, c3: int| in_board(r3, c3) && (r3 != r || c3 != c) implies #[trigger] p[r3][c3]
        == g[r3][c3] by {
        assert(g[r3].len() == 9);
    }
    if blocked(p, r2, c2, x) {
        let (r3, c3) = choose|r3: int, c3: int|
            #![trigger peers(r2, c2, r3, c3)]
            peers(r2, c2, r3, c3) && p[r3][c3] == x;
        if r3 == r && c3 == c {
            assert(peers(r, c, r2, c2));
        } else {
            assert(p[r3][c3] == g[r3][c3]);
            assert(peers(r2, c2, r3, c3) && (r3 != r || c3 != c) && g[r3][c3] == x);
        }
    }
    if blocked(g, r2, c2, x) {
        let (r3, c3) = choose|r3: int, c3: int|
            #![trigger peers(r2, c2, r3, c3)]
            peers(r2, c2, r3, c3) && g[r3][c3] == x;
        if r3 == r && c3 == c {
            assert(peers(r, c, r2, c2));
        } else {
            assert(peers(r2, c2, r3, c3) && (r3 != r || c3 != c) && g[r3][c3] == x);
        }
    }
    if held_elsewhere(g, r, c, r2, c2, x) {
        let (r3, c3) = choose|r3: int, c3: int|
            #![trigger peers(r2, c2, r3, c3)]
            peers(r2, c2, r3, c3) && (r3 != r || c3 != c) && g[r3][c3] == x;
        assert(p[r3][c3] == g[r3][c3]);
        assert(peers(r2, c2, r3, c3) && p[r3][c3] == x);
        assert(peers(r2, c2, r3, c3) && g[r3][c3] == x);
    }
    if peers(r, c, r2, c2) {
        assert(peers(r2, c2, r, c));
        if x == v {
            assert(peers(r2, c2, r, c) && p[r][c] == x);
        }
        if x == g[r][c] {
            assert(peers(r2, c2, r, c) && g[r][c] == x);
        }
    }
}

/// Incremental update agrees with derivation from scratch exactly on the
/// assignments that `assignment_tracks` admits: on those, and on no others,
/// assigning `v` to `(r, c)` in the candidates of the old board gives the
/// candidates of the new board with `v` written there, for every cell.
pub proof fn lemma_assign_tracks_rederivation(g: Grid, r: int, c: int, v: u8)
    requires
        is_grid(g),
        in_board(r, c),
    ensures
        assignment_tracks(g, r, c, v) <==> assign(candidate_grid(g), r, c, v) == candidate_grid(
            put(g, r, c, v),
        ),
{
    let p = put(g, r, c, v);
    let s = assign(candidate_grid(g), r, c, v);
    let t = candidate_grid(p);
    let w = g[r][c];
    assert(g[r].len() == 9);
    assert(p[r][c] == v);
    assert(w <= 9);
    assert forall|r2: int, c2: int| in_board(r2, c2) && (r2 != r || c2 != c) implies #[trigger] p[r2][c2]
        == g[r2][c2] by {
        assert(g[r2].len() == 9);
    }
    assert forall|r2: int, c2: int| in_board(r2, c2) implies #[trigger] t[r2][c2] == candidates(
        p,
        r2,
        c2,
    ) && candidate_grid(g)[r2][c2] == candidates(g, r2, c2) by {}
    assert forall|x: u8| blocked(p, r, c, x) == #[trigger] blocked(g, r, c, x) by {
        if blocked(p, r, c, x) {
            let (r3, c3) = choose|r3: int, c3: int|
                #![trigger peers(r, c, r3, c3)]
                peers(r, c, r3, c3) && p[r3][c3] == x;
            assert(p[r3][c3] == g[r3][c3]);
            assert(peers(r, c, r3, c3) && g[r3][c3] == x);
        }
        if blocked(g, r, c, x) {
            let (r3, c3) = choose|r3: int, c3: int|
                #![trigger peers(r, c, r3, c3)]
                peers(r, c, r3, c3) && g[r3][c3] == x;
            assert(p[r3][c3] == g[r3][c3]);
            assert(peers(r, c, r3, c3) && p[r3][c3] == x);
        }
    }
    if assignment_tracks(g, r, c, v) {
        assert forall|r2: int, c2: int| in_board(r2, c2) implies #[trigger] s[r2][c2]
            =~= t[r2][c2] by {
            if r2 == r && c2 == c {
                if v == 0 {
                    assert forall|x: u8| !candidates(p, r, c).contains(x) by {
                        if 1 <= x <= 9 {
                            assert(blocked(g, r, c, x));
                        }
                    }
                }
            } else if g[r2][c2] == 0 {
                assert forall|x: u8| s[r2][c2].contains(x) == t[r2][c2].contains(x) by {
                    lemma_blocked_after_put(g, r, c, v, r2, c2, x);
                    if peers(r, c, r2, c2) && x == w && w != 0 && w != v {
                        assert(held_elsewhere(g, r, c, r2, c2, w));
                    }
                }
            }
        }
        lemma_candidate_grid_ext(s, t);
    } else {
        if v == 0 && !(forall|x: u8| 1 <= x <= 9 ==> #[trigger] blocked(g, r, c, x)) {
            let x = choose|x: u8| 1 <= x <= 9 && !#[trigger] blocked(g, r, c, x);
            assert(!blocked(p, r, c, x));
            assert(candidates(p, r, c).contains(x));
            assert(t[r][c].contains(x));
            assert(!s[r][c].contains(x));
        } else {
            let (r2, c2) = choose|r2: int, c2: int|
                #![trigger peers(r, c, r2, c2)]
                peers(r, c, r2, c2) && g[r2][c2] == 0 && !held_elsewhere(g, r, c, r2, c2, w);
            lemma_blocked_after_put(g, r, c, v, r2, c2, w);
            assert(blocked(g, r2, c2, w));
            assert(!blocked(p, r2, c2, w));
            assert(candidates(p, r2, c2).contains(w));
            assert(t[r2][c2].contains(w));
            assert(!candidates(g, r2, c2).contains(w));
            assert(!s[r2][c2].contains(w));
        }
    }
}

/// Incremental update agrees with derivation from scratch: after `v`, a
/// value from `1` to `9`, is written into an empty cell, assigning it in the
/// candidates of the old board gives the candidates of the new board, for
/// every cell.
pub proof fn lemma_assign_is_rederivation(g: Grid, r: int, c: int, v: u8)
    requires
        is_grid(g),
        in_board(r, c),
        g[r][c] == 0,
        1 <= v <= 9,
    ensures
        assign(candidate_grid(g), r, c, v) == candidate_grid(put(g, r, c, v)),
{
    lemma_assign_tracks_rederivation(g, r, c, v);
}

} // verus!
