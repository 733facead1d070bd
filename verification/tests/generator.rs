use sudoku_lib::generator::{
    create_seed_matrix, get_empty_cell_coordinate_by_count, remove_cells, seed_cell, seed_write,
};
use sudoku_lib::{create_matrix, solve_sudoku, SudokuMatrix, SudokuSolverState};

fn count_filled(m: &SudokuMatrix) -> usize {
    let mut n = 0;
    for r in 0..9 {
        for c in 0..9 {
            if m.get_value(r, c) != 0 {
                n += 1;
            }
        }
    }
    n
}

fn solved_board() -> SudokuMatrix {
    let mut m = SudokuMatrix::new();
    assert!(solve_sudoku(&mut m, true));
    m
}

#[test]
fn create_matrix_with_25_cells() {
    let mat = create_matrix(25);
    assert_eq!(count_filled(&mat), 25);
    assert!(mat.is_compatible());
    let mut copy = mat.clone();
    assert!(solve_sudoku(&mut copy, true));
    assert!(copy.is_complete());
    assert!(copy.is_compatible());
    for r in 0..9 {
        for c in 0..9 {
            let v = mat.get_value(r, c);
            assert!(v <= 9);
            assert!(v == 0 || copy.get_value(r, c) == v);
        }
    }
}

#[test]
fn create_matrix_with_no_cell() {
    let mat = create_matrix(0);
    assert_eq!(count_filled(&mat), 0);
    assert!(mat.is_compatible());
    let mut copy = mat.clone();
    assert!(solve_sudoku(&mut copy, false));
}

#[test]
fn create_matrix_with_all_cells() {
    let mat = create_matrix(81);
    assert_eq!(count_filled(&mat), 81);
    assert!(mat.is_complete());
    assert!(mat.is_compatible());
}

#[test]
fn create_matrix_with_more_than_all_cells() {
    let mat = create_matrix(100);
    assert!(mat.is_complete());
    assert!(mat.is_compatible());
}

#[test]
fn create_matrix_boundaries_of_the_count() {
    for n in [1usize, 80] {
        let mat = create_matrix(n);
        assert_eq!(count_filled(&mat), n);
        assert!(mat.is_compatible());
    }
}

#[test]
fn create_matrix_clears_cells_in_random_order() {
    // Were the order of the cells left as it is, the first 40 cells would
    // stay filled every time.
    let mut always_the_first = true;
    for _ in 0..3 {
        let mat = create_matrix(40);
        assert_eq!(count_filled(&mat), 40);
        for k in 0..40 {
            if mat.get_value(k / 9, k % 9) == 0 {
                always_the_first = false;
            }
        }
    }
    assert!(!always_the_first);
}

#[test]
fn create_matrix_draws_its_seed_at_random() {
    // Were the seed always the same, so would the solved board be.
    let first = create_matrix(81);
    let mut differs = false;
    for _ in 0..3 {
        let next = create_matrix(81);
        for r in 0..9 {
            for c in 0..9 {
                if next.get_value(r, c) != first.get_value(r, c) {
                    differs = true;
                }
            }
        }
    }
    assert!(differs);
}

#[test]
fn remove_cells_clears_what_the_order_names_from_keep_on() {
    let mut mat = solved_board();
    let full = mat.clone();
    let order: Vec<usize> = vec![80, 0, 40, 9, 8, 72];
    remove_cells(&mut mat, &order, 2);
    for k in 0..81usize {
        let (r, c) = (k / 9, k % 9);
        if k == 40 || k == 9 || k == 8 || k == 72 {
            assert_eq!(mat.get_value(r, c), 0);
        } else {
            assert_eq!(mat.get_value(r, c), full.get_value(r, c));
        }
    }
    assert_eq!(count_filled(&mat), 77);
}

#[test]
fn remove_cells_with_the_cells_in_reverse() {
    let mut mat = solved_board();
    let full = mat.clone();
    let order: Vec<usize> = (0..81).rev().collect();
    remove_cells(&mut mat, &order, 30);
    assert_eq!(count_filled(&mat), 30);
    // positions 30.. of the order name the cells 50 down to 0
    for k in 0..81usize {
        let expected = if k <= 50 { 0 } else { full.get_value(k / 9, k % 9) };
        assert_eq!(mat.get_value(k / 9, k % 9), expected);
    }
}

#[test]
fn remove_cells_keeping_everything() {
    let mut mat = solved_board();
    let full = mat.clone();
    let order: Vec<usize> = (0..81).collect();
    remove_cells(&mut mat, &order, 81);
    assert_eq!(count_filled(&mat), 81);
    remove_cells(&mut mat, &order, 500);
    assert_eq!(count_filled(&mat), 81);
    for k in 0..81usize {
        assert_eq!(mat.get_value(k / 9, k % 9), full.get_value(k / 9, k % 9));
    }
    remove_cells(&mut mat, &order, 0);
    assert_eq!(count_filled(&mat), 0);
}

#[test]
fn remove_cells_with_a_cell_named_twice() {
    let mut mat = solved_board();
    let order: Vec<usize> = vec![5, 5, 5, 6];
    remove_cells(&mut mat, &order, 0);
    assert_eq!(mat.get_value(0, 5), 0);
    assert_eq!(mat.get_value(0, 6), 0);
    assert_eq!(count_filled(&mat), 79);
}

#[test]
fn empty_cell_by_count_on_the_empty_board() {
    let mat = SudokuMatrix::new();
    assert_eq!(get_empty_cell_coordinate_by_count(&mat, 0), Some((0, 0)));
    assert_eq!(get_empty_cell_coordinate_by_count(&mat, 8), Some((0, 8)));
    assert_eq!(get_empty_cell_coordinate_by_count(&mat, 9), Some((1, 0)));
    assert_eq!(get_empty_cell_coordinate_by_count(&mat, 40), Some((4, 4)));
    assert_eq!(get_empty_cell_coordinate_by_count(&mat, 80), Some((8, 8)));
    assert_eq!(get_empty_cell_coordinate_by_count(&mat, 81), None);
    assert_eq!(get_empty_cell_coordinate_by_count(&mat, 1000), None);
}

#[test]
fn empty_cell_by_count_skips_filled_cells() {
    let mut mat = SudokuMatrix::new();
    mat.set_value(0, 0, 1);
    mat.set_value(0, 1, 2);
    mat.set_value(0, 3, 4);
    assert_eq!(get_empty_cell_coordinate_by_count(&mat, 0), Some((0, 2)));
    assert_eq!(get_empty_cell_coordinate_by_count(&mat, 1), Some((0, 4)));
    assert_eq!(get_empty_cell_coordinate_by_count(&mat, 5), Some((0, 8)));
    assert_eq!(get_empty_cell_coordinate_by_count(&mat, 6), Some((1, 0)));
    assert_eq!(get_empty_cell_coordinate_by_count(&mat, 77), Some((8, 8)));
    assert_eq!(get_empty_cell_coordinate_by_count(&mat, 78), None);
}

#[test]
fn empty_cell_by_count_on_a_full_board() {
    let mat = solved_board();
    assert_eq!(get_empty_cell_coordinate_by_count(&mat, 0), None);
}

#[test]
fn generate_valid_matrix_hands_out_a_puzzle() {
    let mat = sudoku_lib::generator::generate_valid_matrix(25);
    assert_eq!(count_filled(&mat), 25);
    assert!(mat.is_compatible());
    let mut copy = mat.clone();
    assert!(solve_sudoku(&mut copy, false));
}

#[test]
fn seed_cell_counts_empty_cells_from_the_draw() {
    let mat = SudokuMatrix::new();
    assert_eq!(seed_cell(&mat, 0, 0), Some((0, 0)));
    assert_eq!(seed_cell(&mat, 0, 80), Some((8, 8)));
    assert_eq!(seed_cell(&mat, 0, 81), Some((0, 0)));
    assert_eq!(seed_cell(&mat, 0, 1000), Some((3, 1)));
    // 4294967295 = 81 * 53024287 + 48
    assert_eq!(seed_cell(&mat, 0, u32::MAX), Some((5, 3)));
}

#[test]
fn seed_cell_skips_filled_cells() {
    let mut mat = SudokuMatrix::new();
    mat.set_value(0, 0, 4);
    // one cell is filled: the draw is taken modulo 80
    assert_eq!(seed_cell(&mat, 1, 0), Some((0, 1)));
    assert_eq!(seed_cell(&mat, 1, 79), Some((8, 8)));
    assert_eq!(seed_cell(&mat, 1, 80), Some((0, 1)));
    assert_eq!(seed_cell(&mat, 1, 81), Some((0, 2)));
    // 4294967295 = 80 * 53687091 + 15: the 16th empty cell is (1, 7)
    assert_eq!(seed_cell(&mat, 1, u32::MAX), Some((1, 7)));
}

#[test]
fn seed_cell_on_the_last_empty_cell() {
    let mut mat = solved_board();
    mat.set_value(4, 4, 0);
    for draw in [0u32, 1, 7, u32::MAX] {
        assert_eq!(seed_cell(&mat, 80, draw), Some((4, 4)));
    }
}

#[test]
fn seed_cell_finds_none_on_a_board_that_is_fuller_than_said() {
    let mut mat = SudokuMatrix::new();
    mat.set_value(0, 0, 1);
    mat.set_value(0, 1, 2);
    // 79 cells are empty; with no cell said to be filled the draw 80 asks
    // for an 81st
    assert_eq!(seed_cell(&mat, 0, 80), None);
    assert_eq!(seed_cell(&mat, 0, 79), None);
    assert_eq!(seed_cell(&mat, 0, 78), Some((8, 8)));
    assert_eq!(seed_cell(&mat, 2, 80), Some((0, 3)));
}

#[test]
fn seed_write_writes_what_was_picked() {
    let mut mat = SudokuMatrix::new();
    mat.set_value(0, 0, 5);
    let mut state = SudokuSolverState::init_state_from_matrix(&mat);
    assert!(seed_write(&mut mat, &mut state, 0, 1, Some(3)));
    for k in 0..81usize {
        let expected = if k == 0 { 5 } else if k == 1 { 3 } else { 0 };
        assert_eq!(mat.get_value(k / 9, k % 9), expected);
    }
    let fresh = SudokuSolverState::init_state_from_matrix(&mat);
    assert_eq!(state.avail_vals, fresh.avail_vals);
    assert!(state.avail_vals[0][1].is_empty());
    assert!(!state.avail_vals[0][8].contains(&3));
    assert!(!state.avail_vals[8][1].contains(&3));
    assert!(state.avail_vals[8][8].contains(&3));
    assert!(mat.is_compatible());
}

#[test]
fn seed_write_writes_nothing_when_nothing_was_picked() {
    let mut mat = SudokuMatrix::new();
    mat.set_value(0, 0, 5);
    let mut state = SudokuSolverState::init_state_from_matrix(&mat);
    let before = state.avail_vals.clone();
    assert!(!seed_write(&mut mat, &mut state, 0, 1, None));
    assert_eq!(count_filled(&mat), 1);
    assert_eq!(mat.get_value(0, 0), 5);
    assert_eq!(state.avail_vals, before);
}

#[test]
fn create_seed_matrix_without_cells_is_the_empty_board() {
    let seed = create_seed_matrix(0).expect("nothing was to be drawn");
    assert_eq!(count_filled(&seed), 0);
}

#[test]
fn create_seed_matrix_with_one_cell_never_gives_up() {
    for _ in 0..20 {
        let seed = create_seed_matrix(1).expect("the first cell has every candidate");
        assert_eq!(count_filled(&seed), 1);
        assert!(seed.is_compatible());
    }
}

#[test]
fn create_seed_matrix_with_nine_cells_at_most_never_gives_up() {
    for n in 2usize..=9 {
        for _ in 0..200 {
            let seed = create_seed_matrix(n).expect("eight filled cells block eight values");
            assert_eq!(count_filled(&seed), n);
            assert!(seed.is_compatible());
        }
    }
}

#[test]
fn nine_filled_cells_can_leave_a_cell_without_a_candidate() {
    // 1 to 8 in row 0 from column 1 on and 9 below (0, 0): nothing is left
    // for (0, 0), so a seed of ten cells can be given up.
    let mut mat = SudokuMatrix::new();
    for c in 1..9 {
        mat.set_value(0, c, c as u8);
    }
    mat.set_value(1, 0, 9);
    assert!(mat.is_compatible());
    assert_eq!(count_filled(&mat), 9);
    let mut state = SudokuSolverState::init_state_from_matrix(&mat);
    assert_eq!(seed_cell(&mat, 9, 0), Some((0, 0)));
    assert_eq!(state.candidates_of(0, 0), Vec::<u8>::new());
    assert!(!seed_write(&mut mat, &mut state, 0, 0, None));
    assert_eq!(count_filled(&mat), 9);
    // with eight cells filled every empty cell has a candidate
    mat.set_value(1, 0, 0);
    let state = SudokuSolverState::init_state_from_matrix(&mat);
    for k in 0..81usize {
        if mat.get_value(k / 9, k % 9) == 0 {
            assert!(!state.candidates_of(k / 9, k % 9).is_empty());
        }
    }
}

#[test]
fn create_seed_matrix_fills_as_many_cells_as_asked_or_gives_up() {
    let mut seeds = 0;
    for _ in 0..50 {
        if let Some(seed) = create_seed_matrix(15) {
            seeds += 1;
            assert_eq!(count_filled(&seed), 15);
            assert!(seed.is_compatible());
        }
    }
    assert!(seeds > 0);
    for n in [2usize, 30, 81] {
        for _ in 0..20 {
            if let Some(seed) = create_seed_matrix(n) {
                assert_eq!(count_filled(&seed), n);
                assert!(seed.is_compatible());
            }
        }
    }
}

#[test]
fn create_seed_matrix_draws_its_cells_at_random() {
    // Were the draw always the same, so would the cell be.
    let mut cells = std::collections::HashSet::new();
    let mut values = std::collections::HashSet::new();
    for _ in 0..40 {
        let seed = create_seed_matrix(1).expect("the first cell has every candidate");
        for k in 0..81usize {
            let v = seed.get_value(k / 9, k % 9);
            if v != 0 {
                cells.insert(k);
                values.insert(v);
            }
        }
    }
    assert!(cells.len() > 1);
    assert!(values.len() > 1);
}
