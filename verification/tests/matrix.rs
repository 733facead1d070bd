use sudoku_lib::SudokuMatrix;

fn board_from_rows(rows: [[u8; 9]; 9]) -> SudokuMatrix {
    let mut m = SudokuMatrix::new();
    for r in 0..9 {
        for c in 0..9 {
            m.set_value(r, c, rows[r][c]);
        }
    }
    m
}

const SOLVED_ROWS: [[u8; 9]; 9] = [
    [2, 1, 3, 4, 6, 5, 8, 9, 7],
    [7, 8, 6, 2, 3, 9, 5, 1, 4],
    [5, 9, 4, 8, 1, 7, 2, 3, 6],
    [4, 7, 9, 6, 2, 8, 1, 5, 3],
    [6, 2, 5, 1, 7, 3, 4, 8, 9],
    [1, 3, 8, 5, 9, 4, 6, 7, 2],
    [3, 4, 1, 9, 5, 2, 7, 6, 8],
    [8, 5, 7, 3, 4, 6, 9, 2, 1],
    [9, 6, 2, 7, 8, 1, 3, 4, 5],
];

#[test]
fn test_new() {
    let m = SudokuMatrix::new();
    assert!(m.is_complete() == false);
    assert!(m.is_compatible());
}

#[test]
fn test_set_and_get() {
    let mut m = SudokuMatrix::new();
    m.set_value(0, 0, 5);
    assert_eq!(m.get_value(0, 0), 5);
    m.set_value(8, 8, 9);
    assert_eq!(m.get_value(8, 8), 9);
}

#[test]
fn test_is_complete() {
    let mut m = SudokuMatrix::new();
    assert!(!m.is_complete());
    for i in 0..9 {
        for j in 0..9 {
            m.set_value(i, j, 1);
        }
    }
    assert!(m.is_complete());
}

#[test]
fn test_is_compatible_rows() {
    let mut m = SudokuMatrix::new();
    m.set_value(0, 0, 5);
    m.set_value(0, 1, 5);
    assert!(!m.is_compatible());
}

#[test]
fn test_is_compatible_cols() {
    let mut m = SudokuMatrix::new();
    m.set_value(0, 0, 5);
    m.set_value(1, 0, 5);
    assert!(!m.is_compatible());
}

#[test]
fn test_is_compatible_blocks() {
    let mut m = SudokuMatrix::new();
    m.set_value(1, 1, 5);
    m.set_value(2, 2, 5);
    assert!(!m.is_compatible());
}

#[test]
fn test_is_compatible_valid() {
    let mut m = SudokuMatrix::new();
    m.set_value(0, 0, 1);
    m.set_value(0, 1, 2);
    m.set_value(0, 2, 3);
    m.set_value(1, 0, 4);
    m.set_value(1, 1, 5);
    m.set_value(1, 2, 6);
    m.set_value(2, 0, 7);
    m.set_value(2, 1, 8);
    m.set_value(2, 2, 9);
    assert!(m.is_compatible());
}

#[test]
fn new_board_has_every_cell_empty() {
    let m = SudokuMatrix::new();
    for r in 0..9 {
        for c in 0..9 {
            assert_eq!(m.get_value(r, c), 0);
        }
    }
}

#[test]
fn default_board_is_the_empty_board() {
    let m = SudokuMatrix::default();
    for r in 0..9 {
        for c in 0..9 {
            assert_eq!(m.get_value(r, c), 0);
        }
    }
}

#[test]
fn set_value_touches_one_cell_only() {
    let mut m = board_from_rows(SOLVED_ROWS);
    m.set_value(4, 7, 0);
    for r in 0..9 {
        for c in 0..9 {
            let expected = if r == 4 && c == 7 { 0 } else { SOLVED_ROWS[r][c] };
            assert_eq!(m.get_value(r, c), expected);
        }
    }
}

#[test]
fn set_value_zero_clears_a_cell() {
    let mut m = SudokuMatrix::new();
    m.set_value(3, 3, 7);
    assert_eq!(m.get_value(3, 3), 7);
    m.set_value(3, 3, 0);
    assert_eq!(m.get_value(3, 3), 0);
}

#[test]
fn set_value_above_nine_leaves_the_board_alone() {
    let mut m = SudokuMatrix::new();
    m.set_value(2, 5, 4);
    m.set_value(2, 5, 10);
    assert_eq!(m.get_value(2, 5), 4);
    m.set_value(6, 6, 255);
    assert_eq!(m.get_value(6, 6), 0);
    m.set_value(6, 6, 9);
    assert_eq!(m.get_value(6, 6), 9);
}

#[test]
fn set_value_does_not_look_for_conflicts() {
    let mut m = SudokuMatrix::new();
    m.set_value(0, 0, 5);
    m.set_value(0, 8, 5);
    assert_eq!(m.get_value(0, 0), 5);
    assert_eq!(m.get_value(0, 8), 5);
}

#[test]
fn clone_is_independent_of_its_source() {
    let mut m = SudokuMatrix::new();
    m.set_value(1, 2, 3);
    let mut copy = m.clone();
    assert_eq!(copy.get_value(1, 2), 3);
    copy.set_value(1, 2, 8);
    copy.set_value(5, 5, 5);
    assert_eq!(m.get_value(1, 2), 3);
    assert_eq!(m.get_value(5, 5), 0);
    m.set_value(7, 7, 7);
    assert_eq!(copy.get_value(7, 7), 0);
}

#[test]
fn is_complete_is_false_with_one_empty_cell() {
    for &(r, c) in [(0usize, 0usize), (8, 8), (4, 5), (0, 8), (8, 0)].iter() {
        let mut m = board_from_rows(SOLVED_ROWS);
        assert!(m.is_complete());
        m.set_value(r, c, 0);
        assert!(!m.is_complete());
    }
}

#[test]
fn is_compatible_accepts_a_solved_board() {
    let m = board_from_rows(SOLVED_ROWS);
    assert!(m.is_complete());
    assert!(m.is_compatible());
}

#[test]
fn is_compatible_finds_a_conflict_in_any_unit() {
    // last row, far apart
    let mut m = SudokuMatrix::new();
    m.set_value(8, 0, 3);
    m.set_value(8, 8, 3);
    assert!(!m.is_compatible());
    // last column
    let mut m = SudokuMatrix::new();
    m.set_value(0, 8, 6);
    m.set_value(8, 8, 6);
    assert!(!m.is_compatible());
    // the block in the middle, neither same row nor same column
    let mut m = SudokuMatrix::new();
    m.set_value(3, 5, 2);
    m.set_value(5, 3, 2);
    assert!(!m.is_compatible());
    // the block at the bottom right
    let mut m = SudokuMatrix::new();
    m.set_value(6, 8, 1);
    m.set_value(8, 6, 1);
    assert!(!m.is_compatible());
}

#[test]
fn is_compatible_ignores_equal_values_that_are_no_peers() {
    let mut m = SudokuMatrix::new();
    m.set_value(0, 0, 5);
    m.set_value(1, 3, 5);
    m.set_value(2, 6, 5);
    m.set_value(3, 1, 5);
    m.set_value(8, 8, 5);
    assert!(m.is_compatible());
    // across a block border: (2, 2) and (3, 3) share nothing
    let mut m = SudokuMatrix::new();
    m.set_value(2, 2, 4);
    m.set_value(3, 3, 4);
    assert!(m.is_compatible());
}

#[test]
fn is_compatible_after_swapping_two_cells_of_a_solved_board() {
    let mut m = board_from_rows(SOLVED_ROWS);
    let a = m.get_value(0, 0);
    let b = m.get_value(0, 1);
    m.set_value(0, 0, b);
    m.set_value(0, 1, a);
    // the row is still fine, the columns are not
    assert!(!m.is_compatible());
}

#[test]
fn render_of_the_empty_board() {
    let m = SudokuMatrix::new();
    let heavy = "  *-----*-----*-----*\n";
    let light = "  -------------------\n";
    let mut expected = String::from("   0 1 2 3 4 5 6 7 8\n");
    for r in 0..9 {
        expected.push_str(if r % 3 == 0 { heavy } else { light });
        expected.push_str(&format!("{} | | | | | | | | | |\n", r));
    }
    expected.push_str(heavy);
    assert_eq!(m.render(), expected);
}

#[test]
fn render_of_a_board_with_values() {
    let mut m = SudokuMatrix::new();
    m.set_value(0, 0, 1);
    m.set_value(0, 8, 9);
    m.set_value(4, 4, 5);
    m.set_value(8, 3, 7);
    let expected = concat_lines(&[
        "   0 1 2 3 4 5 6 7 8",
        "  *-----*-----*-----*",
        "0 |1| | | | | | | |9|",
        "  -------------------",
        "1 | | | | | | | | | |",
        "  -------------------",
        "2 | | | | | | | | | |",
        "  *-----*-----*-----*",
        "3 | | | | | | | | | |",
        "  -------------------",
        "4 | | | | |5| | | | |",
        "  -------------------",
        "5 | | | | | | | | | |",
        "  *-----*-----*-----*",
        "6 | | | | | | | | | |",
        "  -------------------",
        "7 | | | | | | | | | |",
        "  -------------------",
        "8 | | | |7| | | | | |",
        "  *-----*-----*-----*",
    ]);
    assert_eq!(m.render(), expected);
}

#[test]
fn render_of_a_solved_board_shows_every_digit() {
    let m = board_from_rows(SOLVED_ROWS);
    let text = m.render();
    let lines: Vec<&str> = text.lines().collect();
    assert_eq!(lines.len(), 20);
    assert_eq!(lines[2], "0 |2|1|3|4|6|5|8|9|7|");
    assert_eq!(lines[10], "4 |6|2|5|1|7|3|4|8|9|");
    assert_eq!(lines[18], "8 |9|6|2|7|8|1|3|4|5|");
    assert!(text.ends_with("  *-----*-----*-----*\n"));
}

fn concat_lines(lines: &[&str]) -> String {
    let mut s = String::new();
    for l in lines {
        s.push_str(l);
        s.push('\n');
    }
    s
}
