use sudoku_lib::command::{
    parse_cell_input, process_cell_input, process_reset_command, read_command, CellInput,
    CellOutcome, Command,
};
use sudoku_lib::SudokuMatrix;

/// The same line read with what the standard library offers.
fn read_with_std(input: &str) -> CellInput {
    let fields: Vec<&str> = input.trim().split(" ").collect();
    if fields.len() >= 3 {
        match (fields[0].parse::<usize>(), fields[1].parse::<usize>(), fields[2].parse::<u8>()) {
            (Ok(r), Ok(c), Ok(v)) => CellInput::Cell { r, c, v },
            _ => CellInput::NotNumbers,
        }
    } else {
        CellInput::TooShort
    }
}

fn same(a: CellInput, b: CellInput) -> bool {
    match (a, b) {
        (CellInput::TooShort, CellInput::TooShort) => true,
        (CellInput::NotNumbers, CellInput::NotNumbers) => true,
        (CellInput::Cell { r, c, v }, CellInput::Cell { r: r2, c: c2, v: v2 }) => {
            r == r2 && c == c2 && v == v2
        }
        _ => false,
    }
}

fn board_cells(m: &SudokuMatrix) -> Vec<u8> {
    (0..81).map(|i| m.get_value(i / 9, i % 9)).collect()
}

#[test]
fn read_command_tells_the_commands_apart() {
    assert!(matches!(read_command("solve"), Command::Solve));
    assert!(matches!(read_command("solve it"), Command::Solve));
    assert!(matches!(read_command("solved"), Command::Solve));
    assert!(matches!(read_command("reset"), Command::Reset));
    assert!(matches!(read_command("reset please"), Command::Reset));
    assert!(matches!(read_command("1 2 3"), Command::Cell));
    assert!(matches!(read_command(""), Command::Cell));
    assert!(matches!(read_command("sol"), Command::Cell));
    assert!(matches!(read_command("solv"), Command::Cell));
    assert!(matches!(read_command("rese"), Command::Cell));
    assert!(matches!(read_command("Solve"), Command::Cell));
    assert!(matches!(read_command(" solve"), Command::Cell));
    assert!(matches!(read_command("resolve"), Command::Cell));
    assert!(matches!(read_command("solwe"), Command::Cell));
}

#[test]
fn parse_cell_input_reads_three_numbers() {
    assert!(same(parse_cell_input("1 2 3"), CellInput::Cell { r: 1, c: 2, v: 3 }));
    assert!(same(parse_cell_input("0 0 0"), CellInput::Cell { r: 0, c: 0, v: 0 }));
    assert!(same(parse_cell_input("8 7 9"), CellInput::Cell { r: 8, c: 7, v: 9 }));
    assert!(same(parse_cell_input("12 345 255"), CellInput::Cell { r: 12, c: 345, v: 255 }));
    assert!(same(parse_cell_input("007 08 009"), CellInput::Cell { r: 7, c: 8, v: 9 }));
    assert!(same(parse_cell_input("+1 +2 +3"), CellInput::Cell { r: 1, c: 2, v: 3 }));
}

#[test]
fn parse_cell_input_ignores_white_space_at_the_ends() {
    assert!(same(parse_cell_input("  1 2 3  "), CellInput::Cell { r: 1, c: 2, v: 3 }));
    assert!(same(parse_cell_input("\t1 2 3\r\n"), CellInput::Cell { r: 1, c: 2, v: 3 }));
    assert!(same(parse_cell_input("\n\n4 5 6"), CellInput::Cell { r: 4, c: 5, v: 6 }));
    assert!(same(parse_cell_input("4 5 6 \x0b\x0c"), CellInput::Cell { r: 4, c: 5, v: 6 }));
}

#[test]
fn parse_cell_input_does_not_look_at_further_fields() {
    assert!(same(parse_cell_input("1 2 3 4"), CellInput::Cell { r: 1, c: 2, v: 3 }));
    assert!(same(parse_cell_input("1 2 3 x y z"), CellInput::Cell { r: 1, c: 2, v: 3 }));
    assert!(same(parse_cell_input("1 2 3  "), CellInput::Cell { r: 1, c: 2, v: 3 }));
}

#[test]
fn parse_cell_input_wants_three_fields() {
    assert!(same(parse_cell_input(""), CellInput::TooShort));
    assert!(same(parse_cell_input("   "), CellInput::TooShort));
    assert!(same(parse_cell_input("1"), CellInput::TooShort));
    assert!(same(parse_cell_input("1 2"), CellInput::TooShort));
    assert!(same(parse_cell_input("1 2 "), CellInput::TooShort));
    assert!(same(parse_cell_input("1\t2\t3"), CellInput::TooShort));
    assert!(same(parse_cell_input("1,2,3"), CellInput::TooShort));
    assert!(same(parse_cell_input("hello world"), CellInput::TooShort));
}

#[test]
fn parse_cell_input_wants_numbers() {
    for line in [
        "a b c", "1 2 x", "x 2 3", "1 x 3", "1  2 3", "1 2  3", "-1 2 3", "1 -2 3", "1 2 -3",
        "1 2 3x", "1.0 2 3", "+ 1 2", "1 + 2", "1 2 +", "++1 2 3", "1+ 2 3", "1 2 0x3",
        "1 2 256", "1 2 1000", "1 2 99999999999999999999999999",
        "99999999999999999999999999 2 3", "1 99999999999999999999999999 3",
        "1 2 \u{0663}", "\u{0661} 2 3",
    ] {
        assert!(same(parse_cell_input(line), CellInput::NotNumbers), "line {:?}", line);
    }
}

#[test]
fn parse_cell_input_at_the_limits_of_the_numbers() {
    let max = usize::MAX;
    let line = format!("{} {} 255", max, max);
    assert!(same(parse_cell_input(&line), CellInput::Cell { r: max, c: max, v: 255 }));
    let line = format!("{}0 1 1", max);
    assert!(same(parse_cell_input(&line), CellInput::NotNumbers));
    let line = format!("{} 1 1", max as u128 + 1);
    assert!(same(parse_cell_input(&line), CellInput::NotNumbers));
    let line = format!("1 {} 1", max as u128 + 1);
    assert!(same(parse_cell_input(&line), CellInput::NotNumbers));
    let line = format!("000000000000000000000000000{} 1 1", max);
    assert!(same(parse_cell_input(&line), CellInput::Cell { r: max, c: 1, v: 1 }));
    assert!(same(parse_cell_input("1 2 0000000000000000255"), CellInput::Cell { r: 1, c: 2, v: 255 }));
}

#[test]
fn parse_cell_input_reads_ascii_lines_as_the_standard_library_does() {
    let pieces = ["", " ", "  ", "1", "2", "30", "255", "256", "+4", "-4", "x", "+", "007", "9 9", "\t"];
    for a in pieces {
        for b in pieces {
            for c in pieces {
                for sep in [" ", "  "] {
                    let line = format!("{}{}{}{}{}", a, sep, b, " ", c);
                    assert!(
                        same(parse_cell_input(&line), read_with_std(&line)),
                        "line {:?}",
                        line
                    );
                }
            }
        }
    }
}

#[test]
fn process_cell_input_writes_into_a_free_cell() {
    let puzzle = SudokuMatrix::new();
    let mut mat = puzzle.clone();
    assert!(matches!(process_cell_input(&mut mat, &puzzle, "3 4 5"), CellOutcome::Written));
    for i in 0..81 {
        assert_eq!(mat.get_value(i / 9, i % 9), if i == 31 { 5 } else { 0 });
    }
    assert!(matches!(process_cell_input(&mut mat, &puzzle, " 3 4 0 "), CellOutcome::Written));
    assert_eq!(board_cells(&mat), vec![0u8; 81]);
}

#[test]
fn process_cell_input_protects_what_the_puzzle_gave() {
    let mut puzzle = SudokuMatrix::new();
    puzzle.set_value(2, 6, 4);
    let mut mat = puzzle.clone();
    match process_cell_input(&mut mat, &puzzle, "2 6 9") {
        CellOutcome::Protected { r, c } => {
            assert_eq!((r, c), (2, 6));
        }
        _ => panic!("the cell was given"),
    }
    assert_eq!(mat.get_value(2, 6), 4);
    assert!(matches!(process_cell_input(&mut mat, &puzzle, "2 5 9"), CellOutcome::Written));
    assert_eq!(mat.get_value(2, 5), 9);
    // what the player wrote is not protected
    assert!(matches!(process_cell_input(&mut mat, &puzzle, "2 5 1"), CellOutcome::Written));
    assert_eq!(mat.get_value(2, 5), 1);
}

#[test]
fn process_cell_input_reports_a_cell_outside_the_board() {
    let puzzle = SudokuMatrix::new();
    let mut mat = puzzle.clone();
    for (line, cell) in [("9 0 1", (9usize, 0usize)), ("0 9 1", (0, 9)), ("100 200 3", (100, 200))] {
        match process_cell_input(&mut mat, &puzzle, line) {
            CellOutcome::OutsideBoard { r, c } => assert_eq!((r, c), cell),
            _ => panic!("no such cell"),
        }
    }
    assert_eq!(board_cells(&mat), vec![0u8; 81]);
}

#[test]
fn process_cell_input_leaves_the_board_alone_on_other_lines() {
    let puzzle = SudokuMatrix::new();
    let mut mat = puzzle.clone();
    mat.set_value(1, 1, 1);
    let before = board_cells(&mat);
    assert!(matches!(process_cell_input(&mut mat, &puzzle, "1 1"), CellOutcome::TooShort));
    assert!(matches!(process_cell_input(&mut mat, &puzzle, ""), CellOutcome::TooShort));
    assert!(matches!(process_cell_input(&mut mat, &puzzle, "a b c"), CellOutcome::NotNumbers));
    assert!(matches!(process_cell_input(&mut mat, &puzzle, "1 1 999"), CellOutcome::NotNumbers));
    assert_eq!(board_cells(&mat), before);
    // a value that is a number and no cell value is handed on and left out
    assert!(matches!(process_cell_input(&mut mat, &puzzle, "1 1 10"), CellOutcome::Written));
    assert!(matches!(process_cell_input(&mut mat, &puzzle, "1 1 255"), CellOutcome::Written));
    assert_eq!(board_cells(&mat), before);
}

#[test]
fn process_reset_command_restores_the_puzzle() {
    let mut puzzle = SudokuMatrix::new();
    puzzle.set_value(0, 0, 1);
    puzzle.set_value(8, 8, 9);
    let mut mat = puzzle.clone();
    mat.set_value(4, 4, 5);
    mat.set_value(0, 0, 0);
    process_reset_command(&mut mat, &puzzle);
    assert_eq!(board_cells(&mat), board_cells(&puzzle));
    mat.set_value(3, 3, 3);
    assert_eq!(puzzle.get_value(3, 3), 0);
}
