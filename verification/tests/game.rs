use sudoku_lib::game::{KeyCode, KeyEvent, START_CELLS};
use sudoku_lib::App;

fn key(code: KeyCode) -> KeyEvent {
    KeyEvent { code, control: false }
}

fn ctrl(code: KeyCode) -> KeyEvent {
    KeyEvent { code, control: true }
}

fn cells(app: &App) -> Vec<u8> {
    (0..81).map(|i| app.matrix().get_value(i / 9, i % 9)).collect()
}

fn move_cursor_to(app: &mut App, target: usize) {
    while app.cursor_pos() / 9 < target / 9 {
        app.handle_key_event(key(KeyCode::Down));
    }
    while app.cursor_pos() / 9 > target / 9 {
        app.handle_key_event(key(KeyCode::Up));
    }
    while app.cursor_pos() % 9 < target % 9 {
        app.handle_key_event(key(KeyCode::Right));
    }
    while app.cursor_pos() % 9 > target % 9 {
        app.handle_key_event(key(KeyCode::Left));
    }
    assert_eq!(app.cursor_pos(), target);
}

fn first_cell(app: &App, given: bool) -> usize {
    (0..81).find(|&i| app.is_given(i) == given).unwrap()
}

#[test]
fn new_game_starts_on_a_fresh_puzzle() {
    let app = App::new();
    assert_eq!(START_CELLS, 25);
    assert_eq!(app.cursor_pos(), 0);
    assert!(!app.should_exit());
    assert!(app.matrix().is_compatible());
    let mut filled = 0;
    for i in 0..81 {
        let v = app.matrix().get_value(i / 9, i % 9);
        assert_eq!(app.is_given(i), v != 0);
        if v != 0 {
            filled += 1;
        }
    }
    assert_eq!(filled, 25);
}

#[test]
fn default_game_is_a_new_game() {
    let app = App::default();
    assert_eq!(app.cursor_pos(), 0);
    assert!(!app.should_exit());
    assert_eq!(cells(&app).iter().filter(|&&v| v != 0).count(), 25);
}

#[test]
fn arrows_move_the_cursor_and_stop_at_the_edges() {
    let mut app = App::new();
    app.handle_key_event(key(KeyCode::Left));
    assert_eq!(app.cursor_pos(), 0);
    app.handle_key_event(key(KeyCode::Up));
    assert_eq!(app.cursor_pos(), 0);
    app.handle_key_event(key(KeyCode::Right));
    assert_eq!(app.cursor_pos(), 1);
    app.handle_key_event(key(KeyCode::Down));
    assert_eq!(app.cursor_pos(), 10);
    app.handle_key_event(key(KeyCode::Left));
    assert_eq!(app.cursor_pos(), 9);
    app.handle_key_event(key(KeyCode::Left));
    assert_eq!(app.cursor_pos(), 9);
    app.handle_key_event(key(KeyCode::Up));
    assert_eq!(app.cursor_pos(), 0);
    for _ in 0..20 {
        app.handle_key_event(key(KeyCode::Right));
    }
    assert_eq!(app.cursor_pos(), 8);
    for _ in 0..20 {
        app.handle_key_event(key(KeyCode::Down));
    }
    assert_eq!(app.cursor_pos(), 80);
    app.handle_key_event(key(KeyCode::Right));
    assert_eq!(app.cursor_pos(), 80);
    app.handle_key_event(key(KeyCode::Left));
    assert_eq!(app.cursor_pos(), 79);
    app.handle_key_event(key(KeyCode::Up));
    assert_eq!(app.cursor_pos(), 70);
}

#[test]
fn arrows_leave_the_board_alone() {
    let mut app = App::new();
    let before = cells(&app);
    for code in [KeyCode::Right, KeyCode::Down, KeyCode::Left, KeyCode::Up, KeyCode::Other] {
        app.handle_key_event(key(code));
    }
    assert_eq!(cells(&app), before);
    assert!(!app.should_exit());
}

#[test]
fn a_digit_is_written_under_the_cursor() {
    let mut app = App::new();
    let free = first_cell(&app, false);
    move_cursor_to(&mut app, free);
    let before = cells(&app);
    app.handle_key_event(key(KeyCode::Char('7')));
    let after = cells(&app);
    for i in 0..81 {
        assert_eq!(after[i], if i == free { 7 } else { before[i] });
    }
    app.handle_key_event(key(KeyCode::Char('9')));
    assert_eq!(cells(&app)[free], 9);
    app.handle_key_event(key(KeyCode::Char('0')));
    assert_eq!(cells(&app)[free], 0);
    assert_eq!(cells(&app), before);
}

#[test]
fn a_given_cell_cannot_be_overwritten() {
    let mut app = App::new();
    let given = first_cell(&app, true);
    move_cursor_to(&mut app, given);
    let before = cells(&app);
    for c in ['0', '1', '5', '9'] {
        app.handle_key_event(key(KeyCode::Char(c)));
        assert_eq!(cells(&app), before);
    }
    app.fill_value(3);
    assert_eq!(cells(&app), before);
}

#[test]
fn fill_value_ignores_what_is_no_cell_value() {
    let mut app = App::new();
    let free = first_cell(&app, false);
    move_cursor_to(&mut app, free);
    app.fill_value(4);
    assert_eq!(cells(&app)[free], 4);
    app.fill_value(10);
    assert_eq!(cells(&app)[free], 4);
    app.fill_value(300);
    assert_eq!(cells(&app)[free], 4);
    app.fill_value(u32::MAX);
    assert_eq!(cells(&app)[free], 4);
}

#[test]
fn keys_that_mean_nothing_do_nothing() {
    let mut app = App::new();
    let free = first_cell(&app, false);
    move_cursor_to(&mut app, free);
    let before = cells(&app);
    for c in ['a', 'r', 'x', ' ', 'Q', '/', ':', '\u{0663}'] {
        app.handle_key_event(key(KeyCode::Char(c)));
    }
    for c in ['q', '5', 'x', 'R', 'A'] {
        app.handle_key_event(ctrl(KeyCode::Char(c)));
    }
    for code in [KeyCode::Left, KeyCode::Right, KeyCode::Up, KeyCode::Down, KeyCode::Other] {
        app.handle_key_event(ctrl(code));
    }
    assert_eq!(cells(&app), before);
    assert_eq!(app.cursor_pos(), free);
    assert!(!app.should_exit());
}

#[test]
fn q_leaves_the_game() {
    let mut app = App::new();
    let before = cells(&app);
    app.handle_key_event(key(KeyCode::Char('q')));
    assert!(app.should_exit());
    assert_eq!(cells(&app), before);
    assert_eq!(app.cursor_pos(), 0);
    let mut app = App::new();
    app.exit();
    assert!(app.should_exit());
}

#[test]
fn control_r_clears_what_the_player_wrote() {
    let mut app = App::new();
    let puzzle = cells(&app);
    let mut written = 0;
    for i in 0..81 {
        if !app.is_given(i) && written < 5 {
            move_cursor_to(&mut app, i);
            app.handle_key_event(key(KeyCode::Char('3')));
            written += 1;
        }
    }
    assert_ne!(cells(&app), puzzle);
    let cursor = app.cursor_pos();
    app.handle_key_event(ctrl(KeyCode::Char('r')));
    assert_eq!(cells(&app), puzzle);
    assert_eq!(app.cursor_pos(), cursor);
    assert!(!app.should_exit());
    for i in 0..81 {
        assert_eq!(app.is_given(i), puzzle[i] != 0);
    }
}

#[test]
fn control_a_solves_the_puzzle() {
    let mut app = App::new();
    let puzzle = cells(&app);
    app.handle_key_event(ctrl(KeyCode::Char('a')));
    assert!(app.matrix().is_complete());
    assert!(app.matrix().is_compatible());
    let solved = cells(&app);
    for i in 0..81 {
        assert!(puzzle[i] == 0 || solved[i] == puzzle[i]);
        assert_eq!(app.is_given(i), puzzle[i] != 0);
    }
    app.handle_key_event(ctrl(KeyCode::Char('r')));
    assert_eq!(cells(&app), puzzle);
}

#[test]
fn control_a_leaves_a_board_without_solution_alone() {
    let mut app = App::new();
    // write a value twice into one row, in cells the puzzle left free
    let mut row_cells = Vec::new();
    'rows: for r in 0..9 {
        row_cells.clear();
        for c in 0..9 {
            if !app.is_given(9 * r + c) {
                row_cells.push(9 * r + c);
                if row_cells.len() == 2 {
                    break 'rows;
                }
            }
        }
    }
    assert_eq!(row_cells.len(), 2);
    for &i in row_cells.iter() {
        move_cursor_to(&mut app, i);
        app.fill_value(5);
    }
    assert!(!app.matrix().is_compatible());
    let before = cells(&app);
    app.solve_matrix();
    assert_eq!(cells(&app), before);
}

#[test]
fn no_key_changes_a_given_cell() {
    let mut app = App::new();
    let puzzle = cells(&app);
    let keys = [
        key(KeyCode::Char('5')), key(KeyCode::Right), key(KeyCode::Char('0')),
        key(KeyCode::Down), key(KeyCode::Char('9')), ctrl(KeyCode::Char('a')),
        key(KeyCode::Left), key(KeyCode::Char('1')), key(KeyCode::Up),
        ctrl(KeyCode::Char('r')), key(KeyCode::Char('3')), key(KeyCode::Other),
        ctrl(KeyCode::Char('x')), key(KeyCode::Char('q')), key(KeyCode::Char('7')),
    ];
    for round in 0..12 {
        for (n, k) in keys.iter().enumerate() {
            if (n + round) % 3 != 0 {
                app.handle_key_event(*k);
            }
            let now = cells(&app);
            for i in 0..81 {
                assert_eq!(app.is_given(i), puzzle[i] != 0);
                if puzzle[i] != 0 {
                    assert_eq!(now[i], puzzle[i]);
                }
            }
            assert!(app.cursor_pos() < 81);
        }
        for _ in 0..round {
            app.handle_key_event(key(KeyCode::Right));
            app.handle_key_event(key(KeyCode::Down));
        }
    }
}
