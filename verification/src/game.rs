//! An interactive game: a puzzle, a cursor on it, and what each key does.
//!
//! The game decides; drawing it and reading the keys is left to the caller.

use vstd::prelude::*;
use crate::generator::create_matrix;
use crate::grid::{
    cell_at, compatible, filled_count, in_board, is_grid, lemma_grid_ext, lemma_put_is_grid, put,
    solvable, Grid,
};
use crate::matrix::SudokuMatrix;
use crate::search::{lemma_search_sound, search};
use crate::solver::solve_sudoku;

verus! {

/// How many cells a new game starts with.
pub const START_CELLS: usize = 25;

/// The keys the game tells apart.
#[derive(Clone, Copy, Debug)]
pub enum KeyCode {
    Char(char),
    Left,
    Right,
    Up,
    Down,
    Other,
}

/// A key that was pressed, with or without the control key held down.
#[derive(Clone, Copy, Debug)]
pub struct KeyEvent {
    pub code: KeyCode,
    pub control: bool,
}

/// What a game is made of.
pub struct AppView {
    /// The board as it stands.
    pub board: Grid,
    /// For each cell, in row-major order, whether the puzzle gave it.
    pub given: Seq<bool>,
    /// The cell the cursor is on, in row-major order.
    pub cursor: int,
    /// Whether the player has left the game.
    pub exit: bool,
}

/// The digit key `c` stands for a value.
pub open spec fn is_digit(c: char) -> bool {
    '0' <= c <= '9'
}

/// The value that the digit key `c` stands for.
pub open spec fn digit_value(c: char) -> int {
    c as int - '0' as int
}

impl AppView {
    /// What holds of every game: the cursor is on the board, and every cell
    /// that the puzzle gave is filled.
    pub open spec fn well_formed(self) -> bool {
        &&& 0 <= self.cursor < 81
        &&& self.given.len() == 81
        &&& is_grid(self.board)
        &&& forall|i: int| 0 <= i < 81 && self.given[i] ==> #[trigger] cell_at(self.board, i) != 0
    }

    /// The row the cursor is in.
    pub open spec fn row(self) -> int {
        self.cursor / 9
    }

    /// The column the cursor is in.
    pub open spec fn col(self) -> int {
        self.cursor % 9
    }

    /// The game after `value` was typed: written under the cursor, unless
    /// the cell there was given by the puzzle or `value` is no cell value.
    pub open spec fn fill_value(self, value: int) -> AppView {
        if self.given[self.cursor] || value > 9 {
            self
        } else {
            AppView { board: put(self.board, self.row(), self.col(), value as u8), ..self }
        }
    }

    /// The board with every cell cleared that the puzzle did not give.
    pub open spec fn reset_board(self) -> Grid {
        Seq::new(
            9,
            |r: int|
                Seq::new(
                    9,
                    |c: int|
                        if self.given[9 * r + c] {
                            self.board[r][c]
                        } else {
                            0u8
                        },
                ),
        )
    }

    /// The game with every cell cleared that the puzzle did not give.
    pub open spec fn reset_matrix(self) -> AppView {
        AppView { board: self.reset_board(), ..self }
    }

    /// The game with the board solved, if it has a solution.
    pub open spec fn solve_matrix(self) -> AppView {
        match search(self.board) {
            Some(s) => AppView { board: s, ..self },
            None => self,
        }
    }

    /// The game after the player left it.
    pub open spec fn exit(self) -> AppView {
        AppView { exit: true, ..self }
    }

    /// The game with the cursor moved by one cell, unless it stands at the
    /// edge of the board already.
    pub open spec fn move_cursor(self, code: KeyCode) -> AppView {
        let cursor = match code {
            KeyCode::Left => if self.cursor % 9 != 0 {
                self.cursor - 1
            } else {
                self.cursor
            },
            KeyCode::Right => if self.cursor % 9 < 8 {
                self.cursor + 1
            } else {
                self.cursor
            },
            KeyCode::Up => if self.cursor >= 9 {
                self.cursor - 9
            } else {
                self.cursor
            },
            KeyCode::Down => if self.cursor < 72 {
                self.cursor + 9
            } else {
                self.cursor
            },
            _ => self.cursor,
        };
        AppView { cursor, ..self }
    }

    /// The game after a key was pressed. With the control key, `r` resets
    /// the board and `a` solves it. Without, `q` leaves the game, a digit is
    /// written under the cursor and an arrow moves the cursor. Every other
    /// key does nothing.
    pub open spec fn handle_key_event(self, key_event: KeyEvent) -> AppView {
        if key_event.control {
            match key_event.code {
                KeyCode::Char(c) => if c == 'r' {
                    self.reset_matrix()
                } else if c == 'a' {
                    self.solve_matrix()
                } else {
                    self
                },
                _ => self,
            }
        } else {
            match key_event.code {
                KeyCode::Char(c) => if c == 'q' {
                    self.exit()
                } else if is_digit(c) {
                    self.fill_value(digit_value(c))
                } else {
                    self
                },
                _ => self.move_cursor(key_event.code),
            }
        }
    }
}

/// Writing a cell value into a cell that the puzzle did not give leaves a
/// game as it should be, and every other cell as it was.
pub proof fn lemma_write_keeps_given(view: AppView, i: int, v: u8)
    requires
        view.well_formed(),
        0 <= i < 81,
        !view.given[i],
        v <= 9,
    ensures
        (AppView { board: put(view.board, i / 9, i % 9, v), ..view }).well_formed(),
        forall|k: int|
            0 <= k < 81 && k != i ==> #[trigger] cell_at(put(view.board, i / 9, i % 9, v), k)
                == cell_at(view.board, k),
{
    let board = put(view.board, i / 9, i % 9, v);
    assert(in_board(i / 9, i % 9));
    lemma_put_is_grid(view.board, i / 9, i % 9, v);
    assert forall|k: int| 0 <= k < 81 && k != i implies #[trigger] cell_at(board, k) == cell_at(
        view.board,
        k,
    ) by {
        assert(in_board(k / 9, k % 9));
        assert(k / 9 != i / 9 || k % 9 != i % 9);
    }
    assert forall|k: int| 0 <= k < 81 && view.given[k] implies #[trigger] cell_at(board, k)
        != 0 by {
        assert(cell_at(view.board, k) != 0);
    }
}

/// Resetting the board leaves a game as it should be and every given cell
/// as it was.
pub proof fn lemma_reset_keeps_given(view: AppView)
    requires
        view.well_formed(),
    ensures
        view.reset_matrix().well_formed(),
        forall|k: int|
            0 <= k < 81 ==> #[trigger] cell_at(view.reset_board(), k) == (if view.given[k] {
                cell_at(view.board, k)
            } else {
                0
            }),
{
    let target = view.reset_board();
    assert forall|k: int| 0 <= k < 81 implies #[trigger] cell_at(target, k) == (if view.given[k] {
        cell_at(view.board, k)
    } else {
        0
    }) by {
        assert(in_board(k / 9, k % 9));
        assert(9 * (k / 9) + k % 9 == k);
    }
    assert forall|r: int, c: int| in_board(r, c) implies #[trigger] target[r][c] <= 9 by {
        assert(view.board[r][c] <= 9);
    }
    assert forall|k: int| 0 <= k < 81 && view.given[k] implies #[trigger] cell_at(target, k)
        != 0 by {
        assert(cell_at(view.board, k) != 0);
    }
}

/// Solving the board leaves a game as it should be and every filled cell as
/// it was.
pub proof fn lemma_solve_keeps_given(view: AppView)
    requires
        view.well_formed(),
    ensures
        view.solve_matrix().well_formed(),
        forall|k: int|
            0 <= k < 81 && cell_at(view.board, k) != 0 ==> #[trigger] cell_at(
                view.solve_matrix().board,
                k,
            ) == cell_at(view.board, k),
{
    lemma_search_sound(view.board);
    if let Some(s) = search(view.board) {
        assert forall|k: int| 0 <= k < 81 && cell_at(view.board, k) != 0 implies #[trigger] cell_at(
            s,
            k,
        ) == cell_at(view.board, k) by {
            assert(in_board(k / 9, k % 9));
            assert(s[k / 9][k % 9] == view.board[k / 9][k % 9]);
        }
        assert forall|k: int| 0 <= k < 81 && view.given[k] implies #[trigger] cell_at(s, k)
            != 0 by {
            assert(cell_at(view.board, k) != 0);
        }
    }
}

/// No key changes a cell that the puzzle gave, nor which cells those are,
/// and every key leaves the game as it should be.
pub proof fn lemma_key_keeps_given(view: AppView, key_event: KeyEvent)
    requires
        view.well_formed(),
    ensures
        view.handle_key_event(key_event).well_formed(),
        view.handle_key_event(key_event).given == view.given,
        forall|k: int|
            0 <= k < 81 && view.given[k] ==> #[trigger] cell_at(
                view.handle_key_event(key_event).board,
                k,
            ) == cell_at(view.board, k),
{
    let after = view.handle_key_event(key_event);
    lemma_reset_keeps_given(view);
    lemma_solve_keeps_given(view);
    if !view.given[view.cursor] {
        match key_event.code {
            KeyCode::Char(c) => {
                if is_digit(c) {
                    lemma_write_keeps_given(view, view.cursor, digit_value(c) as u8);
                }
            },
            _ => {},
        }
    }
    assert forall|k: int| 0 <= k < 81 && view.given[k] implies #[trigger] cell_at(after.board, k)
        == cell_at(view.board, k) by {
        assert(cell_at(view.board, k) != 0);
    }
}

/// A game in progress.
#[derive(Debug)]
pub struct App {
    matrix: SudokuMatrix,
    given: [bool; 81],
    cursor_pos: usize,
    exit: bool,
}

impl View for App {
    type V = AppView;

    closed spec fn view(&self) -> AppView {
        AppView {
            board: self.matrix@,
            given: self.given@,
            cursor: self.cursor_pos as int,
            exit: self.exit,
        }
    }
}

impl App {
    /// What holds of every game: the cursor is on the board, and every cell
    /// that the puzzle gave is filled.
    #[verifier::type_invariant]
    pub open spec fn valid(&self) -> bool {
        self@.well_formed()
    }

    /// Starts a game on a fresh puzzle of `START_CELLS` cells: the cells
    /// that the puzzle fills are the given ones, the cursor is on the first
    /// cell.
    pub fn new() -> (app: Self)
        ensures
            filled_count(app@.board) == START_CELLS,
            compatible(app@.board),
            solvable(app@.board),
            forall|i: int| 0 <= i < 81 ==> app@.given[i] == (cell_at(app@.board, i) != 0),
            app@.cursor == 0,
            !app@.exit,
    {
        let mat = create_matrix(START_CELLS);
        let mut given = [false;81];
        for i in 0..81usize
            invariant
                forall|j: int| 0 <= j < i ==> given@[j] == (cell_at(mat@, j) != 0),
        {
            let x = i / 9;
            let y = i % 9;
            let filled = mat.get_value(x, y) != 0;
            given[i] = filled;
        }
        proof {
            use_type_invariant(&mat);
        }
        App { matrix: mat, given, cursor_pos: 0, exit: false }
    }

    /// The board as it stands.
    pub fn matrix(&self) -> (mat: &SudokuMatrix)
        ensures
            mat@ == self@.board,
    {
        &self.matrix
    }

    /// The cell the cursor is on, in row-major order.
    pub fn cursor_pos(&self) -> (pos: usize)
        ensures
            pos == self@.cursor,
            pos < 81,
    {
        proof {
            use_type_invariant(self);
        }
        self.cursor_pos
    }

    /// Tells whether the puzzle gave the `i`-th cell, in row-major order.
    pub fn is_given(&self, i: usize) -> (given: bool)
        requires
            i < 81,
        ensures
            given == self@.given[i as int],
    {
        self.given[i]
    }

    /// Tells whether the player has left the game.
    pub fn should_exit(&self) -> (exit: bool)
        ensures
            exit == self@.exit,
    {
        self.exit
    }

    /// Writes `value` under the cursor, unless the cell there was given by
    /// the puzzle or `value` is above `9`.
    pub fn fill_value(&mut self, value: u32)
        ensures
            final(self)@ == old(self)@.fill_value(value as int),
    {
        proof {
            use_type_invariant(&*self);
        }
        if self.given[self.cursor_pos] {
            return ;
        }
        if value > 9 {
            return ;
        }
        let r = self.cursor_pos / 9;
        let c = self.cursor_pos % 9;
        let mut matrix = self.matrix.clone();
        matrix.set_value(r, c, value as u8);
        proof {
            lemma_write_keeps_given(old(self)@, self.cursor_pos as int, value as u8);
        }
        self.matrix = matrix;
    }

    /// Takes in a key that was pressed.
    pub fn handle_key_event(&mut self, key_event: KeyEvent)
        ensures
            final(self)@ == old(self)@.handle_key_event(key_event),
    {
        proof {
            use_type_invariant(&*self);
        }
        if key_event.control {
            match key_event.code {
                KeyCode::Char(c) => {
                    if c == 'r' {
                        self.reset_matrix();
                    } else if c == 'a' {
                        self.solve_matrix();
                    }
                },
                _ => {},
            }
            return ;
        }
        match key_event.code {
            KeyCode::Char(c) => {
                if c == 'q' {
                    self.exit();
                } else if '0' <= c && c <= '9' {
                    self.fill_value(c as u32 - '0' as u32);
                }
            },
            KeyCode::Left => {
                if self.cursor_pos % 9 != 0 {
                    self.cursor_pos -= 1;
                }
            },
            KeyCode::Right => {
                if self.cursor_pos % 9 < 8 {
                    self.cursor_pos += 1;
                }
            },
            KeyCode::Up => {
                if self.cursor_pos >= 9 {
                    self.cursor_pos -= 9;
                }
            },
            KeyCode::Down => {
                if self.cursor_pos < 72 {
                    self.cursor_pos += 9;
                }
            },
            _ => {},
        }
    }

    /// Leaves the game.
    pub fn exit(&mut self)
        ensures
            final(self)@ == old(self)@.exit(),
    {
        proof {
            use_type_invariant(&*self);
        }
        self.exit = true;
    }

    /// Clears every cell that the puzzle did not give.
    pub fn reset_matrix(&mut self)
        ensures
            final(self)@ == old(self)@.reset_matrix(),
    {
        proof {
            use_type_invariant(&*self);
        }
        let ghost start = self@;
        for i in 0..81usize
            invariant
                is_grid(start.board),
                start.given.len() == 81,
                self@.given == start.given,
                self@.cursor == start.cursor,
                self@.exit == start.exit,
                0 <= self@.cursor < 81,
                is_grid(self@.board),
                forall|k: int|
                    0 <= k < 81 ==> #[trigger] cell_at(self@.board, k) == (if k < i
                        && !start.given[k] {
                        0
                    } else {
                        cell_at(start.board, k)
                    }),
        {
            let r = i / 9;
            let c = i % 9;
            if !self.given[i] {
                let ghost before = self@.board;
                let mut matrix = self.matrix.clone();
                matrix.set_value(r, c, 0);
                proof {
                    use_type_invariant(&*self);
                    lemma_write_keeps_given(self@, i as int, 0);
                }
                self.matrix = matrix;
                proof {
                    lemma_put_is_grid(before, r as int, c as int, 0);
                    assert forall|k: int| 0 <= k < 81 implies #[trigger] cell_at(self@.board, k)
                        == (if k < i + 1 && !start.given[k] {
                        0
                    } else {
                        cell_at(start.board, k)
                    }) by {
                        assert(in_board(k / 9, k % 9));
                        if k != i {
                            assert(k / 9 != r || k % 9 != c);
                            assert(cell_at(self@.board, k) == cell_at(before, k));
                        }
                    }
                }
            }
        }
        proof {
            let target = start.reset_board();
            assert forall|r: int, c: int| in_board(r, c) implies #[trigger] self@.board[r][c]
                == target[r][c] by {
                let k = 9 * r + c;
                assert(k / 9 == r && k % 9 == c);
                assert(cell_at(self@.board, k) == self@.board[r][c]);
                assert(cell_at(start.board, k) == start.board[r][c]);
            }
            assert(is_grid(target)) by {
                assert forall|r: int, c: int| in_board(r, c) implies #[trigger] target[r][c]
                    <= 9 by {
                    assert(start.board[r][c] <= 9);
                }
            }
            lemma_grid_ext(self@.board, target);
        }
    }

    /// Solves the board in place, if it has a solution.
    pub fn solve_matrix(&mut self)
        ensures
            final(self)@ == old(self)@.solve_matrix(),
    {
        proof {
            use_type_invariant(&*self);
        }
        let mut matrix = self.matrix.clone();
        solve_sudoku(&mut matrix, true);
        proof {
            lemma_solve_keeps_given(old(self)@);
        }
        self.matrix = matrix;
    }
}

impl Default for App {
    /// A game on a fresh puzzle.
    fn default() -> (app: Self)
        ensures
            filled_count(app@.board) == START_CELLS,
            compatible(app@.board),
            solvable(app@.board),
            forall|i: int| 0 <= i < 81 ==> app@.given[i] == (cell_at(app@.board, i) != 0),
            app@.cursor == 0,
            !app@.exit,
    {
        Self::new()
    }
}

} // verus!
