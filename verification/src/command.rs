//! The lines a player types: `solve`, `reset`, or a cell as
//! `[row] [col] [value]`.
//!
//! A line is read as bytes. White space at both ends is ignored; of white
//! space only the ASCII kind is known. A line is cut into fields at every
//! single space. A number is a run of decimal digits, which a `+` may
//! precede.

use vstd::prelude::*;
use vstd::string::StringSliceAdditionalSpecFns;
use crate::grid::{put};
use crate::matrix::SudokuMatrix;

verus! {

/// The space that parts one field from the next.
pub const SPACE: u8 = 32;

/// The sign `+`.
pub const PLUS: u8 = 43;

/// The digit `0`.
pub const ZERO: u8 = 48;

/// The digit `9`.
pub const NINE: u8 = 57;

/// The byte is ASCII white space.
pub open spec fn is_blank(b: u8) -> bool {
    b == 32 || 9 <= b <= 13
}

/// The line without the white space it starts with.
pub open spec fn trim_start(s: Seq<u8>) -> Seq<u8>
    decreases s.len(),
{
    if s.len() > 0 && is_blank(s[0]) {
        trim_start(s.drop_first())
    } else {
        s
    }
}

/// The line without the white space it ends with.
pub open spec fn trim_end(s: Seq<u8>) -> Seq<u8>
    decreases s.len(),
{
    if s.len() > 0 && is_blank(s.last()) {
        trim_end(s.drop_last())
    } else {
        s
    }
}

/// The line without the white space at its ends.
pub open spec fn trimmed(s: Seq<u8>) -> Seq<u8> {
    trim_end(trim_start(s))
}

/// How long the first field is: how many bytes stand before the first
/// space.
pub open spec fn field_len(s: Seq<u8>) -> nat
    decreases s.len(),
{
    if s.len() == 0 || s[0] == SPACE {
        0
    } else {
        1 + field_len(s.drop_first())
    }
}

/// The first field.
pub open spec fn first_field(s: Seq<u8>) -> Seq<u8> {
    s.take(field_len(s) as int)
}

/// A space ends the first field, so another field follows.
pub open spec fn has_more(s: Seq<u8>) -> bool {
    field_len(s) < s.len()
}

/// What follows the space that ends the first field.
pub open spec fn after_field(s: Seq<u8>) -> Seq<u8> {
    s.skip(field_len(s) as int + 1)
}

/// Every byte is a decimal digit.
pub open spec fn all_digits(s: Seq<u8>) -> bool {
    forall|i: int| 0 <= i < s.len() ==> ZERO <= #[trigger] s[i] <= NINE
}

/// The number that a run of digits writes.
pub open spec fn decimal(s: Seq<u8>) -> nat
    decreases s.len(),
{
    if s.len() == 0 {
        0
    } else {
        (decimal(s.drop_last()) * 10 + (s.last() - ZERO)) as nat
    }
}

/// The digits of a field: the field without the `+` it may start with.
pub open spec fn unsigned(s: Seq<u8>) -> Seq<u8> {
    if s.len() > 0 && s[0] == PLUS {
        s.drop_first()
    } else {
        s
    }
}

/// The number that a field writes, if it writes one that is `max` at most.
pub open spec fn number(s: Seq<u8>, max: int) -> Option<int> {
    let d = unsigned(s);
    if d.len() > 0 && all_digits(d) && decimal(d) <= max {
        Some(decimal(d) as int)
    } else {
        None
    }
}

/// What a line says when it is read as a cell.
#[derive(Clone, Copy, Debug)]
pub enum CellInput {
    /// The line has fewer than three fields.
    TooShort,
    /// One of the first three fields is no number, or too large a one: for a
    /// row or a column one above `usize::MAX`, for a value one above `255`.
    NotNumbers,
    /// The line names a row, a column and a value.
    Cell { r: usize, c: usize, v: u8 },
}

/// What a line says when it is read as a cell: its first three fields are
/// the row, the column and the value; further fields are not looked at.
pub open spec fn cell_input(line: Seq<u8>) -> CellInput {
    let t = trimmed(line);
    if !has_more(t) || !has_more(after_field(t)) {
        CellInput::TooShort
    } else {
        let r = number(first_field(t), usize::MAX as int);
        let c = number(first_field(after_field(t)), usize::MAX as int);
        let v = number(first_field(after_field(after_field(t))), 255);
        if r is Some && c is Some && v is Some {
            CellInput::Cell { r: r.unwrap() as usize, c: c.unwrap() as usize, v: v.unwrap() as u8 }
        } else {
            CellInput::NotNumbers
        }
    }
}

/// What a line asks for.
#[derive(Clone, Copy, Debug)]
pub enum Command {
    /// Solve the puzzle.
    Solve,
    /// Go back to the puzzle as it was given.
    Reset,
    /// Write into a cell.
    Cell,
}

/// The line starts with the bytes of `word`.
pub open spec fn starts_with(line: Seq<u8>, word: Seq<u8>) -> bool {
    line.len() >= word.len() && line.take(word.len() as int) == word
}

/// The bytes of `solve`.
pub open spec fn solve_word() -> Seq<u8> {
    seq![115u8, 111u8, 108u8, 118u8, 101u8]
}

/// The bytes of `reset`.
pub open spec fn reset_word() -> Seq<u8> {
    seq![114u8, 101u8, 115u8, 101u8, 116u8]
}

/// What a line asks for: a line that starts with `solve` or `reset` asks
/// for that, every other line is read as a cell.
pub open spec fn command(line: Seq<u8>) -> Command {
    if starts_with(line, solve_word()) {
        Command::Solve
    } else if starts_with(line, reset_word()) {
        Command::Reset
    } else {
        Command::Cell
    }
}

/// What came of a line that was read as a cell.
#[derive(Clone, Copy, Debug)]
pub enum CellOutcome {
    /// The value was handed to the board.
    Written,
    /// The puzzle gave this cell: it cannot be set.
    Protected { r: usize, c: usize },
    /// There is no such cell.
    OutsideBoard { r: usize, c: usize },
    /// The line named no numbers: nothing was done.
    NotNumbers,
    /// The line was too short to name a cell.
    TooShort,
}

/// The line without the white space it starts with begins at the first
/// byte that is none.
proof fn lemma_trim_start(s: Seq<u8>, a: int)
    requires
        0 <= a <= s.len(),
        forall|i: int| 0 <= i < a ==> is_blank(#[trigger] s[i]),
        a == s.len() || !is_blank(s[a]),
    ensures
        trim_start(s) == s.subrange(a, s.len() as int),
    decreases a,
{
    if a == 0 {
        assert(s.subrange(0, s.len() as int) =~= s);
    } else {
        let t = s.drop_first();
        assert forall|i: int| 0 <= i < a - 1 implies is_blank(#[trigger] t[i]) by {
            assert(t[i] == s[i + 1]);
        }
        lemma_trim_start(t, a - 1);
        assert(t.subrange(a - 1, t.len() as int) =~= s.subrange(a, s.len() as int));
    }
}

/// The line without the white space it ends with stops behind the last
/// byte that is none.
proof fn lemma_trim_end(s: Seq<u8>, b: int)
    requires
        0 <= b <= s.len(),
        forall|i: int| b <= i < s.len() ==> is_blank(#[trigger] s[i]),
        b == 0 || !is_blank(s[b - 1]),
    ensures
        trim_end(s) == s.subrange(0, b),
    decreases s.len() - b,
{
    if b == s.len() {
        assert(s.subrange(0, s.len() as int) =~= s);
    } else {
        let t = s.drop_last();
        lemma_trim_end(t, b);
        assert(t.subrange(0, b) =~= s.subrange(0, b));
    }
}

/// The first field is as long as the run of bytes before the first space.
proof fn lemma_field_len(s: Seq<u8>, n: int)
    requires
        0 <= n <= s.len(),
        forall|i: int| 0 <= i < n ==> #[trigger] s[i] != SPACE,
        n == s.len() || s[n] == SPACE,
    ensures
        field_len(s) == n,
    decreases n,
{
    if n > 0 {
        let t = s.drop_first();
        assert forall|i: int| 0 <= i < n - 1 implies #[trigger] t[i] != SPACE by {
            assert(t[i] == s[i + 1]);
        }
        lemma_field_len(t, n - 1);
    }
}

/// A run of digits writes no smaller a number than any run it starts with.
proof fn lemma_decimal_grows(s: Seq<u8>, n: int)
    requires
        all_digits(s),
        0 <= n <= s.len(),
    ensures
        decimal(s.take(n)) <= decimal(s),
    decreases s.len() - n,
{
    if n == s.len() {
        assert(s.take(n) =~= s);
    } else {
        let t = s.drop_last();
        assert(all_digits(t));
        lemma_decimal_grows(t, n);
        assert(t.take(n) =~= s.take(n));
        assert(decimal(s) == decimal(t) * 10 + (s.last() - ZERO));
        assert(s.last() >= ZERO);
    }
}

/// Finds the ends of the line without the white space around it.
fn trim_bounds(bytes: &[u8]) -> (ends: (usize, usize))
    ensures
        ends.0 <= ends.1 <= bytes@.len(),
        bytes@.subrange(ends.0 as int, ends.1 as int) == trimmed(bytes@),
{
    let n = bytes.len();
    let mut a: usize = 0;
    while a < n && (bytes[a] == 32 || (9 <= bytes[a] && bytes[a] <= 13))
        invariant
            a <= n,
            n == bytes@.len(),
            forall|i: int| 0 <= i < a ==> is_blank(#[trigger] bytes@[i]),
        decreases n - a,
    {
        a += 1;
    }
    let mut b: usize = n;
    while b > a && (bytes[b - 1] == 32 || (9 <= bytes[b - 1] && bytes[b - 1] <= 13))
        invariant
            a <= b <= n,
            n == bytes@.len(),
            forall|i: int| b <= i < n ==> is_blank(#[trigger] bytes@[i]),
        decreases b,
    {
        b -= 1;
    }
    proof {
        let s = bytes@;
        lemma_trim_start(s, a as int);
        let t = s.subrange(a as int, n as int);
        assert forall|i: int| b - a <= i < t.len() implies is_blank(#[trigger] t[i]) by {
            assert(t[i] == s[i + a]);
        }
        if b > a {
            assert(t[b - a - 1] == s[b - 1]);
        }
        lemma_trim_end(t, b - a);
        assert(t.subrange(0, b - a) =~= s.subrange(a as int, b as int));
    }
    (a, b)
}

/// Finds where the field that starts at `from` ends: at the first space, or
/// at `to` if there is none before.
fn field_end(bytes: &[u8], from: usize, to: usize) -> (end: usize)
    requires
        from <= to <= bytes@.len(),
    ensures
        from <= end <= to,
        end == from + field_len(bytes@.subrange(from as int, to as int)),
{
    let mut end = from;
    while end < to && bytes[end] != SPACE
        invariant
            from <= end <= to,
            to <= bytes@.len(),
            forall|i: int| from <= i < end ==> #[trigger] bytes@[i] != SPACE,
        decreases to - end,
    {
        end += 1;
    }
    proof {
        let t = bytes@.subrange(from as int, to as int);
        assert forall|i: int| 0 <= i < end - from implies #[trigger] t[i] != SPACE by {
            assert(t[i] == bytes@[i + from]);
        }
        lemma_field_len(t, end - from);
    }
    end
}

/// Reads the number that the bytes from `from` up to `to` write, if they
/// write one that is `max` at most.
fn parse_number(bytes: &[u8], from: usize, to: usize, max: usize) -> (value: Option<usize>)
    requires
        from <= to <= bytes@.len(),
    ensures
        match value {
            Some(x) => number(bytes@.subrange(from as int, to as int), max as int) == Some(x as int),
            None => number(bytes@.subrange(from as int, to as int), max as int) is None,
        },
{
    let ghost field = bytes@.subrange(from as int, to as int);
    let start = if from < to && bytes[from] == PLUS {
        from + 1
    } else {
        from
    };
    let ghost digits = bytes@.subrange(start as int, to as int);
    assert(digits =~= unsigned(field));
    if start == to {
        return None;
    }
    let mut value: usize = 0;
    for i in start..to
        invariant
            from <= start < to <= bytes@.len(),
            digits == bytes@.subrange(start as int, to as int),
            digits == unsigned(bytes@.subrange(from as int, to as int)),
            all_digits(digits.take(i - start)),
            value == decimal(digits.take(i - start)),
            value <= max,
    {
        let b = bytes[i];
        if b < ZERO || b > NINE {
            assert(digits[i - start] == b);
            return None;
        }
        let d = (b - ZERO) as usize;
        proof {
            let shorter = digits.take(i - start);
            let longer = digits.take(i + 1 - start);
            assert(longer.drop_last() =~= shorter);
            assert(longer.last() == b);
            assert(decimal(longer) == decimal(shorter) * 10 + d);
            assert(all_digits(longer)) by {
                assert forall|j: int| 0 <= j < longer.len() implies ZERO <= #[trigger] longer[j]
                    <= NINE by {
                    if j < shorter.len() {
                        assert(shorter[j] == longer[j]);
                    }
                }
            }
            if all_digits(digits) {
                lemma_decimal_grows(digits, i + 1 - start);
            }
        }
        if d > max || value > (max - d) / 10 {
            return None;
        }
        value = value * 10 + d;
    }
    assert(digits.take(to - start) =~= digits);
    Some(value)
}

/// Tells whether the bytes start with the five bytes of `word`.
fn begins(bytes: &[u8], word: [u8; 5]) -> (yes: bool)
    ensures
        yes == starts_with(bytes@, word@),
{
    if bytes.len() < 5 {
        return false;
    }
    for i in 0..5usize
        invariant
            bytes@.len() >= 5,
            forall|j: int| 0 <= j < i ==> bytes@[j] == word@[j],
    {
        if bytes[i] != word[i] {
            assert(bytes@.take(5)[i as int] != word@[i as int]);
            return false;
        }
    }
    assert(bytes@.take(5) =~= word@);
    true
}

/// Tells what a line asks for.
pub fn read_command(input: &str) -> (cmd: Command)
    ensures
        cmd == command(input.spec_bytes()),
{
    let bytes = input.as_bytes();
    let solve: [u8; 5] = [115, 111, 108, 118, 101];
    let reset: [u8; 5] = [114, 101, 115, 101, 116];
    assert(solve@ =~= solve_word());
    assert(reset@ =~= reset_word());
    if begins(bytes, solve) {
        Command::Solve
    } else if begins(bytes, reset) {
        Command::Reset
    } else {
        Command::Cell
    }
}

/// Reads a line as a cell: a row, a column and a value.
pub fn parse_cell_input(input: &str) -> (cell: CellInput)
    ensures
        cell == cell_input(input.spec_bytes()),
{
    let bytes = input.as_bytes();
    let (a, b) = trim_bounds(bytes);
    let ghost t = trimmed(bytes@);
    let end0 = field_end(bytes, a, b);
    if end0 == b {
        return CellInput::TooShort;
    }
    let ghost rest1 = after_field(t);
    assert(bytes@.subrange(a as int, end0 as int) =~= first_field(t));
    assert(bytes@.subrange(end0 + 1, b as int) =~= rest1);
    let end1 = field_end(bytes, end0 + 1, b);
    if end1 == b {
        return CellInput::TooShort;
    }
    let ghost rest2 = after_field(rest1);
    assert(bytes@.subrange(end0 + 1, end1 as int) =~= first_field(rest1));
    assert(bytes@.subrange(end1 + 1, b as int) =~= rest2);
    let end2 = field_end(bytes, end1 + 1, b);
    assert(bytes@.subrange(end1 + 1, end2 as int) =~= first_field(rest2));
    let row = parse_number(bytes, a, end0, usize::MAX);
    let col = parse_number(bytes, end0 + 1, end1, usize::MAX);
    let val = parse_number(bytes, end1 + 1, end2, 255);
    match (row, col, val) {
        (Some(r), Some(c), Some(v)) => CellInput::Cell { r, c, v: v as u8 },
        _ => CellInput::NotNumbers,
    }
}

/// Takes in a line that names a cell and a value, and writes the value into
/// the cell unless the puzzle gave that cell. `puzzle` holds the
/// board as it was given. Whatever else the line holds, the board stays as
/// it is, and the outcome says why.
pub fn process_cell_input(mat: &mut SudokuMatrix, puzzle: &SudokuMatrix, input: &str) -> (done:
    CellOutcome)
    ensures
        done == cell_outcome(puzzle@, cell_input(input.spec_bytes())),
        final(mat)@ == (match done {
            CellOutcome::Written => match cell_input(input.spec_bytes()) {
                CellInput::Cell { r, c, v } if v <= 9 => put(old(mat)@, r as int, c as int, v),
                _ => old(mat)@,
            },
            _ => old(mat)@,
        }),
{
    match parse_cell_input(input) {
        CellInput::TooShort => CellOutcome::TooShort,
        CellInput::NotNumbers => CellOutcome::NotNumbers,
        CellInput::Cell { r, c, v } => {
            if r >= 9 || c >= 9 {
                CellOutcome::OutsideBoard { r, c }
            } else if puzzle.get_value(r, c) != 0 {
                CellOutcome::Protected { r, c }
            } else {
                mat.set_value(r, c, v);
                CellOutcome::Written
            }
        },
    }
}

/// What comes of a line that was read as a cell, on the puzzle as it was
/// given.
pub open spec fn cell_outcome(puzzle: Seq<Seq<u8>>, cell: CellInput) -> CellOutcome {
    match cell {
        CellInput::TooShort => CellOutcome::TooShort,
        CellInput::NotNumbers => CellOutcome::NotNumbers,
        CellInput::Cell { r, c, v } => if r >= 9 || c >= 9 {
            CellOutcome::OutsideBoard { r, c }
        } else if puzzle[r as int][c as int] != 0 {
            CellOutcome::Protected { r, c }
        } else {
            CellOutcome::Written
        },
    }
}

/// Puts the board back to the puzzle as it was given.
pub fn process_reset_command(mat: &mut SudokuMatrix, puzzle: &SudokuMatrix)
    ensures
        final(mat)@ == puzzle@,
{
    *mat = puzzle.clone();
}

} // verus!
