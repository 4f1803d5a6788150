//! Position utilities: pure functions mapping a character offset in source
//! text to a 0-indexed line number, a 0-indexed column number, and an indent
//! level. Offsets count Unicode scalar values, not bytes or display width.

use vstd::prelude::*;
use vstd::string::StrSliceExecFns;

verus! {

/// Clamp a mathematical integer into the range of `u32`.
pub open spec fn sat_u32(n: int) -> u32 {
    if n < 0 {
        0u32
    } else if n > u32::MAX {
        u32::MAX
    } else {
        n as u32
    }
}

/// Number of newline characters in `s` strictly before position `pos`
/// (the 0-indexed line number of the character at `pos`).
pub open spec fn line_number_at(s: Seq<char>, pos: int) -> int
    decreases pos,
{
    if pos <= 0 {
        0
    } else {
        line_number_at(s, pos - 1) + if s[pos - 1] == '\n' {
            1int
        } else {
            0int
        }
    }
}

/// Number of characters between the last newline before `pos` and `pos`
/// (the 0-indexed column number of the character at `pos`).
pub open spec fn column_number_at(s: Seq<char>, pos: int) -> int
    decreases pos,
{
    if pos <= 0 {
        0
    } else if s[pos - 1] == '\n' {
        0
    } else {
        column_number_at(s, pos - 1) + 1
    }
}

/// An indent level is the column divided by the indent width, truncating.
/// A zero indent width yields level zero rather than a division failure;
/// columns beyond the range of `u32` are clamped before dividing.
pub open spec fn indent_level_of(column: int, indent_width: int) -> int {
    if indent_width <= 0 {
        0
    } else {
        sat_u32(column) as int / indent_width
    }
}

proof fn lemma_column_number_bounded(s: Seq<char>, pos: int)
    requires
        pos >= 0,
    ensures
        0 <= column_number_at(s, pos) <= pos,
    decreases pos,
{
    if pos > 0 {
        lemma_column_number_bounded(s, pos - 1);
    }
}

proof fn lemma_line_number_bounded(s: Seq<char>, pos: int)
    requires
        pos >= 0,
    ensures
        0 <= line_number_at(s, pos) <= pos,
    decreases pos,
{
    if pos > 0 {
        lemma_line_number_bounded(s, pos - 1);
    }
}

/// 0-indexed line number of the character offset `start` in `text`.
pub fn get_line_number(text: &str, start: usize) -> (line: usize)
    requires
        start <= text@.len(),
    ensures
        line == line_number_at(text@, start as int),
{
    let mut i: usize = 0;
    let mut line: usize = 0;
    while i < start
        invariant
            i <= start <= text@.len(),
            line == line_number_at(text@, i as int),
            line <= i,
        decreases start - i,
    {
        if text.get_char(i) == '\n' {
            line = line + 1;
        }
        i = i + 1;
    }
    line
}

/// 0-indexed column number of the character offset `start` in `text`.
pub fn get_column_number(text: &str, start: usize) -> (column: usize)
    requires
        start <= text@.len(),
    ensures
        column == column_number_at(text@, start as int),
{
    let mut i: usize = 0;
    let mut column: usize = 0;
    while i < start
        invariant
            i <= start <= text@.len(),
            column == column_number_at(text@, i as int),
            column <= i,
        decreases start - i,
    {
        if text.get_char(i) == '\n' {
            column = 0;
        } else {
            column = column + 1;
        }
        i = i + 1;
    }
    column
}

/// Clamp a `usize` into a `u32`.
pub fn saturate_to_u32(n: usize) -> (r: u32)
    ensures
        r == sat_u32(n as int),
{
    if n > u32::MAX as usize {
        u32::MAX
    } else {
        n as u32
    }
}

/// 0-indexed line number as a `u32`, clamped on overflow.
pub fn calculate_line_number(text: &str, start: usize) -> (line: u32)
    requires
        start <= text@.len(),
    ensures
        line == sat_u32(line_number_at(text@, start as int)),
{
    proof {
        lemma_line_number_bounded(text@, start as int);
    }
    saturate_to_u32(get_line_number(text, start))
}

/// 0-indexed column number as a `u32`, clamped on overflow.
pub fn calculate_column_number(text: &str, start: usize) -> (column: u32)
    requires
        start <= text@.len(),
    ensures
        column == sat_u32(column_number_at(text@, start as int)),
{
    proof {
        lemma_column_number_bounded(text@, start as int);
    }
    saturate_to_u32(get_column_number(text, start))
}

/// Indent level of a column for a configured indent width; never panics,
/// even for a zero width.
pub fn calculate_indent_level(column: usize, indent_width: u8) -> (level: u32)
    ensures
        level == indent_level_of(column as int, indent_width as int),
{
    if indent_width == 0 {
        0
    } else {
        saturate_to_u32(column) / (indent_width as u32)
    }
}

/// Indent level of a column for a configured indent width; never panics,
/// even for a zero width.
pub fn get_indent_level(column: usize, indent_width: u8) -> (level: u32)
    ensures
        level == indent_level_of(column as int, indent_width as int),
{
    calculate_indent_level(column, indent_width)
}

} // verus!
