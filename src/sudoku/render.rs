//! Text rendering of a grid, with a border around each 3×3 box.

use super::{cell, Grid};
use vstd::prelude::*;

verus! {

/// The character of decimal digit `d` (`0 <= d < 10`).
pub open spec fn digit_char(d: int) -> char {
    ((d + 48) as u8) as char
}

/// The decimal text of `v`, without leading zeros.
pub open spec fn number_text(v: u8) -> Seq<char> {
    let n = v as int;
    if n < 10 {
        seq![digit_char(n)]
    } else if n < 100 {
        seq![digit_char(n / 10), digit_char(n % 10)]
    } else {
        seq![digit_char(n / 100), digit_char(n / 10 % 10), digit_char(n % 10)]
    }
}

/// The text of a cell: a space when it is empty, else its value.
pub open spec fn cell_text(v: u8) -> Seq<char> {
    if v == 0 {
        seq![' ']
    } else {
        number_text(v)
    }
}

/// The three cells of box column `k` in row `r`, separated by spaces.
pub open spec fn group_text(g: Grid, r: int, k: int) -> Seq<char> {
    cell_text(cell(g, r, 3 * k)) + seq![' '] + cell_text(cell(g, r, 3 * k + 1)) + seq![' ']
        + cell_text(cell(g, r, 3 * k + 2))
}

/// Row `r`: `| a b c | d e f | g h i |`.
pub open spec fn row_text(g: Grid, r: int) -> Seq<char> {
    seq!['|', ' '] + group_text(g, r, 0) + seq![' ', '|', ' '] + group_text(g, r, 1) + seq![
        ' ',
        '|',
        ' ',
    ] + group_text(g, r, 2) + seq![' ', '|']
}

/// The three rows of band `b`, one per line.
pub open spec fn band_text(g: Grid, b: int) -> Seq<char> {
    row_text(g, 3 * b) + seq!['\n'] + row_text(g, 3 * b + 1) + seq!['\n'] + row_text(g, 3 * b + 2)
}

/// The line between bands, with a line break on each side.
pub open spec fn border_text() -> Seq<char> {
    seq!['\n', '+', '-', '-', '-', '-', '-', '-', '-', '+', '-', '-', '-', '-', '-', '-', '-', '+', '-', '-', '-', '-', '-', '-', '-', '+', '\n']
}

/// The whole grid: the three bands, each between two borders.
pub open spec fn grid_text(g: Grid) -> Seq<char> {
    border_text() + band_text(g, 0) + border_text() + band_text(g, 1) + border_text() + band_text(
        g,
        2,
    ) + border_text()
}

fn digit_str(d: u8) -> (s: &'static str)
    requires
        d < 10,
    ensures
        s@ == seq![digit_char(d as int)],
{
    proof {
        reveal_strlit("0");
        reveal_strlit("1");
        reveal_strlit("2");
        reveal_strlit("3");
        reveal_strlit("4");
        reveal_strlit("5");
        reveal_strlit("6");
        reveal_strlit("7");
        reveal_strlit("8");
        reveal_strlit("9");
    }
    match d {
        0 => "0",
        1 => "1",
        2 => "2",
        3 => "3",
        4 => "4",
        5 => "5",
        6 => "6",
        7 => "7",
        8 => "8",
        _ => "9",
    }
}

fn push_cell(out: &mut String, v: u8)
    ensures
        final(out)@ == old(out)@ + cell_text(v),
{
    if v == 0 {
        proof {
            reveal_strlit(" ");
        }
        out.append(" ");
    } else {
        if v >= 100 {
            out.append(digit_str(v / 100));
        }
        if v >= 10 {
            out.append(digit_str(v / 10 % 10));
        }
        out.append(digit_str(v % 10));
        assert(final(out)@ =~= old(out)@ + cell_text(v));
    }
}

fn push_group(out: &mut String, grid: &Grid, r: usize, k: usize)
    requires
        r < 9,
        k < 3,
    ensures
        final(out)@ == old(out)@ + group_text(*grid, r as int, k as int),
{
    proof {
        reveal_strlit(" ");
    }
    push_cell(out, grid[r][3 * k]);
    out.append(" ");
    push_cell(out, grid[r][3 * k + 1]);
    out.append(" ");
    push_cell(out, grid[r][3 * k + 2]);
    assert(final(out)@ =~= old(out)@ + group_text(*grid, r as int, k as int));
}

#[verifier::rlimit(40)]
fn push_row(out: &mut String, grid: &Grid, r: usize)
    requires
        r < 9,
    ensures
        final(out)@ == old(out)@ + row_text(*grid, r as int),
{
    proof {
        reveal_strlit("| ");
        reveal_strlit(" | ");
        reveal_strlit(" |");
    }
    out.append("| ");
    push_group(out, grid, r, 0);
    out.append(" | ");
    push_group(out, grid, r, 1);
    out.append(" | ");
    push_group(out, grid, r, 2);
    out.append(" |");
    assert(final(out)@ =~= old(out)@ + row_text(*grid, r as int));
}

fn push_band(out: &mut String, grid: &Grid, b: usize)
    requires
        b < 3,
    ensures
        final(out)@ == old(out)@ + band_text(*grid, b as int),
{
    proof {
        reveal_strlit("\n");
    }
    push_row(out, grid, 3 * b);
    out.append("\n");
    push_row(out, grid, 3 * b + 1);
    out.append("\n");
    push_row(out, grid, 3 * b + 2);
    assert(final(out)@ =~= old(out)@ + band_text(*grid, b as int));
}

/// Renders the grid as text: rows of `| a b c | d e f | g h i |`, a
/// `+-------+-------+-------+` line before, between and after each group of
/// three rows, and a space for each empty cell.
pub fn render_sudoku(grid: Grid) -> (s: String)
    ensures
        s@ == grid_text(grid),
{
    let border = "\n+-------+-------+-------+\n";
    proof {
        reveal_strlit("\n+-------+-------+-------+\n");
        assert(border@ =~= border_text());
    }
    let mut out = String::new();
    out.append(border);
    push_band(&mut out, &grid, 0);
    out.append(border);
    push_band(&mut out, &grid, 1);
    out.append(border);
    push_band(&mut out, &grid, 2);
    out.append(border);
    assert(out@ =~= grid_text(grid));
    out
}

} // verus!
