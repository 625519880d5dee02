//! Sudoku grids: validation, randomized backtracking search and puzzle
//! generation.

use crate::random::shuffle;
use rand::rngs::ThreadRng;
use vstd::prelude::*;

mod render;

pub use render::render_sudoku;

verus! {

/// A 9×9 grid; `0` marks an empty cell, `1..=9` a placed digit.
pub type Grid = [[u8; 9]; 9];

/// The value at row `r`, column `c`.
pub open spec fn cell(g: Grid, r: int, c: int) -> u8 {
    g[r][c]
}

/// Row of the `k`-th cell of unit `u`: units `0..9` are the rows, `9..18`
/// the columns and `18..27` the 3×3 boxes.
pub open spec fn unit_row(u: int, k: int) -> int {
    if u < 9 {
        u
    } else if u < 18 {
        k
    } else {
        (u - 18) % 3 * 3 + k % 3
    }
}

/// Column of the `k`-th cell of unit `u` (see `unit_row`).
pub open spec fn unit_col(u: int, k: int) -> int {
    if u < 9 {
        k
    } else if u < 18 {
        u - 9
    } else {
        (u - 18) / 3 * 3 + k / 3
    }
}

/// The value of the `k`-th cell of unit `u`.
pub open spec fn unit_value(g: Grid, u: int, k: int) -> u8 {
    cell(g, unit_row(u, k), unit_col(u, k))
}

/// No placed digit of unit `u` occurs twice in it.
pub open spec fn unit_distinct(g: Grid, u: int) -> bool {
    forall|a: int, b: int|
        0 <= a < 9 && 0 <= b < 9 && a != b && #[trigger] unit_value(g, u, a) != 0
            ==> unit_value(g, u, a) != #[trigger] unit_value(g, u, b)
}

/// Every row, column and box holds each placed digit at most once.
pub open spec fn is_valid(g: Grid) -> bool {
    forall|u: int| 0 <= u < 27 ==> #[trigger] unit_distinct(g, u)
}

proof fn lemma_unit_in_range(u: int, k: int)
    requires
        0 <= u < 27,
        0 <= k < 9,
    ensures
        0 <= unit_row(u, k) < 9,
        0 <= unit_col(u, k) < 9,
{
}

fn unit_cell(grid: &Grid, u: usize, k: usize) -> (v: u8)
    requires
        u < 27,
        k < 9,
    ensures
        v == unit_value(*grid, u as int, k as int),
{
    proof {
        lemma_unit_in_range(u as int, k as int);
    }
    if u < 9 {
        grid[u][k]
    } else if u < 18 {
        grid[k][u - 9]
    } else {
        grid[(u - 18) % 3 * 3 + k % 3][(u - 18) / 3 * 3 + k / 3]
    }
}

fn unit_is_distinct(grid: &Grid, u: usize) -> (r: bool)
    requires
        u < 27,
    ensures
        r == unit_distinct(*grid, u as int),
{
    let mut a: usize = 0;
    while a < 9
        invariant
            a <= 9,
            u < 27,
            forall|x: int, y: int|
                0 <= x < a && 0 <= y < 9 && x != y && #[trigger] unit_value(*grid, u as int, x) != 0
                    ==> unit_value(*grid, u as int, x) != #[trigger] unit_value(*grid, u as int, y),
        decreases 9 - a,
    {
        let va = unit_cell(grid, u, a);
        let mut b: usize = 0;
        while b < 9
            invariant
                a < 9,
                b <= 9,
                u < 27,
                va == unit_value(*grid, u as int, a as int),
                forall|y: int|
                    0 <= y < b && y != a && va != 0 ==> va != #[trigger] unit_value(
                        *grid,
                        u as int,
                        y,
                    ),
            decreases 9 - b,
        {
            if b != a && va != 0 && va == unit_cell(grid, u, b) {
                return false;
            }
            b += 1;
        }
        a += 1;
    }
    true
}

/// Whether no row, column or box repeats a placed digit; empty cells never
/// conflict, so partially filled grids can be valid as well.
pub fn isvalid_sudoku(grid: Grid) -> (r: bool)
    ensures
        r == is_valid(grid),
{
    let mut i: usize = 0;
    while i < 9
        invariant
            i <= 9,
            forall|u: int|
                (0 <= u < i || 9 <= u < 9 + i || 18 <= u < 18 + i) ==> #[trigger] unit_distinct(
                    grid,
                    u,
                ),
        decreases 9 - i,
    {
        if !unit_is_distinct(&grid, i) || !unit_is_distinct(&grid, i + 9) || !unit_is_distinct(
            &grid,
            i + 18,
        ) {
            return false;
        }
        i += 1;
    }
    true
}

/// Position of cell `(r, c)` in the solver's column-major visiting order;
/// `pos(9, c)` is the same position as `pos(0, c + 1)`.
pub open spec fn pos(r: int, c: int) -> int {
    c * 9 + r
}

/// `h` keeps every placed digit of `g` and every cell before search
/// position `p`, and holds a digit `1..=9` in each other cell.
pub open spec fn fills(g: Grid, h: Grid, p: int) -> bool {
    forall|r: int, c: int|
        0 <= r < 9 && 0 <= c < 9 ==> if cell(g, r, c) != 0 || pos(r, c) < p {
            #[trigger] cell(h, r, c) == cell(g, r, c)
        } else {
            1 <= cell(h, r, c) <= 9
        }
}

/// `h` is a valid grid that the solver may reach from `g` at position `p`.
pub open spec fn is_completion(g: Grid, h: Grid, p: int) -> bool {
    fills(g, h, p) && is_valid(h)
}

/// Some valid grid completes `g` from position `p` on.
pub open spec fn completable(g: Grid, p: int) -> bool {
    exists|h: Grid| is_completion(g, h, p)
}

proof fn lemma_grid_ext(g1: Grid, g2: Grid)
    requires
        forall|r: int, c: int| 0 <= r < 9 && 0 <= c < 9 ==> cell(g1, r, c) == cell(g2, r, c),
    ensures
        g1 == g2,
{
    assert forall|r: int| 0 <= r < 9 implies g1[r] == g2[r] by {
        assert forall|c: int| 0 <= c < 9 implies g1[r][c] == g2[r][c] by {
            assert(cell(g1, r, c) == cell(g2, r, c));
        }
        assert(g1[r] =~= g2[r]);
    }
    assert(g1 =~= g2);
}

/// A grid that some valid grid extends is valid itself.
proof fn lemma_fills_keeps_validity(g: Grid, h: Grid, p: int)
    requires
        is_completion(g, h, p),
    ensures
        is_valid(g),
{
    assert forall|u: int| 0 <= u < 27 implies #[trigger] unit_distinct(g, u) by {
        assert forall|a: int, b: int|
            0 <= a < 9 && 0 <= b < 9 && a != b && #[trigger] unit_value(g, u, a) != 0 implies unit_value(
            g,
            u,
            a,
        ) != #[trigger] unit_value(g, u, b) by {
            lemma_unit_in_range(u, a);
            lemma_unit_in_range(u, b);
            assert(unit_distinct(h, u));
            assert(cell(h, unit_row(u, a), unit_col(u, a)) == cell(g, unit_row(u, a), unit_col(u, a)));
            if cell(g, unit_row(u, b), unit_col(u, b)) != 0 {
                assert(cell(h, unit_row(u, b), unit_col(u, b)) == cell(g, unit_row(u, b), unit_col(u, b)));
            }
            assert(unit_value(h, u, a) != unit_value(h, u, b));
        }
    }
}

/// Placing `v` in the empty cell at position `p` turns the completions of
/// `g` from `p` that hold `v` there into the completions of `g2` from `p + 1`.
proof fn lemma_place(g: Grid, g2: Grid, r0: int, c0: int, v: u8, h: Grid)
    requires
        0 <= r0 < 9,
        0 <= c0 < 9,
        cell(g, r0, c0) == 0,
        1 <= v <= 9,
        cell(g2, r0, c0) == v,
        forall|r: int, c: int|
            0 <= r < 9 && 0 <= c < 9 && (r != r0 || c != c0) ==> cell(g2, r, c) == cell(g, r, c),
    ensures
        (fills(g, h, pos(r0, c0)) && cell(h, r0, c0) == v) <==> fills(g2, h, pos(r0, c0) + 1),
{
    if fills(g2, h, pos(r0, c0) + 1) {
        assert(cell(h, r0, c0) == v);
        assert forall|r: int, c: int| 0 <= r < 9 && 0 <= c < 9 implies if cell(g, r, c) != 0 || pos(r, c) < pos(r0, c0) {
            #[trigger] cell(h, r, c) == cell(g, r, c)
        } else {
            1 <= cell(h, r, c) <= 9
        } by {
            assert(cell(h, r, c) == cell(h, r, c));
        }
    }
    if fills(g, h, pos(r0, c0)) && cell(h, r0, c0) == v {
        assert forall|r: int, c: int| 0 <= r < 9 && 0 <= c < 9 implies if cell(g2, r, c) != 0 || pos(r, c) < pos(r0, c0) + 1 {
            #[trigger] cell(h, r, c) == cell(g2, r, c)
        } else {
            1 <= cell(h, r, c) <= 9
        } by {
            assert(cell(h, r, c) == cell(h, r, c));
        }
    }
}

/// A placed digit at position `p` makes no difference between searching
/// from `p` and from `p + 1`.
proof fn lemma_skip(g: Grid, r0: int, c0: int, h: Grid)
    requires
        0 <= r0 < 9,
        0 <= c0 < 9,
        cell(g, r0, c0) != 0,
    ensures
        fills(g, h, pos(r0, c0)) <==> fills(g, h, pos(r0, c0) + 1),
{
    if fills(g, h, pos(r0, c0)) {
        assert forall|r: int, c: int| 0 <= r < 9 && 0 <= c < 9 implies if cell(g, r, c) != 0 || pos(r, c) < pos(r0, c0) + 1 {
            #[trigger] cell(h, r, c) == cell(g, r, c)
        } else {
            1 <= cell(h, r, c) <= 9
        } by {
            assert(cell(h, r, c) == cell(h, r, c));
        }
    }
}

/// From the last position on, the only candidate is the grid itself.
proof fn lemma_end(g: Grid)
    ensures
        completable(g, 81) == is_valid(g),
{
    if completable(g, 81) {
        let h = choose|h: Grid| is_completion(g, h, 81);
        assert forall|r: int, c: int| 0 <= r < 9 && 0 <= c < 9 implies cell(h, r, c) == cell(g, r, c) by {
            assert(cell(h, r, c) == cell(h, r, c));
        }
        lemma_grid_ext(h, g);
    }
    if is_valid(g) {
        assert(is_completion(g, g, 81));
    }
}

/// Writes `v` into cell `(r, c)` and leaves every other cell as it was.
fn set_cell(grid: &mut Grid, r: usize, c: usize, v: u8)
    requires
        r < 9,
        c < 9,
    ensures
        cell(*final(grid), r as int, c as int) == v,
        forall|r2: int, c2: int|
            0 <= r2 < 9 && 0 <= c2 < 9 && (r2 != r || c2 != c) ==> #[trigger] cell(
                *final(grid),
                r2,
                c2,
            ) == cell(*old(grid), r2, c2),
{
    let mut row = grid[r];
    row[c] = v;
    grid[r] = row;
    proof {
        assert(grid[r as int]@ == old(grid)[r as int]@.update(c as int, v));
        assert(grid@ == old(grid)@.update(r as int, row));
    }
}

/// The search state: the grid being filled, a count of search steps and the
/// source of the random candidate order.
#[derive(Debug)]
pub struct State {
    pub steps: u32,
    pub cells: Grid,
    pub rng: ThreadRng,
}

/// The candidate digits in increasing order.
pub open spec fn digits() -> Seq<u8> {
    Seq::new(9, |k: int| (k + 1) as u8)
}

/// Randomized backtracking search from cell `(i, j)` in column-major order
/// (`(9, j)` stands for `(0, j + 1)`).
///
/// Each empty cell at or after that position gets the digits `1..=9` in a
/// fresh random order; a digit stays only while the whole grid is valid.
/// Returns `true` exactly when some valid grid completes the cells from that
/// position on, and then leaves one such grid in `state.cells`; on `false`
/// the grid is left exactly as it was. `state.steps` counts the calls,
/// stopping at `u32::MAX`.
pub fn solve(i: usize, j: usize, state: &mut State) -> (r: bool)
    requires
        i <= 9,
        j < 9,
    ensures
        r == completable(old(state).cells, pos(i as int, j as int)),
        r ==> is_completion(old(state).cells, final(state).cells, pos(i as int, j as int)),
        !r ==> final(state).cells == old(state).cells,
        final(state).steps >= old(state).steps,
    decreases 81 - pos(i as int, j as int),
{
    if state.steps < u32::MAX {
        state.steps = state.steps + 1;
    }
    let mut ci: usize = i;
    let mut cj: usize = j;
    if ci == 9 {
        cj = cj + 1;
        if cj == 9 {
            let ok = isvalid_sudoku(state.cells);
            proof {
                lemma_end(state.cells);
                if ok {
                    assert(is_completion(state.cells, state.cells, 81));
                }
            }
            return ok;
        }
        ci = 0;
    }
    let ghost g = state.cells;
    let ghost p = pos(ci as int, cj as int);
    assert(p == pos(i as int, j as int));
    if state.cells[ci][cj] != 0 {
        let r = solve(ci + 1, cj, state);
        proof {
            if completable(g, p) {
                let h = choose|h: Grid| is_completion(g, h, p);
                lemma_skip(g, ci as int, cj as int, h);
                assert(is_completion(g, h, p + 1));
            }
            if completable(g, p + 1) {
                let h = choose|h: Grid| #[trigger] is_completion(g, h, p + 1);
                lemma_skip(g, ci as int, cj as int, h);
                assert(is_completion(g, h, p));
            }
        }
        return r;
    }
    let mut values: Vec<u8> = vec![1, 2, 3, 4, 5, 6, 7, 8, 9];
    assert(values@ =~= digits());
    shuffle(&mut values, &mut state.rng);
    proof {
        vstd::seq_lib::to_multiset_len(values@);
        vstd::seq_lib::to_multiset_len(digits());
    }
    let mut k: usize = 0;
    while k < 9
        invariant
            k <= 9,
            ci < 9,
            cj < 9,
            p == pos(ci as int, cj as int),
            p == pos(i as int, j as int),
            cell(g, ci as int, cj as int) == 0,
            values@.len() == 9,
            values@.to_multiset() == digits().to_multiset(),
            state.steps >= old(state).steps,
            old(state).cells == g,
            forall|r: int, c: int|
                0 <= r < 9 && 0 <= c < 9 && (r != ci || c != cj) ==> #[trigger] cell(
                    state.cells,
                    r,
                    c,
                ) == cell(g, r, c),
            forall|h: Grid| #[trigger]
                is_completion(g, h, p) ==> !values@.subrange(0, k as int).contains(
                    cell(h, ci as int, cj as int),
                ),
        decreases 9 - k,
    {
        let value = values[k];
        proof {
            assert(values@.contains(value)) by {
                assert(values@[k as int] == value);
            }
            vstd::seq_lib::to_multiset_contains(values@, value);
            vstd::seq_lib::to_multiset_contains(digits(), value);
        }
        set_cell(&mut state.cells, ci, cj, value);
        let ghost g2 = state.cells;
        if isvalid_sudoku(state.cells) && solve(ci + 1, cj, state) {
            proof {
                let h = state.cells;
                lemma_place(g, g2, ci as int, cj as int, value, h);
                assert(is_completion(g, h, p));
            }
            return true;
        }
        proof {
            assert forall|h: Grid| #[trigger] is_completion(g, h, p) implies !values@.subrange(
                0,
                k + 1,
            ).contains(cell(h, ci as int, cj as int)) by {
                lemma_place(g, g2, ci as int, cj as int, value, h);
                if cell(h, ci as int, cj as int) == value {
                    assert(is_completion(g2, h, p + 1));
                    lemma_fills_keeps_validity(g2, h, p + 1);
                }
                assert(values@.subrange(0, k + 1) =~= values@.subrange(0, k as int).push(value));
            }
        }
        k += 1;
    }
    set_cell(&mut state.cells, ci, cj, 0);
    proof {
        lemma_grid_ext(state.cells, g);
        assert(values@.subrange(0, 9) =~= values@);
        if completable(g, p) {
            let h = choose|h: Grid| is_completion(g, h, p);
            let d = cell(h, ci as int, cj as int);
            assert(digits().contains(d)) by {
                assert(digits()[d - 1] == d);
            }
            vstd::seq_lib::to_multiset_contains(values@, d);
            vstd::seq_lib::to_multiset_contains(digits(), d);
            assert(values@.contains(d));
        }
    }
    false
}

/// A grid with every cell empty.
pub open spec fn is_empty_grid(g: Grid) -> bool {
    forall|r: int, c: int| 0 <= r < 9 && 0 <= c < 9 ==> #[trigger] cell(g, r, c) == 0
}

/// A fixed complete grid.
spec fn sample_solution() -> Grid {
    [
        [3, 1, 6, 5, 7, 8, 4, 9, 2],
        [5, 2, 9, 1, 3, 4, 7, 6, 8],
        [4, 8, 7, 6, 2, 9, 5, 3, 1],
        [2, 6, 3, 4, 1, 5, 9, 8, 7],
        [9, 7, 4, 8, 6, 3, 1, 2, 5],
        [8, 5, 1, 7, 9, 2, 6, 4, 3],
        [1, 3, 8, 9, 4, 7, 2, 5, 6],
        [6, 9, 2, 3, 5, 1, 8, 7, 4],
        [7, 4, 5, 2, 8, 6, 3, 1, 9],
    ]
}

/// Each row, column and box of the fixed grid holds distinct digits.
proof fn lemma_sample_unit(u: int)
    requires
        0 <= u < 27,
    ensures
        unit_distinct(sample_solution(), u),
{
}

/// Every empty grid can be solved: some valid grid fills all of its cells,
/// so `solve(0, 0, ..)` on an empty grid returns `true` whatever order the
/// random source gives to the candidates.
pub proof fn empty_grid_is_solvable(g: Grid)
    requires
        is_empty_grid(g),
    ensures
        completable(g, pos(0, 0)),
{
    let h = sample_solution();
    assert forall|u: int| 0 <= u < 27 implies #[trigger] unit_distinct(h, u) by {
        lemma_sample_unit(u);
    }
    assert(fills(g, h, 0));
    assert(is_completion(g, h, 0));
}

/// A grid that the solver completes from the first cell of an empty grid is
/// valid, and none of its cells is empty.
pub proof fn solved_empty_grid_is_full_and_valid(g: Grid, h: Grid)
    requires
        is_empty_grid(g),
        is_completion(g, h, pos(0, 0)),
    ensures
        is_valid(h),
        forall|r: int, c: int| 0 <= r < 9 && 0 <= c < 9 ==> #[trigger] cell(h, r, c) != 0,
{
    assert forall|r: int, c: int| 0 <= r < 9 && 0 <= c < 9 implies #[trigger] cell(h, r, c) != 0 by {
        assert(cell(g, r, c) == 0);
    }
}

/// The cell at row-major index `q` (`0 <= q < 81`).
pub open spec fn flat_cell(g: Grid, q: int) -> u8 {
    cell(g, q / 9, q % 9)
}

/// Row-major indices of the empty cells.
pub open spec fn blank_cells(g: Grid) -> Set<int> {
    Set::new(|q: int| 0 <= q < 81 && flat_cell(g, q) == 0)
}

/// Row-major indices of the filled cells.
pub open spec fn filled_cells(g: Grid) -> Set<int> {
    Set::new(|q: int| 0 <= q < 81 && flat_cell(g, q) != 0)
}

/// The indices `0..n` in increasing order.
spec fn index_seq(n: int) -> Seq<u8> {
    Seq::new(n as nat, |k: int| k as u8)
}

/// Builds a puzzle: solves an empty grid with a random candidate order, then
/// empties `num_to_skip` randomly chosen cells (all of them when it exceeds
/// 81). The result is a part of a complete valid grid.
pub fn generate_sudoku(num_to_skip: usize) -> (r: Grid)
    ensures
        completable(r, pos(0, 0)),
        is_valid(r),
        blank_cells(r).len() == if num_to_skip < 81 {
            num_to_skip as int
        } else {
            81
        },
        filled_cells(r).len() == 81 - blank_cells(r).len(),
{
    let grid: Grid = [[0; 9]; 9];
    let mut state = State { steps: 0, cells: grid, rng: rand::thread_rng() };
    proof {
        assert(is_empty_grid(grid));
        empty_grid_is_solvable(grid);
    }
    let _solved = solve(0, 0, &mut state);
    let ghost h = state.cells;
    proof {
        solved_empty_grid_is_full_and_valid(grid, h);
    }
    let mut positions: Vec<u8> = Vec::new();
    let mut index: u8 = 0;
    while index < 81
        invariant
            index <= 81,
            positions@ == index_seq(index as int),
        decreases 81 - index,
    {
        positions.push(index);
        index += 1;
        assert(positions@ =~= index_seq(index as int));
    }
    let mut rng = rand::thread_rng();
    shuffle(&mut positions, &mut rng);
    let ghost all = index_seq(81);
    proof {
        vstd::seq_lib::to_multiset_len(positions@);
        vstd::seq_lib::to_multiset_len(all);
        assert forall|x: u8| #[trigger] positions@.contains(x) implies x < 81 && all.contains(x) by {
            vstd::seq_lib::to_multiset_contains(positions@, x);
            vstd::seq_lib::to_multiset_contains(all, x);
        }
        assert(all.no_duplicates());
        all.lemma_multiset_has_no_duplicates();
        assert forall|x: u8| positions@.to_multiset().contains(x) implies positions@.to_multiset().count(
            x,
        ) == 1 by {
            assert(all.to_multiset().contains(x));
        }
        positions@.lemma_multiset_has_no_duplicates_conv();
    }
    let mut k: usize = 0;
    while k < num_to_skip && k < positions.len()
        invariant
            k <= positions.len() == 81,
            k <= num_to_skip,
            positions@.no_duplicates(),
            forall|x: u8| #[trigger] positions@.contains(x) ==> x < 81,
            is_completion(grid, h, 0),
            forall|r: int, c: int| 0 <= r < 9 && 0 <= c < 9 ==> #[trigger] cell(h, r, c) != 0,
            forall|r: int, c: int|
                0 <= r < 9 && 0 <= c < 9 ==> #[trigger] cell(state.cells, r, c) == if positions@.subrange(
                    0,
                    k as int,
                ).contains((r * 9 + c) as u8) {
                    0
                } else {
                    cell(h, r, c)
                },
        decreases 81 - k,
    {
        let index = positions[k];
        proof {
            assert(positions@.contains(index));
        }
        set_cell(&mut state.cells, (index / 9) as usize, (index % 9) as usize, 0);
        proof {
            assert(positions@.subrange(0, k + 1) =~= positions@.subrange(0, k as int).push(index));
            assert forall|r: int, c: int| 0 <= r < 9 && 0 <= c < 9 implies #[trigger] cell(
                state.cells,
                r,
                c,
            ) == if positions@.subrange(0, k + 1).contains((r * 9 + c) as u8) {
                0
            } else {
                cell(h, r, c)
            } by {
                let q = (r * 9 + c) as u8;
                let before = positions@.subrange(0, k as int);
                let after = positions@.subrange(0, k + 1);
                assert(after[k as int] == index);
                if q == index {
                    assert(r == index / 9 && c == index % 9);
                    assert(after.contains(q));
                } else {
                    assert(r != index / 9 || c != index % 9);
                    if after.contains(q) {
                        let a = choose|a: int| 0 <= a < after.len() && after[a] == q;
                        assert(before[a] == q);
                    }
                    if before.contains(q) {
                        let a = choose|a: int| 0 <= a < before.len() && before[a] == q;
                        assert(after[a] == q);
                    }
                }
            }
        }
        k += 1;
    }
    let r = state.cells;
    proof {
        let taken = positions@.subrange(0, k as int);
        let ints = taken.map_values(|x: u8| x as int);
        assert forall|a: int, b: int| 0 <= a < ints.len() && 0 <= b < ints.len() && a != b implies ints[a] != ints[b] by {
            assert(taken[a] == positions@[a]);
            assert(taken[b] == positions@[b]);
        }
        assert(ints.no_duplicates());
        ints.unique_seq_to_set();
        assert forall|q: int| #[trigger] blank_cells(r).contains(q) <==> ints.to_set().contains(q) by {
            if 0 <= q < 81 {
                assert(cell(r, q / 9, q % 9) == cell(state.cells, q / 9, q % 9));
                assert((q / 9) * 9 + q % 9 == q);
                if taken.contains(q as u8) {
                    let a = choose|a: int| 0 <= a < taken.len() && taken[a] == q as u8;
                    assert(ints[a] == q);
                }
            }
            if ints.to_set().contains(q) {
                let a = choose|a: int| 0 <= a < ints.len() && ints[a] == q;
                assert(taken.contains(taken[a]));
                assert(positions@.contains(taken[a]));
            }
        }
        assert(blank_cells(r) =~= ints.to_set());
        assert(ints.len() == k);
        assert(blank_cells(r).len() == k);
        vstd::set_lib::lemma_int_range(0, 81);
        let range = vstd::set_lib::set_int_range(0, 81);
        assert(filled_cells(r) =~= range.difference(blank_cells(r)));
        assert(range.intersect(blank_cells(r)) =~= blank_cells(r));
        vstd::set_lib::lemma_set_difference_len(range, blank_cells(r));
        assert forall|q: int| 0 <= q < 81 && #[trigger] flat_cell(r, q) != 0 implies flat_cell(
            r,
            q,
        ) == flat_cell(h, q) by {
            assert(cell(r, q / 9, q % 9) == cell(state.cells, q / 9, q % 9));
        }
        assert(fills(r, h, 0)) by {
            assert forall|rr: int, cc: int| 0 <= rr < 9 && 0 <= cc < 9 implies if cell(r, rr, cc) != 0 || pos(rr, cc) < 0 {
                #[trigger] cell(h, rr, cc) == cell(r, rr, cc)
            } else {
                1 <= cell(h, rr, cc) <= 9
            } by {
                assert(cell(r, rr, cc) == cell(state.cells, rr, cc));
                assert(cell(grid, rr, cc) == 0);
            }
        }
        assert(is_completion(r, h, 0));
        lemma_fills_keeps_validity(r, h, 0);
    }
    r
}

/// A grid with no placed digit is valid.
pub proof fn empty_grid_is_valid(g: Grid)
    requires
        is_empty_grid(g),
    ensures
        is_valid(g),
{
    assert forall|u: int| 0 <= u < 27 implies #[trigger] unit_distinct(g, u) by {
        assert forall|a: int, b: int|
            0 <= a < 9 && 0 <= b < 9 && a != b && #[trigger] unit_value(g, u, a) != 0 implies unit_value(
            g,
            u,
            a,
        ) != #[trigger] unit_value(g, u, b) by {
            lemma_unit_in_range(u, a);
        }
    }
}

/// A digit placed twice in one row, column or box makes the grid invalid.
pub proof fn repeated_digit_is_invalid(g: Grid, u: int, a: int, b: int)
    requires
        0 <= u < 27,
        0 <= a < 9,
        0 <= b < 9,
        a != b,
        unit_value(g, u, a) != 0,
        unit_value(g, u, a) == unit_value(g, u, b),
    ensures
        !is_valid(g),
{
    assert(!unit_distinct(g, u));
}

} // verus!
