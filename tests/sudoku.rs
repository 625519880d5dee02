use rust_examples::sudoku::{generate_sudoku, isvalid_sudoku, solve, Grid, State};

fn count_empty(grid: &Grid) -> usize {
    let mut num_empty = 0;
    for row in grid.iter() {
        for &elem in row.iter() {
            if elem == 0 {
                num_empty += 1;
            }
        }
    }
    num_empty
}

fn new_state(grid: Grid) -> State {
    State {
        steps: 0,
        cells: grid,
        rng: rand::thread_rng(),
    }
}

const SOLUTION: Grid = [
    [3, 1, 6, 5, 7, 8, 4, 9, 2],
    [5, 2, 9, 1, 3, 4, 7, 6, 8],
    [4, 8, 7, 6, 2, 9, 5, 3, 1],
    [2, 6, 3, 4, 1, 5, 9, 8, 7],
    [9, 7, 4, 8, 6, 3, 1, 2, 5],
    [8, 5, 1, 7, 9, 2, 6, 4, 3],
    [1, 3, 8, 9, 4, 7, 2, 5, 6],
    [6, 9, 2, 3, 5, 1, 8, 7, 4],
    [7, 4, 5, 2, 8, 6, 3, 1, 9],
];

#[test]
fn test_generate_sudoku() {
    // Create partial grid with 30 filled cells.
    let num_to_skip = 51;
    let grid = generate_sudoku(num_to_skip);
    assert!(isvalid_sudoku(grid));

    // Check if there are exactly 30 filled cells.
    assert_eq!(count_empty(&grid), num_to_skip);
}

#[test]
fn test_partial_sudoku() {
    let grid: Grid = [
        [3, 0, 6, 5, 0, 8, 4, 0, 0],
        [5, 2, 0, 0, 0, 0, 0, 0, 0],
        [4, 8, 7, 0, 0, 0, 0, 3, 1],
        [0, 0, 3, 0, 1, 0, 0, 8, 0],
        [9, 0, 0, 8, 6, 3, 0, 0, 5],
        [0, 5, 0, 0, 9, 0, 6, 0, 0],
        [1, 3, 0, 0, 0, 0, 2, 5, 0],
        [0, 0, 0, 0, 0, 0, 0, 7, 4],
        [0, 0, 5, 2, 0, 6, 3, 0, 0],
    ];

    assert!(isvalid_sudoku(grid));
}

#[test]
fn test_solve_empty_sudoku() {
    let grid: Grid = [[0; 9]; 9];
    let mut state = new_state(grid);

    let result = solve(0, 0, &mut state);

    assert!(result);
}

#[test]
fn test_solve_sudoku() {
    let grid: Grid = [
        [3, 0, 6, 5, 0, 8, 4, 0, 0],
        [5, 2, 0, 0, 0, 0, 0, 0, 0],
        [0, 8, 7, 0, 0, 0, 0, 3, 1],
        [0, 0, 3, 0, 1, 0, 0, 8, 0],
        [9, 0, 0, 8, 6, 3, 0, 0, 5],
        [0, 5, 0, 0, 9, 0, 6, 0, 0],
        [1, 3, 0, 0, 0, 0, 2, 5, 0],
        [0, 0, 0, 0, 0, 0, 0, 7, 4],
        [0, 0, 5, 2, 0, 6, 3, 0, 0],
    ];
    let mut state = new_state(grid);

    let result = solve(0, 0, &mut state);

    assert!(result);
    assert_eq!(SOLUTION, state.cells);
}

#[test]
fn test_valid_sudoku() {
    assert!(isvalid_sudoku(SOLUTION));
}

#[test]
fn test_non_distinct() {
    let mut grid = SOLUTION;
    grid[0][8] = 3; // non-distinct row (first row)
    assert!(!isvalid_sudoku(grid));

    let mut grid = SOLUTION;
    grid[8][8] = 2; // non-distinct col (last col)
    assert!(!isvalid_sudoku(grid));

    let mut grid = SOLUTION;
    grid[5][4] = 8; // non-distinct square (middle square)
    assert!(!isvalid_sudoku(grid));
}

#[test]
fn test_invalid_sudoku() {
    let grid: Grid = [
        [3, 1, 6, 5, 7, 8, 4, 9, 3],
        [5, 2, 9, 1, 3, 4, 7, 6, 8],
        [4, 8, 7, 6, 2, 9, 5, 3, 1],
        [2, 6, 3, 0, 1, 0, 0, 8, 0],
        [9, 7, 4, 8, 6, 3, 0, 0, 5],
        [8, 5, 1, 0, 9, 0, 6, 0, 0],
        [1, 3, 0, 0, 0, 0, 2, 5, 0],
        [0, 0, 0, 0, 0, 0, 0, 7, 4],
        [0, 0, 5, 2, 0, 6, 3, 0, 0],
    ];

    assert!(!isvalid_sudoku(grid));
}

#[test]
fn empty_grid_is_valid_grid() {
    assert!(isvalid_sudoku([[0; 9]; 9]));
}

#[test]
fn repeated_digit_in_box_only_is_invalid() {
    let mut grid: Grid = [[0; 9]; 9];
    grid[0][0] = 7;
    grid[1][1] = 7;
    assert!(!isvalid_sudoku(grid));
    grid[1][1] = 0;
    grid[4][4] = 7;
    assert!(isvalid_sudoku(grid));
}

#[test]
fn repeated_digit_in_row_far_apart_is_invalid() {
    let mut grid: Grid = [[0; 9]; 9];
    grid[6][0] = 4;
    grid[6][8] = 4;
    assert!(!isvalid_sudoku(grid));
}

#[test]
fn solving_empty_grid_fills_every_cell_validly() {
    for _ in 0..5 {
        let mut state = new_state([[0; 9]; 9]);
        assert!(solve(0, 0, &mut state));
        assert!(isvalid_sudoku(state.cells));
        assert_eq!(count_empty(&state.cells), 0);
        assert!(state.steps >= 81);
    }
}

#[test]
fn unsolvable_grid_is_left_unchanged() {
    // The first cell must hold 1, but column 0 already holds a 1.
    let mut grid: Grid = [[0; 9]; 9];
    for c in 1..9 {
        grid[0][c] = (c + 1) as u8;
    }
    grid[8][0] = 1;
    assert!(isvalid_sudoku(grid));
    let mut state = new_state(grid);
    assert!(!solve(0, 0, &mut state));
    assert_eq!(state.cells, grid);
}

#[test]
fn full_invalid_grid_is_not_solved() {
    let mut grid = SOLUTION;
    grid[0][0] = 1;
    let mut state = new_state(grid);
    assert!(!solve(0, 0, &mut state));
    assert_eq!(state.cells, grid);
}

#[test]
fn full_valid_grid_is_its_own_solution() {
    let mut state = new_state(SOLUTION);
    assert!(solve(0, 0, &mut state));
    assert_eq!(state.cells, SOLUTION);
}

#[test]
fn solving_keeps_placed_digits() {
    let mut grid = SOLUTION;
    for r in 0..9 {
        for c in 0..9 {
            if (r + c) % 2 == 0 {
                grid[r][c] = 0;
            }
        }
    }
    let mut state = new_state(grid);
    assert!(solve(0, 0, &mut state));
    assert!(isvalid_sudoku(state.cells));
    for r in 0..9 {
        for c in 0..9 {
            assert_ne!(state.cells[r][c], 0);
            if grid[r][c] != 0 {
                assert_eq!(state.cells[r][c], grid[r][c]);
            }
        }
    }
}

#[test]
fn solving_from_later_cell_leaves_earlier_cells() {
    let mut grid: Grid = [[0; 9]; 9];
    grid[4][4] = 5;
    let mut state = new_state(grid);
    assert!(solve(0, 4, &mut state));
    for c in 0..4 {
        for r in 0..9 {
            assert_eq!(state.cells[r][c], 0);
        }
    }
    for c in 4..9 {
        for r in 0..9 {
            assert_ne!(state.cells[r][c], 0);
        }
    }
    assert_eq!(state.cells[4][4], 5);
    assert!(isvalid_sudoku(state.cells));
}

#[test]
fn generate_with_no_blanks_is_full() {
    let grid = generate_sudoku(0);
    assert!(isvalid_sudoku(grid));
    assert_eq!(count_empty(&grid), 0);
}

#[test]
fn generate_with_all_blanks_is_empty() {
    assert_eq!(count_empty(&generate_sudoku(81)), 81);
    assert_eq!(count_empty(&generate_sudoku(200)), 81);
}

#[test]
fn generated_puzzle_can_be_solved() {
    let grid = generate_sudoku(40);
    assert_eq!(count_empty(&grid), 40);
    let mut state = new_state(grid);
    assert!(solve(0, 0, &mut state));
    assert!(isvalid_sudoku(state.cells));
    assert_eq!(count_empty(&state.cells), 0);
}
