use rust_examples::sudoku::render_sudoku;

#[test]
fn render_partial_grid() {
    let grid: [[u8; 9]; 9] = [
        [3, 0, 6, 5, 0, 8, 4, 0, 0],
        [5, 2, 0, 0, 0, 0, 0, 0, 0],
        [0, 8, 7, 0, 0, 0, 0, 3, 1],
        [0, 0, 3, 0, 1, 0, 0, 8, 0],
        [9, 0, 0, 8, 6, 3, 0, 0, 5],
        [0, 5, 0, 0, 9, 0, 6, 0, 0],
        [1, 3, 0, 0, 0, 0, 2, 5, 0],
        [0, 0, 0, 0, 0, 0, 0, 7, 4],
        [0, 0, 5, 2, 0, 6, 3, 0, 0],
    ];
    let expected = "\n+-------+-------+-------+\n\
| 3   6 | 5   8 | 4     |\n\
| 5 2   |       |       |\n\
|   8 7 |       |   3 1 |\n\
+-------+-------+-------+\n\
|     3 |   1   |   8   |\n\
| 9     | 8 6 3 |     5 |\n\
|   5   |   9   | 6     |\n\
+-------+-------+-------+\n\
| 1 3   |       | 2 5   |\n\
|       |       |   7 4 |\n\
|     5 | 2   6 | 3     |\n\
+-------+-------+-------+\n";
    assert_eq!(render_sudoku(grid), expected);
}

#[test]
fn render_empty_grid() {
    let row = "|       |       |       |";
    let border = "\n+-------+-------+-------+\n";
    let band = format!("{}\n{}\n{}", row, row, row);
    let expected = format!(
        "{}{}{}{}{}{}{}",
        border, band, border, band, border, band, border
    );
    assert_eq!(render_sudoku([[0; 9]; 9]), expected);
}

#[test]
fn render_writes_large_values_in_decimal() {
    let mut grid = [[0u8; 9]; 9];
    grid[0][0] = 12;
    grid[0][1] = 255;
    let text = render_sudoku(grid);
    assert!(text.starts_with("\n+-------+-------+-------+\n| 12 255   |"));
}
