use killer_sudoku::grid::{check_and_mark, get_invalid_mask, render_grid};
use killer_sudoku::models::{Cage, Cell, SudokuMeta};

fn empty_meta() -> SudokuMeta {
    SudokuMeta {
        cages: vec![],
        cell_to_cage: [[usize::MAX; 9]; 9],
    }
}

// an empty grid is valid everywhere
#[test]
fn test_get_invalid_mask_empty_grid_is_valid() {
    let grid = [[0u8; 9]; 9];
    let meta = empty_meta();
    let mask = get_invalid_mask(&grid, &meta);

    for row in 0..9 {
        for col in 0..9 {
            assert!(!mask[row][col]);
        }
    }
}

// a digit twice in a row
#[test]
fn test_get_invalid_mask_row_duplicate() {
    let mut grid = [[0u8; 9]; 9];
    grid[0][0] = 5;
    grid[0][1] = 5;

    let meta = empty_meta();
    let mask = get_invalid_mask(&grid, &meta);

    for col in 0..9 {
        assert!(mask[0][col]);
    }
}

// a digit twice in a block
#[test]
fn test_get_invalid_mask_block_duplicate() {
    let mut grid = [[0u8; 9]; 9];
    grid[0][0] = 3;
    grid[1][1] = 3;

    let meta = empty_meta();
    let mask = get_invalid_mask(&grid, &meta);

    assert!(mask[0][0]);
    assert!(mask[1][1]);

    // the rest of the block is marked too
    assert!(mask[0][1]);
}

#[test]
fn test_get_invalid_mask_cage_sum_exceeded() {
    let mut grid = [[0u8; 9]; 9];
    let mut meta = empty_meta();

    // cage of 2 cells with sum 5
    meta.cages.push(Cage {
        cells: vec![Cell { row: 5, col: 5 }, Cell { row: 5, col: 6 }],
        sum: 5,
    });

    // 6 alone is beyond the sum
    grid[5][5] = 6;

    let mask = get_invalid_mask(&grid, &meta);

    // both are marked
    assert!(mask[5][5]);
    assert!(mask[5][6]);
}

#[test]
fn test_get_invalid_mask_cage_full_wrong_sum() {
    let mut grid = [[0u8; 9]; 9];
    let mut meta = empty_meta();

    // cage of 2 cells with sum 10
    meta.cages.push(Cage {
        cells: vec![Cell { row: 2, col: 2 }, Cell { row: 2, col: 3 }],
        sum: 10,
    });

    grid[2][2] = 3;
    grid[2][3] = 4;

    let mask = get_invalid_mask(&grid, &meta);

    // the cage is full but off its sum: both are marked
    assert!(mask[2][2]);
    assert!(mask[2][3]);
}

#[test]
fn invalid_mask_marks_only_broken_houses() {
    let mut grid = [[0u8; 9]; 9];
    grid[0][0] = 5;
    grid[0][1] = 5;
    let mask = get_invalid_mask(&grid, &empty_meta());
    // row 0 and block 0 are marked, column 0 and column 1 are not
    assert!(mask[2][2]);
    assert!(!mask[3][0]);
    assert!(!mask[8][1]);
    assert!(!mask[4][4]);
}

#[test]
fn check_and_mark_leaves_sound_houses() {
    let mut grid = [[0u8; 9]; 9];
    grid[0][0] = 4;
    let mut mask = [[false; 9]; 9];
    mask[8][8] = true;
    check_and_mark(&grid, &mut mask, &vec![(0, 0), (0, 1)], 10);
    assert!(!mask[0][0]);
    assert!(!mask[0][1]);
    assert!(mask[8][8]);
    check_and_mark(&grid, &mut mask, &vec![(0, 0), (0, 1)], 3);
    assert!(mask[0][0]);
    assert!(mask[0][1]);
    assert!(!mask[0][2]);
}

#[test]
fn complete_valid_grid_has_no_marks() {
    let solution: [[u8; 9]; 9] = [
        [5, 3, 4, 6, 7, 8, 9, 1, 2],
        [6, 7, 2, 1, 9, 5, 3, 4, 8],
        [1, 9, 8, 3, 4, 2, 5, 6, 7],
        [8, 5, 9, 7, 6, 1, 4, 2, 3],
        [4, 2, 6, 8, 5, 3, 7, 9, 1],
        [7, 1, 3, 9, 2, 4, 8, 5, 6],
        [9, 6, 1, 5, 3, 7, 2, 8, 4],
        [2, 8, 7, 4, 1, 9, 6, 3, 5],
        [3, 4, 5, 2, 8, 6, 1, 7, 9],
    ];
    let mut meta = empty_meta();
    meta.cages.push(Cage { cells: vec![Cell { row: 0, col: 0 }, Cell { row: 0, col: 1 }], sum: 8 });
    let mask = get_invalid_mask(&solution, &meta);
    assert!(mask.iter().all(|row| row.iter().all(|m| !m)));
    // a wrong cage sum marks exactly the cage's cells
    meta.cages[0].sum = 9;
    let mask = get_invalid_mask(&solution, &meta);
    assert!(mask[0][0] && mask[0][1] && !mask[0][2]);
}

#[test]
fn render_grid_draws_blocks_marks_and_digits() {
    let mut grid = [[0u8; 9]; 9];
    grid[0][0] = 5;
    grid[4][8] = 9;
    let mut mask = [[false; 9]; 9];
    mask[8][0] = true;
    let text = render_grid(&grid, &mask);
    let expected = "5..  ...  ...\n\
                    ...  ...  ...\n\
                    ...  ...  ...\n\
                    \n\
                    ...  ...  ...\n\
                    ...  ...  ..9\n\
                    ...  ...  ...\n\
                    \n\
                    ...  ...  ...\n\
                    ...  ...  ...\n\
                    X..  ...  ...\n";
    assert_eq!(text, expected);
}

#[test]
fn render_grid_writes_large_values_in_full() {
    let mut grid = [[0u8; 9]; 9];
    grid[0][0] = 12;
    grid[0][1] = 200;
    let text = render_grid(&grid, &[[false; 9]; 9]);
    assert!(text.starts_with("12200.  ...  ...\n"));
}
