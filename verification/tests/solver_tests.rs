use killer_sudoku::models::{Cage, Cell, SudokuMeta, NO_CAGE};
use killer_sudoku::grid::check_and_mark;
use killer_sudoku::solver::{
    cell_readable, check_house, is_valid_at, search_readable, solve_recursive,
};

fn empty_meta() -> SudokuMeta {
    SudokuMeta {
        cages: vec![],
        cell_to_cage: [[usize::MAX; 9]; 9],
    }
}

fn row_positions(row: usize, n: usize) -> Vec<(usize, usize)> {
    (0..n).map(|col| (row, col)).collect()
}

// two equal digits are not allowed
#[test]
fn test_check_house_fast_duplicates() {
    let mut grid = [[0u8; 9]; 9];
    grid[0][0] = 5;
    grid[0][1] = 5;

    let is_valid = check_house(&grid, &row_positions(0, 2), 10);
    assert!(!is_valid);
}

// the sum of the digits may not exceed the target
#[test]
fn test_check_house_fast_sum_exceeded() {
    let mut grid = [[0u8; 9]; 9];
    grid[0][0] = 8;
    grid[0][1] = 9;

    let is_valid = check_house(&grid, &row_positions(0, 3), 15);
    assert!(!is_valid);
}

// bounds from the smallest and largest digits still free
#[test]
fn test_check_house_fast_min_max() {
    let mut grid = [[0u8; 9]; 9];
    grid[0][0] = 1;
    grid[0][1] = 2;

    // 12 < 15 must fail (the largest digit left is 9)
    let is_valid_max = check_house(&grid, &row_positions(0, 3), 15);
    assert!(!is_valid_max);

    // 6 > 4 must fail too (the smallest digit left is 3)
    let is_valid_min = check_house(&grid, &row_positions(0, 3), 4);
    assert!(!is_valid_min);
}

// is_valid_at checks row, column and block
#[test]
fn test_is_valid_at() {
    let mut grid = [[0u8; 9]; 9];
    let meta = empty_meta();

    // row check
    grid[0][0] = 1;
    grid[0][8] = 1;
    assert!(!is_valid_at(&grid, &meta, 0, 8));

    // column check
    grid[6][8] = 1;
    grid[7][8] = 1;
    assert!(!is_valid_at(&grid, &meta, 7, 8));

    // 3x3 check
    grid[3][0] = 1;
    grid[3][1] = 1;
    assert!(!is_valid_at(&grid, &meta, 3, 1));
}

// cages in is_valid_at
#[test]
fn test_is_valid_at_with_cage() {
    let mut grid = [[0u8; 9]; 9];
    let mut meta = empty_meta();

    // cage of 3 cells with sum 10
    meta.cages.push(Cage {
        cells: vec![
            Cell { row: 0, col: 0 },
            Cell { row: 0, col: 1 },
            Cell { row: 0, col: 2 },
        ],
        sum: 10,
    });
    // the lookup table: the cells belong to cage 0
    meta.cell_to_cage[0][0] = 0;
    meta.cell_to_cage[0][1] = 0;
    meta.cell_to_cage[0][2] = 0;

    // 9 in the first cell
    grid[0][0] = 9;
    // 2 in the second is too much, so is_valid_at must fail
    grid[0][1] = 2;

    assert!(!is_valid_at(&grid, &meta, 0, 1));
}

#[test]
fn check_house_accepts_reachable_targets() {
    let mut grid = [[0u8; 9]; 9];
    grid[0][0] = 1;
    grid[0][1] = 2;
    // a third cell can take 3..=9: targets 6..=12 are reachable
    assert!(check_house(&grid, &row_positions(0, 3), 6));
    assert!(check_house(&grid, &row_positions(0, 3), 12));
    assert!(!check_house(&grid, &row_positions(0, 3), 5));
    assert!(!check_house(&grid, &row_positions(0, 3), 13));
}

#[test]
fn check_house_full_house_must_hit_target() {
    let mut grid = [[0u8; 9]; 9];
    grid[0][0] = 4;
    grid[0][1] = 6;
    assert!(check_house(&grid, &row_positions(0, 2), 10));
    assert!(!check_house(&grid, &row_positions(0, 2), 11));
}

#[test]
fn check_house_skips_used_digits_in_bounds() {
    let mut grid = [[0u8; 9]; 9];
    // 1 and 9 are taken: two empty cells add at least 2 + 3 and at most 8 + 7
    grid[0][0] = 1;
    grid[0][1] = 9;
    assert!(check_house(&grid, &row_positions(0, 4), 15));
    assert!(!check_house(&grid, &row_positions(0, 4), 14));
    assert!(check_house(&grid, &row_positions(0, 4), 25));
    assert!(!check_house(&grid, &row_positions(0, 4), 26));
}

#[test]
fn check_house_empty_row() {
    let grid = [[0u8; 9]; 9];
    assert!(check_house(&grid, &row_positions(0, 9), 45));
    assert!(!check_house(&grid, &row_positions(0, 9), 44));
}

#[test]
fn is_valid_at_accepts_fresh_grid() {
    let mut grid = [[0u8; 9]; 9];
    grid[4][4] = 7;
    assert!(is_valid_at(&grid, &empty_meta(), 4, 4));
    assert_eq!(NO_CAGE, usize::MAX);
}

const SOLUTION: [[u8; 9]; 9] = [
    [5, 3, 4, 6, 7, 8, 9, 1, 2],
    [6, 7, 2, 1, 9, 5, 3, 4, 8],
    [1, 9, 8, 3, 4, 2, 5, 6, 7],
    [8, 5, 9, 7, 6, 1, 4, 2, 3],
    [4, 2, 6, 8, 5, 3, 7, 9, 1],
    [7, 1, 3, 9, 2, 4, 8, 5, 6],
    [9, 6, 1, 5, 3, 7, 2, 8, 4],
    [2, 8, 7, 4, 1, 9, 6, 3, 5],
    [3, 4, 5, 2, 8, 6, 1, 7, 9],
];

// cages of three cells in a row, with the sums of SOLUTION
fn row_triple_meta() -> SudokuMeta {
    let mut meta = empty_meta();
    for r in 0..9 {
        for t in 0..3 {
            let cells: Vec<Cell> = (0..3).map(|k| Cell { row: r, col: t * 3 + k }).collect();
            let sum: u32 = cells.iter().map(|c| SOLUTION[c.row][c.col] as u32).sum();
            for c in &cells {
                meta.cell_to_cage[c.row][c.col] = meta.cages.len();
            }
            meta.cages.push(Cage { cells, sum });
        }
    }
    meta
}

fn is_killer_solution(s: &[[u8; 9]; 9], meta: &SudokuMeta) -> bool {
    let mut houses: Vec<(Vec<(usize, usize)>, u32)> = Vec::new();
    for i in 0..9 {
        houses.push(((0..9).map(|c| (i, c)).collect(), 45));
        houses.push(((0..9).map(|r| (r, i)).collect(), 45));
        houses.push(((0..9).map(|k| (i / 3 * 3 + k / 3, i % 3 * 3 + k % 3)).collect(), 45));
    }
    for cage in &meta.cages {
        houses.push((cage.cells.iter().map(|c| (c.row, c.col)).collect(), cage.sum));
    }
    houses.iter().all(|(cells, target)| {
        let mut seen = [false; 10];
        let mut sum = 0u32;
        for &(r, c) in cells {
            let v = s[r][c] as usize;
            if v == 0 || v > 9 || seen[v] {
                return false;
            }
            seen[v] = true;
            sum += v as u32;
        }
        sum == *target
    })
}

#[test]
fn solve_fills_blank_cells_sequentially() {
    let meta = row_triple_meta();
    let mut grid = SOLUTION;
    for r in 0..9 {
        for c in 0..9 {
            if (r + c) % 3 != 0 {
                grid[r][c] = 0;
            }
        }
    }
    let solution = solve_recursive(&grid, &meta, 0, true).expect("solvable");
    assert!(is_killer_solution(&solution, &meta));
    for r in 0..9 {
        for c in 0..9 {
            if grid[r][c] != 0 {
                assert_eq!(solution[r][c], grid[r][c]);
            }
        }
    }
}

#[test]
fn solve_in_parallel_gives_a_solution() {
    let meta = row_triple_meta();
    let mut grid = SOLUTION;
    for r in 0..9 {
        for c in 0..9 {
            if (r * 9 + c) % 2 == 1 {
                grid[r][c] = 0;
            }
        }
    }
    let solution = solve_recursive(&grid, &meta, 0, false).expect("solvable");
    assert!(is_killer_solution(&solution, &meta));
}

#[test]
fn solve_with_single_cell_cages_gives_the_grid() {
    let mut meta = empty_meta();
    for r in 0..9 {
        for c in 0..9 {
            meta.cell_to_cage[r][c] = meta.cages.len();
            meta.cages.push(Cage { cells: vec![Cell { row: r, col: c }], sum: SOLUTION[r][c] as u32 });
        }
    }
    let grid = [[0u8; 9]; 9];
    assert_eq!(solve_recursive(&grid, &meta, 0, true), Some(SOLUTION));
    assert_eq!(solve_recursive(&grid, &meta, 0, false), Some(SOLUTION));
}

#[test]
fn solve_full_grid_returns_it() {
    let meta = empty_meta();
    assert_eq!(solve_recursive(&SOLUTION, &meta, 0, true), Some(SOLUTION));
}

#[test]
fn solve_reports_no_solution() {
    let mut grid = [[0u8; 9]; 9];
    // two 5s in row 0: no cell of that row can be completed
    grid[0][0] = 5;
    grid[0][1] = 5;
    assert_eq!(solve_recursive(&grid, &empty_meta(), 0, true), None);
    assert_eq!(solve_recursive(&grid, &empty_meta(), 0, false), None);
}

#[test]
fn solve_reports_no_solution_for_impossible_cage() {
    let mut meta = empty_meta();
    // two cells cannot add up to 18 with distinct digits
    meta.cages.push(Cage { cells: vec![Cell { row: 0, col: 0 }, Cell { row: 0, col: 1 }], sum: 18 });
    meta.cell_to_cage[0][0] = 0;
    meta.cell_to_cage[0][1] = 0;
    let grid = [[0u8; 9]; 9];
    assert_eq!(solve_recursive(&grid, &meta, 0, true), None);
}

#[test]
fn check_house_keeps_houses_of_a_solution() {
    // every partial house of a valid solution passes the quick test
    let meta = row_triple_meta();
    let mut grid = SOLUTION;
    for c in [0usize, 2, 4, 7, 8] {
        grid[3][c] = 0;
    }
    assert!(check_house(&grid, &row_positions(3, 9), 45));
    for cage in &meta.cages {
        let cells: Vec<(usize, usize)> = cage.cells.iter().map(|c| (c.row, c.col)).collect();
        assert!(check_house(&grid, &cells, cage.sum));
    }
    for c in 0..9 {
        assert!(is_valid_at(&grid, &meta, 3, c));
    }
}

#[test]
fn broken_house_is_rejected_by_check_house() {
    let mut grid = [[0u8; 9]; 9];
    grid[2][2] = 3;
    grid[2][3] = 4;
    let cells = vec![(2, 2), (2, 3)];
    let mut mask = [[false; 9]; 9];
    check_and_mark(&grid, &mut mask, &cells, 10);
    assert!(mask[2][2]);
    assert!(!check_house(&grid, &cells, 10));
}

#[test]
fn solve_with_table_built_from_cages() {
    let cages = row_triple_meta().cages;
    let meta = SudokuMeta::from_cages(cages);
    let mut grid = SOLUTION;
    for r in 0..9 {
        for c in 0..9 {
            if (r + 2 * c) % 4 != 0 {
                grid[r][c] = 0;
            }
        }
    }
    let sequential = solve_recursive(&grid, &meta, 0, true).expect("solvable");
    let parallel = solve_recursive(&grid, &meta, 0, false).expect("solvable");
    assert!(is_killer_solution(&sequential, &meta));
    assert!(is_killer_solution(&parallel, &meta));
}

#[test]
fn check_house_ignores_the_order_of_cells() {
    let mut grid = [[0u8; 9]; 9];
    grid[0][0] = 1;
    grid[0][4] = 7;
    grid[0][8] = 2;
    let forward = row_positions(0, 9);
    let mut backward = forward.clone();
    backward.reverse();
    for target in 0..60u32 {
        assert_eq!(check_house(&grid, &forward, target), check_house(&grid, &backward, target));
    }
}

#[test]
fn sequential_search_is_repeatable() {
    // few cages and few givens: many completions exist
    let mut meta = empty_meta();
    meta.cages.push(Cage { cells: vec![Cell { row: 0, col: 0 }, Cell { row: 0, col: 1 }], sum: 3 });
    meta.cell_to_cage[0][0] = 0;
    meta.cell_to_cage[0][1] = 0;
    let grid = [[0u8; 9]; 9];
    let first = solve_recursive(&grid, &meta, 0, true);
    let second = solve_recursive(&grid, &meta, 0, true);
    assert!(first.is_some());
    assert_eq!(first, second);
    let deep_first = solve_recursive(&grid, &meta, 4, false);
    assert_eq!(deep_first, first);
}

#[test]
fn full_grid_is_returned_whatever_it_holds() {
    let mut grid = SOLUTION;
    grid[4][4] = 12;
    assert!(search_readable(&grid, &empty_meta()));
    assert_eq!(solve_recursive(&grid, &empty_meta(), 0, true), Some(grid));
}

#[test]
fn readable_only_where_empty_cells_see_digits() {
    let mut grid = SOLUTION;
    grid[4][4] = 12;
    grid[4][0] = 0;
    // the empty cell (4, 0) shares row 4 with the 12
    assert!(!cell_readable(&grid, &empty_meta(), 4, 0));
    assert!(!search_readable(&grid, &empty_meta()));
    // a table entry that names no cage cannot be followed
    let mut meta = empty_meta();
    meta.cell_to_cage[4][0] = 3;
    let mut clean = SOLUTION;
    clean[4][0] = 0;
    assert!(search_readable(&clean, &empty_meta()));
    assert!(!search_readable(&clean, &meta));
}
