use killer_sudoku::models::{Cage, Cell, Given, SudokuJson, SudokuMeta, NO_CAGE};
use killer_sudoku::setup::{grid_from_givens, solution_to_givens, solved_puzzle};

#[test]
fn grid_from_givens_places_values() {
    let givens = vec![
        Given { row: 0, col: 0, value: 5 },
        Given { row: 8, col: 3, value: 2 },
        Given { row: 0, col: 0, value: 7 },
    ];
    let grid = grid_from_givens(&givens);
    assert_eq!(grid[0][0], 7);
    assert_eq!(grid[8][3], 2);
    assert_eq!(grid[4][4], 0);
}

#[test]
fn from_cages_files_cells_under_their_cage() {
    let cages = vec![
        Cage { cells: vec![Cell { row: 0, col: 0 }, Cell { row: 0, col: 1 }], sum: 3 },
        Cage { cells: vec![Cell { row: 4, col: 4 }], sum: 5 },
        Cage { cells: vec![Cell { row: 4, col: 4 }, Cell { row: 4, col: 5 }], sum: 9 },
    ];
    let meta = SudokuMeta::from_cages(cages);
    assert_eq!(meta.cages.len(), 3);
    assert_eq!(meta.cell_to_cage[0][0], 0);
    assert_eq!(meta.cell_to_cage[0][1], 0);
    // the last cage that lists a cell wins
    assert_eq!(meta.cell_to_cage[4][4], 2);
    assert_eq!(meta.cell_to_cage[4][5], 2);
    assert_eq!(meta.cell_to_cage[8][8], NO_CAGE);
}

#[test]
fn solution_givens_round_trip() {
    let mut solution = [[0u8; 9]; 9];
    for r in 0..9 {
        for c in 0..9 {
            solution[r][c] = ((r * 3 + r / 3 + c) % 9 + 1) as u8;
        }
    }
    let givens = solution_to_givens(&solution);
    assert_eq!(givens.len(), 81);
    assert_eq!((givens[10].row, givens[10].col, givens[10].value), (1, 1, solution[1][1]));
    assert_eq!(grid_from_givens(&givens), solution);
}

#[test]
fn solved_puzzle_keeps_cages_and_writes_all_cells() {
    let puzzle = SudokuJson {
        given: vec![Given { row: 0, col: 0, value: 1 }],
        cages: vec![Cage { cells: vec![Cell { row: 1, col: 1 }], sum: 4 }],
    };
    let solution = [[3u8; 9]; 9];
    let solved = solved_puzzle(puzzle, &solution);
    assert_eq!(solved.given.len(), 81);
    assert!(solved.given.iter().all(|g| g.value == 3));
    assert_eq!(solved.given[80].row, 8);
    assert_eq!(solved.given[80].col, 8);
    assert_eq!(solved.cages.len(), 1);
    assert_eq!(solved.cages[0].sum, 4);
}
