# killer_sudoku

A Killer Sudoku checker and solver whose logic is verified with Verus.

- `src/models.rs`: cells, givens, cages, the puzzle and the cell-to-cage table.
- `src/digits.rs`: the arithmetic of one house (distinct digits, sums, the
  bounds that the empty cells can still reach) and the lemmas about it.
- `src/houses.rs`: rows, columns, blocks and cages as lists of cells.
- `src/tally.rs`: counting the digits of a house.
- `src/puzzle.rs`: what a solution is, and the facts the search relies on.
- `src/search.rs`: the sequential search as a function: the cell it branches
  on, the order of the values, and so the completion it finds first.
- `src/solver.rs`: the quick house test, the per-cell test and the search
  (in parallel with rayon in the first levels).
- `src/grid.rs`: the mask of cells in broken houses and the text of a grid.
- `src/setup.rs`: from a puzzle to grid and table, and back.
- `app/`: the command line program (`print`, `test`, `solve`), reading and
  writing the JSON puzzle files.
