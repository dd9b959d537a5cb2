# sudoku

A sudoku library verified with Verus: a board of cells with candidate sets, a solver that
applies human strategies one deduction at a time (singles, pointing and claiming, naked
and hidden subsets, fish, and exhaustive search as a last resort), and a puzzle generator.

- `src/types.rs`: coordinates, candidate sets, cells and the board; parsing, conflict
  detection, candidate filling and the backtracking search.
- `src/utils.rs`: index-set combinations and coordinate helpers by unit direction.
- `src/inferences.rs`: the strategies, each specified by what it finds first, and the
  strategy set that analyzes a board and applies a deduction.
- `src/lib.rs`: the generator on flat boards of 81 digits: the base board, hole digging
  under the uniqueness test, and reshaping by line swaps and digit renaming.
- `app/`: the `wasm_bindgen` bindings, board printing and the wording of deductions.
