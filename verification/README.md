# sudokli

A terminal sudoku game (classic and killer), with a puzzle generator, a
solution counter and a difficulty rater. The library is written in Verus:
its functions carry `requires`/`ensures` contracts that Verus proves.

## Layout

- `src/` — the verified library
  - `rules.rs` — sudoku rules as spec functions (complete valid board, peers, solutions)
  - `digits.rs`, `tally.rs` — digit sets as bitmasks; counts over the 81 cells
  - `grid.rs` — the board, cages, cage render data (cell map, colouring, labels)
  - `solver.rs` — classic solution counting by propagation and backtracking
  - `killer.rs` — cage digit combinations and digit-set sums
  - `killer_search.rs` — killer solution counting with cage propagation and a node budget
  - `generator.rs` — grid filling, clue removal, cage partitions, puzzle generation (random numbers from `rand`)
  - `rater.rs` — difficulty rating with human techniques
  - `session.rs` — a game in progress: hints, errors, what each key does
- `tests/` — tests of the library
- `app/` — the program: command line, terminal interface, threads, JSON output

## Main guarantees

- `count_solutions` returns the smaller of its limit and the number of
  solutions: it never misses a solution, and as many distinct solutions as it
  counts exist (a grid whose givens clash counts 0).
- `count_solutions_killer` does the same for killer puzzles (it counts every
  solution on an empty grid); with no node budget, or one above the size
  of the search tree, it always completes.
- Generated puzzles have a unique solution; generated cages split the board
  into connected cages of one to five cells with distinct digits and the
  right sums.
- A rating is the score of a run of passes, each made by a technique when
  every easier one had nothing left to do (or by a guess once none had
  anything), from the hardest pass and the number of advanced ones.
- Every rating technique only removes candidates that no solution needs; a
  rating below 10 was reached without guessing. Naked singles run to a fixed
  point, every hidden single of the starting board is settled, and every
  X-wing and swordfish in rows of the starting board is applied. A pass of
  cage combinations, naked or hidden pairs or triples, pointing, X-wings or
  swordfishes that removes nothing leaves nothing for it to remove (X-wings
  and swordfishes in columns included).
- Clue removal stops at the target clue count, or when every clue left is
  needed for a unique solution.
