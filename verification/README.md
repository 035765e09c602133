# rustsoko

A Sokoban solver and puzzle generator, written in Verus and proved against
its contracts.

- `src/types.rs`: tiles, points, actions, the grid (`TileMatrix`) with its
  reader (`from_string`), pushes and their undo, and a bit grid.
- `src/util.rs`: flood fill of the cells the player reaches, the cells from
  which a crate can still be pulled onto a goal, Manhattan distance and an
  A* search for the shortest walk between two cells.
- `src/ida_star_solver.rs`: the IDA* search over pushes, with deadlock
  pruning, followed by A* walks between the pushes; its submodules hold the
  heuristics (`heuristic.rs`) and the proof that the pruning never cuts off a
  solution (`pruning.rs`).
- `src/level_reader.rs`: the reader of `.sok` puzzle collections.
- `src/level_generator.rs`: the random puzzle generator and the text of a
  generated `.sok` collection.
- `app/`: the command-line program (file I/O, argument handling, printing).

What is proved, among other things: on puzzles with as many goals as
crates the three heuristics never overestimate the pushes left (closest box
sums, over the goals, the distance from the closest crate; the greedy
perfect match is computed as the row and column reduction of the
crate-to-goal distance table; both lie below the cost of every pairing of
crates with goals); the deadlock pruning never cuts off a solution; the
search records only legal solving runs, and when it neither runs out of
time nor skips recorded grids, no legal solving run from the start (with no
two states hashing alike, since the search takes a state whose hash it has
met on its path for a repeat) makes fewer pushes than the solutions it
records, and no such run with the fewest pushes takes fewer moves than the
moves it returns, each walk between two pushes being a shortest one; the
search reports a time-out only after a reading of the clock past the limit;
the generator lays out exactly the puzzle that its random draws select (and
says which draws it made); and a `.sok` collection written from generated
puzzles reads back, puzzle by puzzle, as those puzzles.
