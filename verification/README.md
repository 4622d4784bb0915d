# exotech

A snake battle on a falling-block board: two sides of snakes move in turns on a grid of walls,
food and empty squares; heads that hit walls or other snakes are lost, snakes of two squares or
less leave the game, and unsupported snakes fall until they rest on something. One side plays
by a five-turn search, the other by a fixed move.

The library in `src/` is verified with Verus:

- `types.rs`: points, directions, the grid and its model (`GridModel`), snakes, the game state,
  and the text form of a board.
- `engine.rs`: one turn of the game (`GameState::apply`) as a function of the game model, and the
  laws every turn keeps.
- `ai.rs`, `ai2.rs`: the fixed-move player and the search player, with the breadth-first food
  distance, the position evaluation and the cartesian product of the moves of several snakes.
- `random.rs`: the xorshift generator and the board generator (mirroring, walling up small
  pockets, opening tight spaces, sinking the lowest island, laying food, removing lonely walls).
- `pockets.rs`: regions of open squares and the proof that no small pocket is left.
- `rounding.rs`: the rounding of binary64 arithmetic on scaled whole numbers, by which the
  generator's draws are scaled and rounded exactly as in floating point.
- `marks.rs`: the side order of the snakes and the snake marks on the board, kept by every turn.
- `checks.rs`: executable tests of what a turn needs, so that callers can check before playing.
- `runner.rs`: a game played state after state (`GameIter`).

`app/` draws a game with macroquad; the board's height and the wall chance of each row are
floating-point formulas, worked out there and handed to the library as integers.
