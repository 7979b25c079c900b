# mushroom_bot

Bots for a two-player board game played on a 10 × 17 grid of digits. A move takes a
rectangle whose cells sum to exactly 10 and whose four border lines each hold a live cell:
its cells are cleared and become the mover's. A player may pass; two passes in a row end the
game, and the player owning more cells wins. The bots speak a line protocol (`READY`,
`INIT`, `TIME`, `OPP`, `FINISH`).

The library in `src/` is verified with Verus: its functions carry contracts (the stopwatch
that reads the clock states nothing of what it reads, and the searches that ask it state
their result for whatever it answers), and the laws that tie functions together are proof
functions.

## Layout

- `src/types.rs`, `bitboard.rs`, `grid.rs`: moves, cell sets, sums over board regions.
- `src/movegen.rs`: legal rectangles, their enumeration and identifiers.
- `src/board.rs`, `tt.rs`: positions, playing moves, ordering scores, position hashes.
- `src/eval.rs`, `opening/`, `mid_game/`, `end_game/`: move features, the integer parts
  of the evaluation and of the move-ordering bonuses, trap and stealth bonuses.
- `src/mquality.rs`, `dataloader.rs`, `databuild.rs`: the move-quality table, data and
  geometry files (reading and building them).
- `src/protocol.rs`, `agent.rs`: text handling and the main bot's protocol state machine.
- `src/mcts.rs`, `search.rs`, `timeman.rs`: rollout policy, search and time settings.
- `src/bots/`: the other bots (search bot with alpha-beta search and transposition
  table, zoo of styles, finding and policy bots), the tools' board generators and the
  trainer's and tournament's game schedules.
- `app/`: the programs around the library: reading and writing lines and files, the
  floating-point evaluation and the strategies that use it, tournaments and data tools.
- `tests/`: tests of the library.
