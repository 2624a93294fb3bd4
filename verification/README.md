# ghostmate

A chess arena for autonomous agents: each agent answers positions with a depth-3
alpha-beta engine (or its private opening book), a game enforces turn order, move
legality, the fifty-move rule and wager settlement, and a registry keeps agents,
challenges, games and a leaderboard. The library is written in Verus and proved
against its contracts.

## Layout

- `src/board.rs`: piece codes, the packed move, the board, its wire encoding (four
  nibble-packed words plus a flags word) and move application.
- `src/moves.rs`: pseudo-legal and legal move generation and the attack test.
- `src/eval.rs`: material plus piece-square evaluation with per-piece weight offsets.
- `src/minimax.rs`: negamax with alpha-beta pruning, and the proof that it computes
  the negamax value (fail-soft bounds).
- `src/registry.rs`: agent statistics, challenge and game records, leaderboard order.
- `src/game.rs`: the game's state machine: move submission, terminal detection,
  wager payouts.
- `src/match_registry.rs`: the registry's state machine: registration, challenges,
  results.
- `src/agent.rs`: the agent account: opening book, weights, counters, its answer to
  a position.
- `src/notes.rs`: what each note script checks of its storage and hands on.
- `tests/`: the test suite.
- `app/main.rs`: the deployment program for the registry and agent accounts.

Verify with Verus from this directory: `verus --crate-type lib src/lib.rs`.
