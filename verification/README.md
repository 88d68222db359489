# destroyer

The core of a UCI chess engine, verified with Verus: alpha-beta (negamax) search
with quiescence, MVV-LVA move ordering, repetition and fifty-move draw detection
with contempt, a transposition table with ply-relative mate scores, and the UCI
argument handling. Positions, move generation and Zobrist hashing come from
`shakmaty`; the library carries its positions and moves as opaque values, names
what `shakmaty` computes of them with uninterpreted spec functions, and states the
search's results as the fail-hard alpha-beta and quiescence values over those names.

- `src/chess.rs` — the calls into `shakmaty`
- `src/ordering.rs` — piece values, MVV-LVA keys, the stable search order
- `src/material.rs` — material evaluation for the side to move
- `src/search.rs` — the search state, draw rules, negamax, quiescence, iterative deepening
- `src/tt.rs` — the transposition table and its laws
- `src/uci.rs` — UCI commands, `position` and `go` arguments
- `app/main.rs` — the stdin/stdout loop

The search takes its static evaluation as an argument; the engine uses
`evaluate_material`.
