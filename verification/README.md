# engine

A chess engine whose library is verified with Verus.

- `src/` — the verified library:
  - `bits.rs` bitboard helpers; `board.rs` positions, moves, Zobrist keys;
  - `movegen.rs` attack tables (magic bitboards), pseudo-legal and legal
    move generation, making moves, UCI move parsing; `move_law.rs` the
    proof that a legal move's UCI text reads back as that move;
  - `perft.rs` perft counts; `fen.rs` FEN reading and writing, and
    `fen_law.rs` the proof that a position's FEN reads back as the position;
  - `eval.rs` integer evaluation terms; `book.rs` the opening book;
  - `search.rs` iterative-deepening alpha-beta search over a `SearchHost`
    (clock, transposition table, evaluation, reports), and `plain.rs` the
    value plain alpha-beta gives, which the search is proved to compute
    when its refinements are off;
  - `uci.rs` the UCI-lite command handling and reply lines.
- `app/` — the program around it: the floating-point evaluation blend, the
  clock, the shared transposition table and Lazy-SMP threads, the stdin/stdout
  loop, benchmarks and the WebAssembly entry point.
- `tests/` — tests of the library, perft counts among them.
