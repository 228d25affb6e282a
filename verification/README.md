# room_cell

The verified core of a room cell: a stateful unit that perceives
embeddings, predicts the next one, records how surprising each perception
was, and prunes its memory.

- `src/uuid.rs` — identifiers drawn from a linear congruential generator,
  stamped as version 4, and their `8-4-4-4-12` hexadecimal text.
- `src/cycle.rs` — the integer decisions of the tick cycle: the predictor's
  window, the coordinate each vibe dimension samples, the ranking of
  surprise values, garbage collection (a stable selection of the most
  surprising entries, with its laws) and the conservation check.
- `app/` — the room itself (`Room`, `Embedding`, `MurmurSummary`), whose
  floating-point arithmetic is ordinary Rust that calls the library for every
  decision above, and the process-wide identifier generator.
- `tests/` — tests of the library.

Verify with Verus on `src/lib.rs`.
