# hfstol

An applier for HFST optimized-lookup transducers (`.hfstol`). The file
reader and the lookup traversal carry contracts with proofs, and the laws
that relate the functions are proved beside them.

## Layout

- `src/header.rs`: the optional `HFST` wrapper and the optimized-lookup
  header, read by a byte cursor; `spec_header` says what a file holds.
- `src/alphabet.rs`: the symbol table and flag-diacritic parsing.
- `src/flag_state.rs`: the flag state of the current path, edited in place
  and undone on backtrack (`undo_reverses_apply`).
- `src/lookup.rs`: the depth-first traversal and its specification
  (`spec_step` and the functions it calls).
- `src/transducer.rs`: loading (`from_bytes`, against `spec_layout`),
  tokenisation, `lookup` / `lookup_with_frontier`, `symbols_where`, and the
  laws that relate them (bare and wrapped files, longest match, the frontier,
  banned outputs, weights).
- `src/text.rs`: UTF-8 helpers and the calls into `String`.
- `src/error.rs`: the error type.
- `app/main.rs`: the `diff` program (file and stdin I/O, printing, and the
  floating-point sum of path weights).

Weights are kept as the bit patterns of the stored `f32` values; an
`Analysis` lists the weights met along its path, and their sum is formed in
`app/`.

## Tests

The tests under `tests/` assemble small transducers in memory, analyzers and
generators, with and without flag diacritics, and compare what they give with
the expected analyses.
