# forge_cmd

Filters for the output of Foundry's `forge`: `forge build` without its noise, `forge test`
without the tests that passed, and traces compressed.

- `src/` is the library. Its functions carry contracts that Verus proves; the modules
  `build_laws`, `test_laws`, `trace_laws` and `scientific_laws` prove what holds of the
  filters and of the notation as a whole.
  All that rests on the `regex` crate stands in `engine`.
- `app/` runs forge, feeds its output to the library and prints what comes back.
- `tests/` runs the library. `tests/patterns.rs` holds the stated meaning of each regular
  expression against the engine.
