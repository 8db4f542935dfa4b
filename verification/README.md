# qpp_rng

A permutation-based QPP random byte generator, the candidates built on
it, and the logic of the harness that measures them, verified with Verus.

## Layout

- `src/` — the verified library.
  - `prng`, `permutation`, `generator`: the internal pad generators
    (`xorshift128+`, the 48-bit LCG), Lemire's unbiased bounded draw, the
    Fisher–Yates pad, and the convergence walk with seed evolution.
  - `timer`, `mock_clock`, `iot`: jitter clocks and tick normalisation.
  - `conditioning`: SHA-256 conditioning of 64-byte raw blocks into
    32-byte output blocks (`sha2` behind one trusted wrapper).
  - `ascon`: Ascon-AEAD128 keyed from generator output (`ascon-aead128`
    behind two trusted wrappers).
  - `candidates`, `differential`: the registry of generator variants,
    determinism and API-parity checks.
  - `footprint`: parsing of `cargo size`, `cargo bloat` and
    `cargo call-stack` output, stack painting, cycle counting.
  - `stats`: sample generation, the integer counts behind the smoke
    tests, the external tools' options, verdict and report readings.
  - `report`: rows of the comparison table, CSV escaping, verdicts.
  - `text`: the character-level scanning the parsers share.
- `tests/` — tests of the library, run against the compiled crate.
- `app/` — the command-line tool around the library: process and file
  I/O, floating-point statistics, serialisation, hardware timers.

Contracts are stated over `Seq`, `nat` and spec functions; laws relating
several functions are public proof functions named `lemma_*`.
