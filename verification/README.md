# hackrf_gnss

Decoding of navigation satellite signals and Iridium bursts from recorded
samples, with a verified core.

- `src/` is the library: ranging codes, navigation messages and their parity,
  RINEX files and element sets, Iridium frames and messages, and the decisions
  of acquisition, tracking, positioning and clock steering. Every function has a
  contract that Verus proves. What several functions promise together stands in
  proof functions named `law_*`.
- `app/` is what works on floating-point numbers: transforms, tracking loops,
  orbits and least squares. It hands the library integers, texts and the bit
  patterns of doubles.
- `tests/` runs the library on examples.

A double is handed over as its bit pattern (`f64::to_bits`). Its value is modelled
as a whole multiple of the smallest positive double, so that comparisons and
sorting are exact (`src/double.rs`).
