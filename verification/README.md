# Mastering DSP

A stereo mastering engine: mid/side width, three-band equalizer, three-band
crossover with true bypass, output gain. Written and verified in Verus.

- `src/grid.rs`, `src/rounding.rs`, `src/single.rs`: single-precision
  arithmetic in integers, proved to round correctly.
- `src/arithmetic.rs`: laws of that arithmetic.
- `src/elementary.rs`: the elementary functions that the host supplies.
- `src/smoother.rs`, `src/biquad.rs`, `src/chain.rs`, `src/engine.rs`: the
  engine, with a contract for every sample that comes out.
- `src/laws.rs`: what holds of the engine as a whole.
- `src/filters.rs`, `src/exact.rs`, `src/nearness.rs`: what holds of the
  filters as they are computed, of their formulas in exact arithmetic, and how
  far apart the two are.
- `src/crossover.rs`: the bands of the crossover sum back to flat.
- `src/stability.rs`: the sections stay stable for host answers in range.
- `src/scaling.rs`, `src/silence.rs`, `src/symmetry.rs`: doubled inputs,
  silence, exchanged channels.
- `src/settings.rs`: the parameters over any history of writes and blocks.
- `app/`: the C interface for an audio worklet.

## Parameters

| id | parameter | value |
|----|-----------|-------|
| 0, 1, 2 | low shelf 120 Hz, peak 1.2 kHz, high shelf 8 kHz | dB |
| 3 | width | 1 is neutral |
| 4 | output gain | dB |
| 5 | crossover | on from 0.5 |
| 6, 7, 8 | low, mid, high band gain | dB |
