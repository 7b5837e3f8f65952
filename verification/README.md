# rust_dsp

Audio effects (flanger, phase shift, phaser) for a WebAssembly host.

- `src/` is the verified library. It holds the parts of the effects that do
  not depend on the sample arithmetic, generic over the sample type:
  - `delay_line`: a fixed-length circular delay line (reads by delay, writes
    of the newest sample) and the silence counter it feeds;
  - `phaser`: the stage storage of a multi-stage phaser, four stages to a
    group, the one-at-a-time stage run and the staggered group-wise run of
    four samples, proved against a lane-by-lane model;
  - `phaser_batch`: the four-sample batching of a phaser instance;
  - `legacy_phaser`: the one-sample-at-a-time phaser;
  - `flanger`, `phase_shift`: the delay-line sizes of those effects.
- `app/` holds the WebAssembly bindings and the floating-point code: the
  parameter mapping, the interpolation of delay-line reads, the all-pass
  arithmetic, parameter ramps and the buffer shared with JavaScript.
- `tests/` runs the library on concrete values.
