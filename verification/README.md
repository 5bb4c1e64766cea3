# peterMath

A computational artwork built from mathematical rules: a Lenia-like field,
Gray-Scott reaction-diffusion and Conway's Game of Life, shown in an egui
window with parameters, metrics and snapshot export.

## Layout

- `src/` is the library, written in Verus and verified:
  - `simulation/mod.rs`: render styles and torus indexing (`wrap_index`).
  - `simulation/life/`: the Game of Life.
    - `bitgrid.rs`: a packed bit vector, viewed as a sequence of booleans.
    - `sim.rs`: the grid (`LifeSim`), one B3/S23 generation per `step`,
      the mirrored starting figure, state hashes, RLE export, pattern
      detection and oscillator periods.
    - `rle.rs`: reading run-length encoded patterns (`LifeRlePattern::parse`)
      and writing runs.
    - `patterns.rs`, `components.rs`: recognising block, beehive, loaf,
      blinker, toad, beacon and glider in any position and orientation.
    - `readback.rs`: the proof that reading an exported grid gives back its
      bounding box and live cells.
    - `text.rs`: the text handling the parser rests on.
  - `gpu.rs`: packing the GPU parameter block; `perf.rs`: benchmark sizes;
    `frame.rs`: what each repaint of the running animation does.
- `app/` is the program around it: the egui window, the floating-point
  systems (Lenia, reaction-diffusion, colour maps, metrics), the wgpu Lenia
  renderer, PNG/JSON export and the `--perf-probe` and `--render-preview`
  tools.
- `tests/` runs the library on concrete grids and patterns.
