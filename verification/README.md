# river_network

Procedural river networks: terrain from multi-octave noise, D8 drainage,
flow accumulation, watersheds, Strahler stream order and river extraction,
rendered with wgpu or to PNG images.

## Layout

- `src/` — the verified library (Verus). It holds the grid logic of the
  hydrology simulation, on integers:
  - `direction.rs` — the D8 directions and their offsets;
  - `grid.rs` — the drainage model (`succ`, `walk`) and grid stepping;
  - `paths.rs` — path length, the cells a source's water runs through, and the
    mask of everything draining into one river;
  - `accumulation.rs` — flow accumulation by topological order, and the proof
    that on acyclic grids it is the upstream area of each cell;
  - `basins.rs` — drainage basins (cells whose flow paths meet) and their
    outlets;
  - `watershed.rs` — pour points, upstream/downstream tracing and watershed
    delineation: one id per drainage basin, pour-point basins first, with
    the laws on basins, pour points and dense numbering;
  - `stream_order.rs` — Strahler stream order, iterated to the least
    ordering that obeys the Strahler rule on every river cell;
  - `ranking.rs` — the stable largest-flow-first sort of located flows;
  - `segments.rs` — the D8 choice of the steepest direction and the extraction
    of river segments;
  - `outlets.rs` — the major outlets where rivers leave the map, which colour
    the regions of a rendered image;
  - `sources.rs` — drawing inland candidate cells with `rand`;
  - `particle.rs` — grid indexing for the erosion simulation;
  - `sums.rs` — finite sums used in the proofs.

  Floating-point flows and thresholds reach the library as order keys: `u32`
  values that compare as the floats do.
- `app/` — the program: terrain generation (`noise`), the floating-point parts
  of the hydrology (slopes, source strengths), particle erosion, the wgpu
  renderer and window loop, and the headless PNG generator (`--images`).
- `tests/` — tests of the library on small grids.
