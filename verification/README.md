# wavefield

A multi-level spatial signal field for agent simulations, verified with Verus.

Signals (circles and view cones) are filed in square tiles whose side grows with
the signal's radius (`2^level`), one grid per level; queries walk only the levels
in use. The library keeps the grid's bookkeeping and answers the integer side of
every query; the caller computes tiles and tile ranges from positions and radii,
and runs the narrow phase in floating point.

- `src/mask.rs`: 64-bit masks (tags, levels in use, arc sections).
- `src/tile.rs`: tile keys, tile ranges and the integer each tile is filed under.
- `src/field.rs`: the field (store, grid, level counts), its operations, the
  broad phase of queries, and the laws that tie them together.
- `src/laws.rs`: laws of an exact grid (every entry a stored signal's, once): each
  key reported once, levels in use are the stored levels, `emit` then `cease`
  restores, `reposition` is `cease` then `emit`.
- `src/occlusion.rs`: the front-to-back occlusion pass over a view arc.
- `src/chase.rs`: a seeker's perception and decisions.
- `src/control.rs`: the producer's play/pause/step control and frame hand-off.
- `src/fxmap.rs`, `src/bucket.rs`: the hash maps (rustc-hash) and buckets
  (smallvec) the field is built on.
- `app/`: the engine (hecs world, glam geometry, kira audio), the producer
  and presenter threads, and the macroquad window.
