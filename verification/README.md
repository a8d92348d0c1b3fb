# swirly_world

The logic of a small 2D digging game, verified with Verus.

- `src/world.rs` — the chunked terrain store: splitting world coordinates into chunk and
  cell, loading and unloading chunks, reading and writing cells, and queueing chunks whose
  mesh must be rebuilt.
- `src/grid.rs` — the `ndarray` array that holds a chunk's cells, behind a small set of
  trusted calls.
- `src/square_march.rs` — marching-squares topology: the case of a square, the contour and
  fill tables, and the walk over a grid of samples.
- `src/world_mesh.rs` — per-chunk mesh buffers (at most one per chunk) and the cell order
  the meshing shader reads.
- `src/textures.rs` — the terrain texture layers: PNG decoding through `image`, behind one
  trusted call, and the row reversal that lays each image out bottom row first.
- `src/ecs.rs` — a slot-based entity store that reuses freed indices.
- `src/controller.rs`, `src/systems.rs` — player input handling, the input queue, the
  movement decision and the ground timer.
- `app/` — the game itself: window, GPU, floating-point geometry and physics, noise
  terrain generation, and the `hecs` entities, built on the library.
