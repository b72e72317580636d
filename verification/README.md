# Occupancy mapping core

A local 2D occupancy map built from metric optical-axis depth, depth-aligned
camera intrinsics and a camera-to-world pose. The world is Y-up and the map
lies in the X/Z plane; cells are row-major along increasing world Z, then X.

- `src/` is the verified library: configuration and frame validation,
  row-major cell and pixel indexing, grouping of returns into azimuth sectors
  with nearest-obstacle selection, cell-by-cell ray traversal, hit/miss
  marking, and the ledger of observed cells with the snapshot it yields.
- `app/` holds the real-valued geometry and the mapper API around it:
  projection, pose and intrinsics checks, segment clipping, crossing
  distances and log-odds arithmetic, each handing its outcome to `src/`.
- `tests/` exercises the library on concrete values.
