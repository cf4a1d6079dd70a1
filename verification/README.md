# los_checker

Line-of-sight analysis between antenna sites over a digital surface map, with its geometric
core verified by Verus.

## Layout

- `src/` — the verified library.
  - `ratio.rs`: exact rational numbers with `+`, `-`, `*` and exact comparisons.
  - `ray.rs`: two- and three-dimensional rays, generic over their coordinate type, and the
    fact that a sub-ray of an exact ray ends where the ray is at the sub-ray's end.
  - `grid.rs`: two-dimensional height maps stored row by row from the top.
  - `traversal/`: the voxel traversal of Amanatides and Woo over exact ratios. `boundary.rs`
    lists the pixel boundaries a ray crosses, in order, and proves that the list is exactly the
    set of crossings; `pixel.rs` turns it into the segments of the ray inside each pixel and
    proves that they cover the ray without gaps or overlaps.
  - `tiles.rs`: tile coordinates and regions, tile file names, and the sorting of a region's
    tiles by what is on disk.
  - `nodes.rs`: the capitalized booleans of the node records, and the pairs of nodes.
- `tests/` — tests of the library on concrete values.
- `app/` — the command-line program: CSV and TIFF input, downloads, the floating-point
  geometry of node positions and tile clipping, and the parallel driver.
