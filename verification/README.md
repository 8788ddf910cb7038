# heightmap

Turns a heightmap and a colormap into bricks, merging neighboring terrain
cells of the same color and height into larger bricks. The library in `src/`
is verified with Verus; `app/` holds what it leaves to plain Rust: progress
reporting, the save format, file output and color conversion.

- `src/map.rs`: the grids of heights and colors.
- `src/brick.rs`, `src/util.rs`: bricks and generation options.
- `src/opt/quad.rs`: the quadtree of tiles, its merge passes and brick layout.
- `src/opt/generate.rs`: the generator's steps (`QuadGen`) and `rest_on_ground`.
- `src/opt/greedy.rs`: the planes for greedy meshing and the bricks of meshed
  rectangles.
- `src/opt/model.rs`, `construct.rs`: what a freshly built layer holds.
- `src/opt/blocks.rs`, `lines.rs`, `layout.rs`: the merge passes and brick
  columns as specifications.
- `src/opt/laws.rs`, `placement.rs`, `cover.rs`: what the passes keep: counts
  of merged tiles, tiles within the map, and an exact cover of the map.
