# voxel_clipmap

The core of an infinite voxel terrain renderer, verified with Verus.

The world is drawn as a geometry clipmap: concentric rings of 32³-voxel
chunks around the camera, one ring per level of detail, each level doubling
the voxel size. A coarser ring leaves out the chunks that the finer ring
already covers. Chunks are filled from a terrain height per column and
meshed by face culling into 32-bit packed vertices.

- `src/grid.rs`: chunk sizes and the floor division from a world cell to
  its chunk at a level.
- `src/clipmap.rs`: the ring of each level (carved so that no two levels
  overlap), the per-level chunk map and its update as the camera moves,
  which hands the entities of leaving chunks to entering ones, and the laws
  that relate levels.
- `src/chunk.rs`: voxels, chunks, the voxel index layout, the world column
  of each terrain height and terrain fill.
- `src/mesh.rs`: vertex packing, face culling and the index list, with the
  laws on packed vertices and indices.
- `src/input.rs`: key and mouse-button naming, input events to actions, and
  the cursor lock.
- `app/`: the Bevy and Tauri program around the library (rendering, ECS
  systems, noise sampling, window and input plumbing).
