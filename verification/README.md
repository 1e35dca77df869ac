# noiter

A falling-sand world: a 256 x 256 map of chunks of 256 x 256 cells, simulated frame by
frame, with physics colliders that follow the solid cells.

- `src/` is the library, verified with Verus: grids and bounded grids (`matrix`), cells and
  their kinds (`cell`), chunks and their collision shapes (`chunk`), the chunk map and its
  consistency with the shapes (`chunk_map`), the simulations (`simulate_world`,
  `neighbor_simulation`, `cell_gravity`), line and circle walks (`shapes`), run-length
  storage of chunks (`pixel_run`), a map with a slot per loaded cell (`uninit_cell_map`),
  unloading and loading the chunks around the view (`load_chunks`), and the arithmetic
  behind drawing the world, the pointer's brush and label, the camera's zoom and the
  colliders' updates.
- `app/` is the game around it, on Bevy and Avian: window, input, files and physics.
- `tests/` exercises the library.
