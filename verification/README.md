# voxel_game

A small voxel game built on Bevy and Avian physics, whose world logic is a
verified library.

- `src/` is the library, checked by Verus:
  - `chunk.rs` fills chunks with terrain from column surface heights, assembles a
    chunk with its 26 neighbours, and builds the face-culled mesh of a
    neighbourhood (`generate_chunk_data`, `generate_chunk`, `generate_chunk_mesh`);
  - `mesh.rs` describes the mesh data (vertices, normals, per-face block types,
    triangle indices), the visible faces of a neighbourhood, and the laws of the mesh;
  - `world.rs` plans chunk streaming around the player: which loaded chunks to
    unload, which positions are missing, and which of them to generate first;
  - `player_character.rs` holds the cursor grab toggle.
- `app/` is the game: the Bevy systems, Perlin terrain noise, conversion of the
  mesh data to a render mesh with texture coordinates, physics and input.
- `tests/` runs the library on concrete worlds.
