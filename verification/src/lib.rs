//! Terrain generation, face-culled meshing and chunk streaming for a voxel world.

pub mod world;
pub mod chunk;
pub mod mesh;
pub mod player_character;
