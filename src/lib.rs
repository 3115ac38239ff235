//! A voxel world: chunked block storage, deterministic procedural
//! generation, streaming of chunks around a centre, spatial block queries
//! and the face choice of player-versus-block collision.
pub mod block;
pub mod coords;
pub mod subchunk;
pub mod chunk;
pub mod random;
pub mod noise;
pub mod generation;
pub mod terrain;
pub mod collision;
pub mod mesh;
