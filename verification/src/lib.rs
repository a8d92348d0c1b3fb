//! Chunked terrain storage, marching-squares topology, player input handling
//! and a small slot-based entity store for a 2D digging game.
pub mod world;
pub mod grid;
pub mod key_laws;
pub mod world_mesh;
pub mod square_march;
pub mod ecs;
pub mod controller;
pub mod systems;
pub mod textures;
