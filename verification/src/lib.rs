//! Storage and streaming of procedurally generated voxel terrain.
//!
//! The world is a grid of cubes at power-of-two scales ([`bounds`]). A
//! sparse octree ([`tree`]) keeps the voxel of every cube that was asked
//! for; the terrain ([`terrain`]) fills it from a field sampler on demand
//! and lets brushes ([`brush`]) edit it. Blocks of terrain
//! ([`terrain_block`], [`chunk`]) are made of the voxels of one place at
//! one level of detail ([`lod`]), kept until an edit outdates them
//! ([`block_cache`], [`gaia_update`]), and written as bytes for sending
//! ([`serialize`]). What the server, a connecting client and the view loop
//! do about each message or event is decided here ([`server_update`],
//! [`run`], [`view_thread`]) and carried out by the program around the
//! library.

pub mod block_cache;
pub mod block_position;
pub mod bounds;
pub mod brush;
pub mod chunk;
pub mod entity;
pub mod error;
pub mod gaia_update;
pub mod geometry;
pub mod grid;
pub mod lod;
pub mod protocol;
pub mod run;
pub mod scale;
pub mod serialize;
pub mod server_update;
pub mod terrain;
pub mod terrain_block;
pub mod tree;
pub mod view_thread;
