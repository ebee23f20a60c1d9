//! Game rules of a voxel adventure: blocks and chunks, terrain filling,
//! inventory and crafting, spell loadouts, save-file formats and the
//! planning of which chunks to stream in.

pub mod block;
pub mod inventory;
pub mod crafting;
pub mod chunk;
pub mod mesh;
pub mod quads;
pub mod generation;
pub mod race;
pub mod spells;
pub mod creatures;
pub mod terraform;
pub mod text;
pub mod save;
pub mod streaming;
pub mod lod;
pub mod ray;
pub mod breaking;
pub mod flow;
