//! Block kinds, their atlas tiles and their stable numeric ids.

use vstd::prelude::*;

verus! {

/// Horizontal side of a chunk, in blocks.
pub const CHUNK_SIZE: usize = 16;
/// Height of a chunk, in blocks.
pub const CHUNK_HEIGHT: usize = 64;

/// Number of tiles in the horizontal block atlas.
pub const NUM_TILES: usize = 11;

pub const TILE_GRASS_TOP: usize = 0;
pub const TILE_GRASS_SIDE: usize = 1;
pub const TILE_DIRT: usize = 2;
pub const TILE_STONE: usize = 3;
pub const TILE_SAND: usize = 4;
pub const TILE_SNOW: usize = 5;
pub const TILE_WOOD_SIDE: usize = 6;
pub const TILE_WOOD_TOP: usize = 7;
pub const TILE_LEAVES: usize = 8;
pub const TILE_PLANKS: usize = 9;
pub const TILE_ICE: usize = 10;

/// A voxel of the world.
#[derive(Debug, Clone, Copy, PartialEq, Eq, Hash, Structural)]
pub enum Block {
    Air,
    Grass,
    Dirt,
    Stone,
    Sand,
    Snow,
    Wood,
    Leaves,
    Planks,
    Ice,
}

/// Stable id of a block, as written in save files.
pub open spec fn spec_block_id(b: Block) -> u8 {
    match b {
        Block::Air => 0,
        Block::Grass => 1,
        Block::Dirt => 2,
        Block::Stone => 3,
        Block::Sand => 4,
        Block::Snow => 5,
        Block::Wood => 6,
        Block::Leaves => 7,
        Block::Planks => 8,
        Block::Ice => 9,
    }
}

/// Block that a stored id stands for; ids without a block read as Air.
pub open spec fn spec_id_block(id: u8) -> Block {
    if id == 1 {
        Block::Grass
    } else if id == 2 {
        Block::Dirt
    } else if id == 3 {
        Block::Stone
    } else if id == 4 {
        Block::Sand
    } else if id == 5 {
        Block::Snow
    } else if id == 6 {
        Block::Wood
    } else if id == 7 {
        Block::Leaves
    } else if id == 8 {
        Block::Planks
    } else if id == 9 {
        Block::Ice
    } else {
        Block::Air
    }
}

pub open spec fn spec_tile_top(b: Block) -> usize {
    match b {
        Block::Grass => TILE_GRASS_TOP,
        Block::Dirt => TILE_DIRT,
        Block::Stone => TILE_STONE,
        Block::Sand => TILE_SAND,
        Block::Snow => TILE_SNOW,
        Block::Wood => TILE_WOOD_TOP,
        Block::Leaves => TILE_LEAVES,
        Block::Planks => TILE_PLANKS,
        Block::Ice => TILE_ICE,
        Block::Air => 0,
    }
}

pub open spec fn spec_tile_side(b: Block) -> usize {
    match b {
        Block::Grass => TILE_GRASS_SIDE,
        Block::Dirt => TILE_DIRT,
        Block::Stone => TILE_STONE,
        Block::Sand => TILE_SAND,
        Block::Snow => TILE_SNOW,
        Block::Wood => TILE_WOOD_SIDE,
        Block::Leaves => TILE_LEAVES,
        Block::Planks => TILE_PLANKS,
        Block::Ice => TILE_ICE,
        Block::Air => 0,
    }
}

pub open spec fn spec_tile_bottom(b: Block) -> usize {
    match b {
        Block::Grass | Block::Dirt => TILE_DIRT,
        Block::Stone => TILE_STONE,
        Block::Sand => TILE_SAND,
        Block::Snow => TILE_DIRT,
        Block::Wood => TILE_WOOD_TOP,
        Block::Leaves => TILE_LEAVES,
        Block::Planks => TILE_PLANKS,
        Block::Ice => TILE_ICE,
        Block::Air => 0,
    }
}

impl Block {
    /// A block is solid (stops light, rays and walkers) unless it is Air.
    pub fn is_solid(self) -> (r: bool)
        ensures
            r == (self != Block::Air),
    {
        !matches!(self, Block::Air)
    }

    /// Atlas tile shown on the top face.
    pub fn tile_top(self) -> (t: usize)
        ensures
            t == spec_tile_top(self),
            t < NUM_TILES,
    {
        match self {
            Block::Grass => TILE_GRASS_TOP,
            Block::Dirt => TILE_DIRT,
            Block::Stone => TILE_STONE,
            Block::Sand => TILE_SAND,
            Block::Snow => TILE_SNOW,
            Block::Wood => TILE_WOOD_TOP,
            Block::Leaves => TILE_LEAVES,
            Block::Planks => TILE_PLANKS,
            Block::Ice => TILE_ICE,
            Block::Air => 0,
        }
    }

    /// Atlas tile shown on the four side faces.
    pub fn tile_side(self) -> (t: usize)
        ensures
            t == spec_tile_side(self),
            t < NUM_TILES,
    {
        match self {
            Block::Grass => TILE_GRASS_SIDE,
            Block::Dirt => TILE_DIRT,
            Block::Stone => TILE_STONE,
            Block::Sand => TILE_SAND,
            Block::Snow => TILE_SNOW,
            Block::Wood => TILE_WOOD_SIDE,
            Block::Leaves => TILE_LEAVES,
            Block::Planks => TILE_PLANKS,
            Block::Ice => TILE_ICE,
            Block::Air => 0,
        }
    }

    /// Atlas tile shown on the bottom face: grass and snow show dirt below.
    pub fn tile_bottom(self) -> (t: usize)
        ensures
            t == spec_tile_bottom(self),
            t < NUM_TILES,
    {
        match self {
            Block::Grass | Block::Dirt => TILE_DIRT,
            Block::Stone => TILE_STONE,
            Block::Sand => TILE_SAND,
            Block::Snow => TILE_DIRT,
            Block::Wood => TILE_WOOD_TOP,
            Block::Leaves => TILE_LEAVES,
            Block::Planks => TILE_PLANKS,
            Block::Ice => TILE_ICE,
            Block::Air => 0,
        }
    }
}

/// Stable numeric id of a block, used by the save files.
pub fn block_to_id(b: Block) -> (id: u8)
    ensures
        id == spec_block_id(b),
        id <= 9,
{
    match b {
        Block::Air => 0,
        Block::Grass => 1,
        Block::Dirt => 2,
        Block::Stone => 3,
        Block::Sand => 4,
        Block::Snow => 5,
        Block::Wood => 6,
        Block::Leaves => 7,
        Block::Planks => 8,
        Block::Ice => 9,
    }
}

/// Block of a stored id; unknown ids read back as Air.
pub fn id_to_block(id: u8) -> (b: Block)
    ensures
        b == spec_id_block(id),
{
    match id {
        1 => Block::Grass,
        2 => Block::Dirt,
        3 => Block::Stone,
        4 => Block::Sand,
        5 => Block::Snow,
        6 => Block::Wood,
        7 => Block::Leaves,
        8 => Block::Planks,
        9 => Block::Ice,
        _ => Block::Air,
    }
}

/// Reading back the id of a block gives the same block.
pub proof fn lemma_block_id_roundtrip(b: Block)
    ensures
        spec_id_block(spec_block_id(b)) == b,
{
}

/// Every id up to 9 names exactly one block, and writing that block gives the
/// id back; every other id reads as Air.
pub proof fn lemma_id_block_roundtrip(id: u8)
    ensures
        id <= 9 ==> spec_block_id(spec_id_block(id)) == id,
        id > 9 ==> spec_id_block(id) == Block::Air,
{
}

/// Name of a block shown under the hotbar; nothing for an empty slot.
pub open spec fn spec_block_name(b: Option<Block>) -> Seq<char> {
    match b {
        Some(Block::Grass) => "Herbe"@,
        Some(Block::Dirt) => "Terre"@,
        Some(Block::Stone) => "Pierre"@,
        Some(Block::Sand) => "Sable"@,
        Some(Block::Snow) => "Neige"@,
        Some(Block::Wood) => "Bois"@,
        Some(Block::Leaves) => "Feuilles"@,
        Some(Block::Planks) => "Planches"@,
        Some(Block::Ice) => "Glace"@,
        Some(Block::Air) => "Air"@,
        None => ""@,
    }
}

/// Name of a block in inventory slots; air is shown as empty ("Vide").
pub open spec fn spec_block_short_name(b: Block) -> Seq<char> {
    match b {
        Block::Air => "Vide"@,
        _ => spec_block_name(Some(b)),
    }
}

pub fn block_name(b: Option<Block>) -> (s: &'static str)
    ensures
        s@ == spec_block_name(b),
{
    match b {
        Some(Block::Grass) => "Herbe",
        Some(Block::Dirt) => "Terre",
        Some(Block::Stone) => "Pierre",
        Some(Block::Sand) => "Sable",
        Some(Block::Snow) => "Neige",
        Some(Block::Wood) => "Bois",
        Some(Block::Leaves) => "Feuilles",
        Some(Block::Planks) => "Planches",
        Some(Block::Ice) => "Glace",
        Some(Block::Air) => "Air",
        None => "",
    }
}

pub fn block_short_name(b: Block) -> (s: &'static str)
    ensures
        s@ == spec_block_short_name(b),
{
    match b {
        Block::Grass => "Herbe",
        Block::Dirt => "Terre",
        Block::Stone => "Pierre",
        Block::Sand => "Sable",
        Block::Snow => "Neige",
        Block::Wood => "Bois",
        Block::Leaves => "Feuilles",
        Block::Planks => "Planches",
        Block::Ice => "Glace",
        Block::Air => "Vide",
    }
}

} // verus!
