use my_magic_adventure::block::{
    block_name, block_short_name, block_to_id, id_to_block, Block, CHUNK_HEIGHT, CHUNK_SIZE, TILE_DIRT, TILE_STONE,
    TILE_GRASS_SIDE, TILE_GRASS_TOP, TILE_ICE, TILE_WOOD_SIDE, TILE_WOOD_TOP,
};
use my_magic_adventure::chunk::{
    apply_chunk_edits, is_solid_at, locate, top_solid, BlockEdits, BlockPos, ChunkBlocks, CHUNK_VOLUME,
};
use my_magic_adventure::generation::{
    biome_surface, generate_chunk_blocks, Biome, ColumnSample, CHUNK_COLUMNS,
};
use my_magic_adventure::mesh::{visible_faces, FaceDir};
use my_magic_adventure::quads::{merged_faces, Quad};

const ALL_BLOCKS: [Block; 10] = [
    Block::Air,
    Block::Grass,
    Block::Dirt,
    Block::Stone,
    Block::Sand,
    Block::Snow,
    Block::Wood,
    Block::Leaves,
    Block::Planks,
    Block::Ice,
];

fn pos(x: i32, y: i32, z: i32) -> BlockPos {
    BlockPos { x, y, z }
}

#[test]
fn block_ids_round_trip() {
    for (i, b) in ALL_BLOCKS.iter().enumerate() {
        assert_eq!(block_to_id(*b), i as u8);
        assert_eq!(id_to_block(block_to_id(*b)), *b);
    }
    assert_eq!(id_to_block(10), Block::Air);
    assert_eq!(id_to_block(255), Block::Air);
}

#[test]
fn block_tiles() {
    assert_eq!(Block::Grass.tile_top(), TILE_GRASS_TOP);
    assert_eq!(Block::Grass.tile_side(), TILE_GRASS_SIDE);
    assert_eq!(Block::Grass.tile_bottom(), TILE_DIRT);
    assert_eq!(Block::Snow.tile_bottom(), TILE_DIRT);
    assert_eq!(Block::Wood.tile_top(), TILE_WOOD_TOP);
    assert_eq!(Block::Wood.tile_side(), TILE_WOOD_SIDE);
    assert_eq!(Block::Wood.tile_bottom(), TILE_WOOD_TOP);
    assert_eq!(Block::Ice.tile_side(), TILE_ICE);
    assert_eq!(Block::Air.tile_top(), 0);
    assert!(!Block::Air.is_solid());
    assert!(Block::Leaves.is_solid());
}

#[test]
fn block_names() {
    assert_eq!(block_name(Some(Block::Grass)), "Herbe");
    assert_eq!(block_name(Some(Block::Air)), "Air");
    assert_eq!(block_name(None), "");
    assert_eq!(block_short_name(Block::Air), "Vide");
    assert_eq!(block_short_name(Block::Planks), "Planches");
}

#[test]
fn locate_rounds_towards_minus_infinity() {
    assert_eq!(locate(pos(-1, 5, 17)), Some(((-1, 1), (15, 5, 1))));
    assert_eq!(locate(pos(16, 0, -16)), Some(((1, -1), (0, 0, 0))));
    assert_eq!(locate(pos(-17, 63, 0)), Some(((-2, 0), (15, 63, 0))));
    assert_eq!(locate(pos(0, 64, 0)), None);
    assert_eq!(locate(pos(0, -1, 0)), None);
}

#[test]
fn chunk_cells_read_back() {
    let mut c = ChunkBlocks::new_air();
    assert_eq!(c.get(3, 4, 5), Block::Air);
    c.set(3, 4, 5, Block::Stone);
    assert_eq!(c.get(3, 4, 5), Block::Stone);
    assert_eq!(c.get(3, 4, 6), Block::Air);
    assert_eq!(top_solid(&c, 3, 5), Some(4));
    assert_eq!(top_solid(&c, 0, 0), None);
}

#[test]
fn solidity_of_world_positions() {
    let mut c = ChunkBlocks::new_air();
    c.set(1, 2, 3, Block::Dirt);
    assert!(is_solid_at(pos(-5, -1, 0), None));
    assert!(!is_solid_at(pos(0, 64, 0), Some(&c)));
    assert!(!is_solid_at(pos(1, 2, 3), None));
    assert!(is_solid_at(pos(1, 2, 3), Some(&c)));
    assert!(is_solid_at(pos(-15, 2, 3), Some(&c)));
    assert!(!is_solid_at(pos(1, 3, 3), Some(&c)));
}

#[test]
fn edits_keep_the_last_block_per_cell() {
    let mut e = BlockEdits::new();
    e.record(pos(1, 2, 3), Block::Stone);
    e.record(pos(1, 2, 3), Block::Air);
    e.record(pos(-1, 2, 3), Block::Sand);
    e.record(pos(0, 70, 0), Block::Sand);
    assert_eq!(e.len(), 2);
    let mine = e.for_chunk(0, 0).unwrap();
    assert_eq!(mine, vec![((1, 2, 3), Block::Air)]);
    let other = e.for_chunk(-1, 0).unwrap();
    assert_eq!(other, vec![((15, 2, 3), Block::Sand)]);
    assert!(e.for_chunk(5, 5).is_none());
    e.clear();
    assert_eq!(e.len(), 0);
}

#[test]
fn edits_are_written_over_generated_blocks() {
    let mut c = ChunkBlocks::new_air();
    c.set(0, 0, 0, Block::Stone);
    apply_chunk_edits(&mut c, &vec![((0, 0, 0), Block::Air), ((2, 3, 4), Block::Planks)]);
    assert_eq!(c.get(0, 0, 0), Block::Air);
    assert_eq!(c.get(2, 3, 4), Block::Planks);
    assert_eq!(c.get(1, 1, 1), Block::Air);
}

fn flat(height: usize, biome: Biome) -> Vec<ColumnSample> {
    vec![ColumnSample { height, biome, ice: false, tree: false }; CHUNK_COLUMNS]
}

#[test]
fn plains_column_layers() {
    let c = generate_chunk_blocks(&flat(10, Biome::Plains));
    for y in 0..7 {
        assert_eq!(c.get(4, y, 9), Block::Stone, "y = {}", y);
    }
    for y in 7..10 {
        assert_eq!(c.get(4, y, 9), Block::Dirt, "y = {}", y);
    }
    assert_eq!(c.get(4, 10, 9), Block::Grass);
    assert_eq!(c.get(4, 11, 9), Block::Air);
    assert_eq!(c.get(15, CHUNK_HEIGHT - 1, 15), Block::Air);
}

#[test]
fn low_columns_and_desert_sand() {
    let c = generate_chunk_blocks(&flat(2, Biome::Desert));
    assert_eq!(c.get(0, 0, 0), Block::Stone);
    assert_eq!(c.get(0, 1, 0), Block::Sand);
    assert_eq!(c.get(0, 2, 0), Block::Sand);
    assert_eq!(c.get(0, 3, 0), Block::Air);
    assert_eq!(biome_surface(Biome::Tundra), Block::Snow);
    assert_eq!(biome_surface(Biome::Swamp), Block::Dirt);
    assert_eq!(biome_surface(Biome::Forest), Block::Grass);
}

#[test]
fn tundra_ice_only_where_frozen() {
    let mut cols = flat(20, Biome::Tundra);
    cols[3 * 16 + 4].ice = true;
    let c = generate_chunk_blocks(&cols);
    assert_eq!(c.get(3, 20, 4), Block::Ice);
    assert_eq!(c.get(3, 20, 5), Block::Snow);
    let mut top = flat(63, Biome::Tundra);
    top[0].ice = true;
    let c = generate_chunk_blocks(&top);
    assert_eq!(c.get(0, 63, 0), Block::Snow);
}

#[test]
fn forest_tree_shape() {
    let mut cols = flat(20, Biome::Forest);
    cols[5 * 16 + 5].tree = true;
    let c = generate_chunk_blocks(&cols);
    for y in 21..=24 {
        assert_eq!(c.get(5, y, 5), Block::Wood, "trunk at {}", y);
    }
    assert_eq!(c.get(5, 25, 5), Block::Leaves);
    assert_eq!(c.get(5, 26, 5), Block::Leaves);
    assert_eq!(c.get(5, 27, 5), Block::Air);
    for (x, z) in [(4, 4), (4, 6), (6, 4), (6, 6), (5, 4), (4, 5)] {
        assert_eq!(c.get(x, 24, z), Block::Leaves);
        assert_eq!(c.get(x, 25, z), Block::Leaves);
        assert_eq!(c.get(x, 26, z), Block::Air);
    }
    assert_eq!(c.get(7, 24, 5), Block::Air);
    assert_eq!(c.get(5, 23, 4), Block::Air);
}

#[test]
fn trees_need_room_and_leafy_biomes() {
    let mut cols = flat(58, Biome::Forest);
    cols[0].tree = true;
    let c = generate_chunk_blocks(&cols);
    assert_eq!(c.get(0, 59, 0), Block::Air);
    let mut cols = flat(20, Biome::Plains);
    cols[0].tree = true;
    let c = generate_chunk_blocks(&cols);
    assert_eq!(c.get(0, 21, 0), Block::Air);
    let mut cols = flat(57, Biome::Swamp);
    cols[0].tree = true;
    let c = generate_chunk_blocks(&cols);
    assert_eq!(c.get(0, 58, 0), Block::Wood);
    assert_eq!(c.get(0, 63, 0), Block::Leaves);
}

#[test]
fn tree_on_chunk_edge_is_cut_and_later_trunk_wins() {
    let mut cols = flat(10, Biome::Forest);
    cols[0].tree = true;
    cols[1].tree = true;
    let c = generate_chunk_blocks(&cols);
    // the second tree's trunk replaces the first one's leaves
    assert_eq!(c.get(0, 14, 1), Block::Wood);
    // the first tree's trunk stays under the second one's canopy
    assert_eq!(c.get(0, 14, 0), Block::Wood);
    assert_eq!(c.get(1, 15, 0), Block::Leaves);
}

#[test]
fn every_generated_column_rests_on_stone() {
    let mut cols = flat(3, Biome::Swamp);
    for k in 0..CHUNK_COLUMNS {
        cols[k].tree = k % 3 == 0;
        cols[k].height = 3 + k % 50;
    }
    let c = generate_chunk_blocks(&cols);
    for x in 0..CHUNK_SIZE {
        for z in 0..CHUNK_SIZE {
            assert_eq!(c.get(x, 0, z), Block::Stone);
        }
    }
}

#[test]
fn single_block_shows_six_faces() {
    let mut c = ChunkBlocks::new_air();
    c.set(5, 5, 5, Block::Grass);
    let faces = visible_faces(&c);
    assert_eq!(faces.len(), 6);
    let dirs: Vec<FaceDir> = faces.iter().map(|f| f.dir).collect();
    assert_eq!(
        dirs,
        vec![FaceDir::Up, FaceDir::Down, FaceDir::PosX, FaceDir::NegX, FaceDir::PosZ, FaceDir::NegZ]
    );
    assert_eq!(faces[0].tile, TILE_GRASS_TOP);
    assert_eq!(faces[1].tile, TILE_DIRT);
    assert_eq!(faces[2].tile, TILE_GRASS_SIDE);
    assert!(faces.iter().all(|f| f.x == 5 && f.y == 5 && f.z == 5));
}

#[test]
fn touching_blocks_hide_shared_faces() {
    let mut c = ChunkBlocks::new_air();
    c.set(5, 5, 5, Block::Stone);
    c.set(5, 6, 5, Block::Stone);
    let faces = visible_faces(&c);
    assert_eq!(faces.len(), 10);
    assert!(!faces.iter().any(|f| f.y == 5 && f.dir == FaceDir::Up));
    assert!(!faces.iter().any(|f| f.y == 6 && f.dir == FaceDir::Down));
}

#[test]
fn chunk_border_faces_are_drawn() {
    let mut cells = vec![Block::Stone; CHUNK_VOLUME];
    cells[0] = Block::Stone;
    let c = ChunkBlocks::from_cells(cells);
    let faces = visible_faces(&c);
    // a full chunk shows only its six outer walls
    assert_eq!(faces.len(), 2 * (16 * 16) + 4 * (16 * 64));
}

#[test]
fn generated_chunk_shape() {
    let mut cols = flat(3, Biome::Forest);
    for k in 0..CHUNK_COLUMNS {
        cols[k].tree = k % 5 == 0;
        cols[k].height = 2 + (k * 7) % 60;
        cols[k].biome = if k % 2 == 0 { Biome::Forest } else { Biome::Tundra };
        cols[k].ice = k % 3 == 0;
    }
    let c = generate_chunk_blocks(&cols);
    for x in 0..CHUNK_SIZE {
        for z in 0..CHUNK_SIZE {
            let h = cols[x * 16 + z].height;
            for y in 0..CHUNK_HEIGHT {
                let b = c.get(x, y, z);
                assert_ne!(b, Block::Planks);
                if y <= h {
                    assert_ne!(b, Block::Air, "hole at {} {} {}", x, y, z);
                } else {
                    assert!(matches!(b, Block::Air | Block::Wood | Block::Leaves), "{:?} above ground", b);
                }
            }
        }
    }
    // a lower neighbour of a tree carries leaves above its own surface
    let mut cols = flat(10, Biome::Forest);
    cols[5 * 16 + 5].height = 20;
    cols[5 * 16 + 5].tree = true;
    let c = generate_chunk_blocks(&cols);
    assert_eq!(c.get(4, 24, 5), Block::Leaves);
    assert_eq!(c.get(4, 11, 5), Block::Air);
}

#[test]
fn stone_slab_merges_into_six_rectangles() {
    let mut c = ChunkBlocks::new_air();
    for x in 0..CHUNK_SIZE {
        for z in 0..CHUNK_SIZE {
            c.set(x, 0, z, Block::Stone);
        }
    }
    assert_eq!(visible_faces(&c).len(), 16 * 16 * 2 + 4 * 16);
    let quads = merged_faces(&c);
    assert_eq!(quads.len(), 6);
    assert_eq!(quads[0], Quad { dir: FaceDir::Up, layer: 0, u: 0, v: 0, du: 16, dv: 16, tile: TILE_STONE });
    assert_eq!(quads[1], Quad { dir: FaceDir::Down, layer: 0, u: 0, v: 0, du: 16, dv: 16, tile: TILE_STONE });
    assert_eq!(quads[2], Quad { dir: FaceDir::PosX, layer: 15, u: 0, v: 0, du: 1, dv: 16, tile: TILE_STONE });
    assert_eq!(quads[3], Quad { dir: FaceDir::NegX, layer: 0, u: 0, v: 0, du: 1, dv: 16, tile: TILE_STONE });
    assert_eq!(quads[4], Quad { dir: FaceDir::PosZ, layer: 15, u: 0, v: 0, du: 16, dv: 1, tile: TILE_STONE });
    assert_eq!(quads[5], Quad { dir: FaceDir::NegZ, layer: 0, u: 0, v: 0, du: 16, dv: 1, tile: TILE_STONE });
}

#[test]
fn merging_keeps_tiles_and_shapes_apart() {
    // an L of stone on the floor and one grass block: runs of one tile only
    let mut c = ChunkBlocks::new_air();
    c.set(0, 0, 0, Block::Stone);
    c.set(0, 0, 1, Block::Stone);
    c.set(1, 0, 0, Block::Stone);
    c.set(3, 0, 3, Block::Grass);
    let ups: Vec<Quad> = merged_faces(&c).into_iter().filter(|q| q.dir == FaceDir::Up).collect();
    assert_eq!(
        ups,
        vec![
            Quad { dir: FaceDir::Up, layer: 0, u: 0, v: 0, du: 1, dv: 2, tile: TILE_STONE },
            Quad { dir: FaceDir::Up, layer: 0, u: 1, v: 0, du: 1, dv: 1, tile: TILE_STONE },
            Quad { dir: FaceDir::Up, layer: 0, u: 3, v: 3, du: 1, dv: 1, tile: TILE_GRASS_TOP },
        ]
    );
    // every visible face is covered exactly once
    let quads = merged_faces(&c);
    let covered: usize = quads.iter().map(|q| q.du * q.dv).sum();
    assert_eq!(covered, visible_faces(&c).len());
}
