//! Filling a chunk with terrain: stone, soil and a biome's surface in each
//! column, ice on tundra, then small trees in forests and swamps.
//!
//! What is drawn from noise (a column's height and biome, whether its tundra
//! surface freezes, whether a tree grows on it) comes in as plain values;
//! this module decides which block stands in every cell.

use vstd::prelude::*;

use crate::block::{Block, CHUNK_HEIGHT, CHUNK_SIZE};
use crate::chunk::{cell_index, in_chunk, ChunkBlocks, CHUNK_VOLUME};
use crate::mesh::{cell_x, cell_y, cell_z, lemma_cell_decompose};

verus! {

/// Climate of a column.
#[derive(Debug, Clone, Copy, PartialEq, Eq, Structural)]
pub enum Biome {
    Plains,
    Forest,
    Desert,
    Tundra,
    Swamp,
}

/// What the noise decided for one column of a chunk.
#[derive(Debug, Clone, Copy, PartialEq, Eq, Structural)]
pub struct ColumnSample {
    /// Height of the surface block.
    pub height: usize,
    pub biome: Biome,
    /// The tundra surface of this column turns to ice.
    pub ice: bool,
    /// A tree grows here, if the biome has trees.
    pub tree: bool,
}

/// Number of columns in a chunk.
pub const CHUNK_COLUMNS: usize = 256;

/// Block on top of a column.
pub open spec fn spec_biome_surface(biome: Biome) -> Block {
    match biome {
        Biome::Plains | Biome::Forest => Block::Grass,
        Biome::Desert => Block::Sand,
        Biome::Tundra => Block::Snow,
        Biome::Swamp => Block::Dirt,
    }
}

/// Block of the few layers under the surface.
pub open spec fn spec_subsoil(biome: Biome) -> Block {
    match biome {
        Biome::Desert => Block::Sand,
        _ => Block::Dirt,
    }
}

/// Block on top of a column of the given biome.
pub fn biome_surface(biome: Biome) -> (b: Block)
    ensures
        b == spec_biome_surface(biome),
{
    match biome {
        Biome::Plains | Biome::Forest => Block::Grass,
        Biome::Desert => Block::Sand,
        Biome::Tundra => Block::Snow,
        Biome::Swamp => Block::Dirt,
    }
}

fn subsoil(biome: Biome) -> (b: Block)
    ensures
        b == spec_subsoil(biome),
{
    match biome {
        Biome::Desert => Block::Sand,
        _ => Block::Dirt,
    }
}

/// The top block of the column is ice.
pub open spec fn freezes(col: ColumnSample) -> bool {
    col.biome == Biome::Tundra && col.height + 1 < CHUNK_HEIGHT && col.ice
}

/// Block at height `y` of a column before trees grow: stone at the bottom
/// and up to three layers under the surface, soil in those layers, the
/// surface block (or ice), then air.
pub open spec fn column_block(col: ColumnSample, y: int) -> Block {
    let h = col.height as int;
    if y == 0 {
        Block::Stone
    } else if y < h - 3 {
        Block::Stone
    } else if y < h {
        spec_subsoil(col.biome)
    } else if y == h {
        if freezes(col) {
            Block::Ice
        } else {
            spec_biome_surface(col.biome)
        }
    } else {
        Block::Air
    }
}

/// A tree grows on the column: only in forests and swamps, and only where
/// it fits under the top of the chunk.
pub open spec fn grows_tree(col: ColumnSample) -> bool {
    (col.biome == Biome::Forest || col.biome == Biome::Swamp) && col.height + 6 < CHUNK_HEIGHT
        && col.tree
}

/// Block of cell (x, y, z) once a tree stands on local column (lx, lz) whose
/// surface is at `top`, given the block `old` there before: a trunk of four
/// wood blocks, two 3 x 3 layers of leaves around its top that leave wood in
/// place, and one leaf above.
pub open spec fn tree_cell(old: Block, x: int, y: int, z: int, lx: int, lz: int, top: int) -> Block {
    if x == lx && z == lz && top + 1 <= y <= top + 4 {
        Block::Wood
    } else if x == lx && z == lz && y == top + 6 {
        Block::Leaves
    } else if lx - 1 <= x <= lx + 1 && lz - 1 <= z <= lz + 1 && top + 4 <= y <= top + 5
        && old != Block::Wood {
        Block::Leaves
    } else {
        old
    }
}

/// The cells of a chunk after a tree is planted on column (lx, lz).
pub open spec fn spec_place_tree(s: Seq<Block>, lx: int, lz: int, top: int) -> Seq<Block> {
    Seq::new(
        s.len(),
        |i: int| tree_cell(s[i], cell_x(i), cell_y(i), cell_z(i), lx, lz, top),
    )
}

/// The terrain of a chunk before trees, from its columns (column (x, z) at
/// index x * 16 + z).
pub open spec fn base_terrain(cols: Seq<ColumnSample>) -> Seq<Block> {
    Seq::new(
        CHUNK_VOLUME as nat,
        |i: int| column_block(cols[cell_x(i) * 16 + cell_z(i)], cell_y(i)),
    )
}

/// The terrain after the trees of the first `n` columns, planted in column
/// order.
pub open spec fn with_trees(cols: Seq<ColumnSample>, n: nat) -> Seq<Block>
    decreases n,
{
    if n == 0 {
        base_terrain(cols)
    } else {
        let k = n - 1;
        let prev = with_trees(cols, k as nat);
        if grows_tree(cols[k]) {
            spec_place_tree(prev, k / 16, k % 16, cols[k].height as int)
        } else {
            prev
        }
    }
}

/// The blocks of a generated chunk.
pub open spec fn spec_generate(cols: Seq<ColumnSample>) -> Seq<Block> {
    with_trees(cols, CHUNK_COLUMNS as nat)
}

proof fn lemma_floor_kept(cols: Seq<ColumnSample>, n: nat, x: int, z: int)
    requires
        cols.len() == CHUNK_COLUMNS,
        n <= CHUNK_COLUMNS,
        0 <= x < CHUNK_SIZE,
        0 <= z < CHUNK_SIZE,
    ensures
        with_trees(cols, n).len() == CHUNK_VOLUME,
        with_trees(cols, n)[cell_index(x, 0, z)] == Block::Stone,
    decreases n,
{
    lemma_cell_decompose(cell_index(x, 0, z));
    if n > 0 {
        lemma_floor_kept(cols, (n - 1) as nat, x, z);
    }
}

/// Every column of a generated chunk rests on stone: trees grow above the
/// surface and never reach the bottom layer.
pub proof fn law_generated_floor_is_stone(cols: Seq<ColumnSample>, x: int, z: int)
    requires
        cols.len() == CHUNK_COLUMNS,
        0 <= x < CHUNK_SIZE,
        0 <= z < CHUNK_SIZE,
    ensures
        spec_generate(cols)[cell_index(x, 0, z)] == Block::Stone,
{
    lemma_floor_kept(cols, CHUNK_COLUMNS as nat, x, z);
}

/// What a generated cell may hold at height `y` of a column whose surface
/// is at height `h`: a block at or under the surface, only air, wood or
/// leaves above it, and never planks.
pub open spec fn shaped_cell(b: Block, y: int, h: int) -> bool {
    &&& y <= h ==> b != Block::Air
    &&& y > h ==> (b == Block::Air || b == Block::Wood || b == Block::Leaves)
    &&& b != Block::Planks
}

/// Every cell of `s` is shaped for its column of `cols`.
spec fn shaped(cols: Seq<ColumnSample>, s: Seq<Block>) -> bool {
    &&& s.len() == CHUNK_VOLUME
    &&& forall|i: int|
        0 <= i < CHUNK_VOLUME ==> shaped_cell(
            #[trigger] s[i],
            cell_y(i),
            cols[cell_x(i) * 16 + cell_z(i)].height as int,
        )
}

proof fn lemma_shape_kept(cols: Seq<ColumnSample>, n: nat)
    requires
        cols.len() == CHUNK_COLUMNS,
        n <= CHUNK_COLUMNS,
    ensures
        shaped(cols, with_trees(cols, n)),
    decreases n,
{
    if n == 0 {
        let s = base_terrain(cols);
        assert forall|i: int| 0 <= i < CHUNK_VOLUME implies shaped_cell(
            #[trigger] s[i],
            cell_y(i),
            cols[cell_x(i) * 16 + cell_z(i)].height as int,
        ) by {
            lemma_cell_decompose(i);
        }
    } else {
        let k = (n - 1) as nat;
        lemma_shape_kept(cols, k);
        let prev = with_trees(cols, k);
        if grows_tree(cols[k as int]) {
            let s = with_trees(cols, n);
            assert forall|i: int| 0 <= i < CHUNK_VOLUME implies shaped_cell(
                #[trigger] s[i],
                cell_y(i),
                cols[cell_x(i) * 16 + cell_z(i)].height as int,
            ) by {
                assert(shaped_cell(prev[i], cell_y(i), cols[cell_x(i) * 16 + cell_z(i)].height as int));
            }
        }
    }
}

/// The shape of a generated chunk: every cell at or under its column's
/// surface holds a block, above the surface there is only air, wood or
/// leaves, no cell holds planks, and the bottom layer is stone.
pub proof fn law_generated_chunk_shape(cols: Seq<ColumnSample>, x: int, y: int, z: int)
    requires
        cols.len() == CHUNK_COLUMNS,
        in_chunk(x, y, z),
    ensures
        shaped_cell(spec_generate(cols)[cell_index(x, y, z)], y, cols[x * 16 + z].height as int),
        y == 0 ==> spec_generate(cols)[cell_index(x, y, z)] == Block::Stone,
{
    lemma_shape_kept(cols, CHUNK_COLUMNS as nat);
    let i = cell_index(x, y, z);
    lemma_cell_decompose(i);
    assert(cell_x(i) == x && cell_y(i) == y && cell_z(i) == z);
    assert(shaped_cell(spec_generate(cols)[i], cell_y(i), cols[cell_x(i) * 16 + cell_z(i)].height as int));
    if y == 0 {
        law_generated_floor_is_stone(cols, x, z);
    }
}

/// Height of the surface of the column that cell `i` belongs to.
spec fn cell_height(cols: Seq<ColumnSample>, i: int) -> int {
    cols[cell_x(i) * 16 + cell_z(i)].height as int
}

proof fn lemma_under_surface_kept(cols: Seq<ColumnSample>, n: nat)
    requires
        cols.len() == CHUNK_COLUMNS,
        n <= CHUNK_COLUMNS,
    ensures
        with_trees(cols, n).len() == CHUNK_VOLUME,
        forall|i: int|
            0 <= i < CHUNK_VOLUME && cell_y(i) <= cell_height(cols, i) ==> (#[trigger] with_trees(cols, n)[i]
                == base_terrain(cols)[i] || with_trees(cols, n)[i] == Block::Leaves),
        (forall|k: int| 0 <= k < CHUNK_COLUMNS ==> !(#[trigger] cols[k]).tree) ==> with_trees(cols, n)
            == base_terrain(cols),
    decreases n,
{
    if n > 0 {
        let k = (n - 1) as int;
        lemma_under_surface_kept(cols, (n - 1) as nat);
        let prev = with_trees(cols, (n - 1) as nat);
        if grows_tree(cols[k]) {
            let s = with_trees(cols, n);
            let (lx, lz, top) = (k / 16, k % 16, cols[k].height as int);
            assert forall|i: int|
                0 <= i < CHUNK_VOLUME && cell_y(i) <= cell_height(cols, i) implies (#[trigger] s[i]
                    == base_terrain(cols)[i] || s[i] == Block::Leaves) by {
                lemma_cell_decompose(i);
                if cell_x(i) == lx && cell_z(i) == lz {
                    assert(cell_x(i) * 16 + cell_z(i) == k);
                }
            }
        }
    }
}

/// The layers of a generated column of height `h`: stone at the bottom and
/// up to three cells under the surface, then three cells of dirt (sand in a
/// desert) right under the surface, then the surface block (grass in plains
/// and forests, sand in deserts, snow in tundra, or ice where the tundra
/// surface freezes below the top, dirt in swamps), then air. Trees only
/// ever lay leaves over a neighbouring column's cells at or under its
/// surface; a chunk with no tree has exactly these layers.
pub proof fn law_generated_column_layers(cols: Seq<ColumnSample>, x: int, y: int, z: int)
    requires
        cols.len() == CHUNK_COLUMNS,
        in_chunk(x, y, z),
    ensures
        ({
            let col = cols[x * 16 + z];
            let h = col.height as int;
            let b = spec_generate(cols)[cell_index(x, y, z)];
            let layer = if y == 0 || y < h - 3 {
                Block::Stone
            } else if y < h {
                if col.biome == Biome::Desert {
                    Block::Sand
                } else {
                    Block::Dirt
                }
            } else if y == h {
                match col.biome {
                    Biome::Plains | Biome::Forest => Block::Grass,
                    Biome::Desert => Block::Sand,
                    Biome::Tundra => if col.ice && h + 1 < CHUNK_HEIGHT {
                        Block::Ice
                    } else {
                        Block::Snow
                    },
                    Biome::Swamp => Block::Dirt,
                }
            } else {
                Block::Air
            };
            &&& y <= h ==> (b == layer || b == Block::Leaves)
            &&& (forall|k: int| 0 <= k < CHUNK_COLUMNS ==> !(#[trigger] cols[k]).tree) ==> b == layer
        }),
{
    lemma_under_surface_kept(cols, CHUNK_COLUMNS as nat);
    let i = cell_index(x, y, z);
    lemma_cell_decompose(i);
    assert(cell_x(i) == x && cell_y(i) == y && cell_z(i) == z);
    assert(cell_height(cols, i) == cols[x * 16 + z].height as int);
    assert(base_terrain(cols)[i] == column_block(cols[x * 16 + z], y));
}

fn column_block_at(col: ColumnSample, y: usize) -> (b: Block)
    ensures
        b == column_block(col, y as int),
{
    let h = col.height;
    if y == 0 {
        Block::Stone
    } else if y < h.saturating_sub(3) {
        Block::Stone
    } else if y < h {
        subsoil(col.biome)
    } else if y == h {
        if col.biome == Biome::Tundra && h < CHUNK_HEIGHT - 1 && col.ice {
            Block::Ice
        } else {
            biome_surface(col.biome)
        }
    } else {
        Block::Air
    }
}

/// Position of a canopy cell in the order the canopy is laid: layer, then
/// x, then z.
spec fn canopy_rank(x: int, y: int, z: int, lx: int, lz: int, top: int) -> int {
    (y - top - 4) * 9 + (x - lx + 1) * 3 + (z - lz + 1)
}

spec fn in_canopy(x: int, y: int, z: int, lx: int, lz: int, top: int) -> bool {
    lx - 1 <= x <= lx + 1 && lz - 1 <= z <= lz + 1 && top + 4 <= y <= top + 5
}

spec fn is_trunk(x: int, y: int, z: int, lx: int, lz: int, top: int) -> bool {
    x == lx && z == lz && top + 1 <= y <= top + 4
}

/// The cells after the first `k` canopy cells are laid over `t`.
spec fn canopy_partial(t: Seq<Block>, k: int, lx: int, lz: int, top: int) -> Seq<Block> {
    Seq::new(
        t.len(),
        |i: int|
            if in_canopy(cell_x(i), cell_y(i), cell_z(i), lx, lz, top) && canopy_rank(
                cell_x(i),
                cell_y(i),
                cell_z(i),
                lx,
                lz,
                top,
            ) < k && t[i] != Block::Wood {
                Block::Leaves
            } else {
                t[i]
            },
    )
}

proof fn lemma_canopy_step(
    before: Seq<Block>,
    after: Seq<Block>,
    t: Seq<Block>,
    k: int,
    lx: int,
    lz: int,
    top: int,
    ky: int,
    ox: int,
    oz: int,
    inside: bool,
    wrote: bool,
)
    requires
        0 <= k < 18,
        ky == k / 9,
        ox == (k / 3) % 3,
        oz == k % 3,
        0 <= lx < CHUNK_SIZE,
        0 <= lz < CHUNK_SIZE,
        0 <= top,
        top + 6 < CHUNK_HEIGHT,
        t.len() == CHUNK_VOLUME,
        before == canopy_partial(t, k, lx, lz, top),
        inside == (0 <= lx + ox - 1 < CHUNK_SIZE && 0 <= lz + oz - 1 < CHUNK_SIZE),
        wrote == (inside && before[cell_index(lx + ox - 1, top + 4 + ky, lz + oz - 1)]
            != Block::Wood),
        after == (if wrote {
            before.update(cell_index(lx + ox - 1, top + 4 + ky, lz + oz - 1), Block::Leaves)
        } else {
            before
        }),
    ensures
        after == canopy_partial(t, k + 1, lx, lz, top),
{
    let idx = cell_index(lx + ox - 1, top + 4 + ky, lz + oz - 1);
    assert(k == ky * 9 + ox * 3 + oz);
    assert forall|i: int| 0 <= i < CHUNK_VOLUME implies #[trigger] after[i] == canopy_partial(
        t,
        k + 1,
        lx,
        lz,
        top,
    )[i] by {
        lemma_cell_decompose(i);
        let (x, y, z) = (cell_x(i), cell_y(i), cell_z(i));
        if in_canopy(x, y, z, lx, lz, top) && canopy_rank(x, y, z, lx, lz, top) == k {
            assert(x == lx + ox - 1 && y == top + 4 + ky && z == lz + oz - 1);
            assert(i == idx);
        } else if inside {
            lemma_cell_decompose(idx);
            assert(i != idx);
        }
    }
    assert(after =~= canopy_partial(t, k + 1, lx, lz, top));
}

/// Plants a tree on local column (lx, lz) whose surface is at `top`.
fn place_tree(blocks: &mut ChunkBlocks, lx: usize, lz: usize, top: usize)
    requires
        old(blocks).wf(),
        lx < CHUNK_SIZE,
        lz < CHUNK_SIZE,
        top + 6 < CHUNK_HEIGHT,
    ensures
        final(blocks).wf(),
        final(blocks)@ == spec_place_tree(old(blocks)@, lx as int, lz as int, top as int),
{
    let ghost s0 = blocks@;
    let ghost (lxi, lzi, ti) = (lx as int, lz as int, top as int);
    // Trunk.
    let mut dy: usize = 1;
    while dy <= 4
        invariant
            1 <= dy <= 5,
            lx < CHUNK_SIZE,
            lz < CHUNK_SIZE,
            top + 6 < CHUNK_HEIGHT,
            blocks.wf(),
            s0.len() == CHUNK_VOLUME,
            lxi == lx,
            lzi == lz,
            ti == top,
            forall|i: int|
                0 <= i < CHUNK_VOLUME ==> #[trigger] blocks@[i] == (if cell_x(i) == lxi && cell_z(i)
                    == lzi && ti + 1 <= cell_y(i) < ti + dy {
                    Block::Wood
                } else {
                    s0[i]
                }),
        decreases 5 - dy,
    {
        let ghost before = blocks@;
        blocks.set(lx, top + dy, lz, Block::Wood);
        proof {
            assert(blocks@ == before.update(cell_index(lxi, ti + dy, lzi), Block::Wood));
            assert forall|i: int| 0 <= i < CHUNK_VOLUME implies #[trigger] blocks@[i] == (if cell_x(
                i,
            ) == lxi && cell_z(i) == lzi && ti + 1 <= cell_y(i) < ti + dy + 1 {
                Block::Wood
            } else {
                s0[i]
            }) by {
                lemma_cell_decompose(i);
                if i != cell_index(lxi, ti + dy, lzi) {
                    assert(blocks@[i] == before[i]);
                }
            }
        }
        dy = dy + 1;
    }
    let ghost t = blocks@;
    // Canopy: two 3 x 3 layers around the top of the trunk, keeping wood.
    let mut k: usize = 0;
    while k < 18
        invariant
            k <= 18,
            lx < CHUNK_SIZE,
            lz < CHUNK_SIZE,
            top + 6 < CHUNK_HEIGHT,
            blocks.wf(),
            t.len() == CHUNK_VOLUME,
            lxi == lx,
            lzi == lz,
            ti == top,
            blocks@ == canopy_partial(t, k as int, lxi, lzi, ti),
        decreases 18 - k,
    {
        let ky = k / 9;
        let ox = (k / 3) % 3;
        let oz = k % 3;
        let cy = top + 4 + ky;
        let ghost before = blocks@;
        let mut wrote = false;
        let inside = lx + ox >= 1 && lx + ox - 1 < CHUNK_SIZE && lz + oz >= 1 && lz + oz - 1
            < CHUNK_SIZE;
        if inside {
            let cx = lx + ox - 1;
            let cz = lz + oz - 1;
            if blocks.get(cx, cy, cz) != Block::Wood {
                blocks.set(cx, cy, cz, Block::Leaves);
                wrote = true;
            }
        }
        proof {
            lemma_canopy_step(
                before,
                blocks@,
                t,
                k as int,
                lxi,
                lzi,
                ti,
                ky as int,
                ox as int,
                oz as int,
                inside,
                wrote,
            );
        }
        k = k + 1;
    }
    // One leaf on top.
    let ghost c = blocks@;
    let tip = top + 6;
    if tip < CHUNK_HEIGHT {
        blocks.set(lx, tip, lz, Block::Leaves);
    }
    proof {
        assert forall|i: int| 0 <= i < CHUNK_VOLUME implies #[trigger] blocks@[i]
            == spec_place_tree(s0, lxi, lzi, ti)[i] by {
            lemma_cell_decompose(i);
            let (x, y, z) = (cell_x(i), cell_y(i), cell_z(i));
            if is_trunk(x, y, z, lxi, lzi, ti) {
                assert(t[i] == Block::Wood);
            }
            if in_canopy(x, y, z, lxi, lzi, ti) {
                assert(0 <= canopy_rank(x, y, z, lxi, lzi, ti) < 18);
            }
            if !(x == lxi && z == lzi && y == ti + 6) {
                assert(blocks@[i] == c[i]);
            }
        }
        assert(blocks@ =~= spec_place_tree(s0, lxi, lzi, ti));
    }
}

/// The blocks of the chunk whose 256 columns are sampled in `cols`, column
/// (x, z) at index x * 16 + z: the terrain of every column, then the trees,
/// planted column by column so that a later trunk may replace an earlier
/// tree's leaves.
pub fn generate_chunk_blocks(cols: &Vec<ColumnSample>) -> (r: ChunkBlocks)
    requires
        cols@.len() == CHUNK_COLUMNS,
    ensures
        r.wf(),
        r@ == spec_generate(cols@),
{
    let mut cells: Vec<Block> = Vec::new();
    let mut c: usize = 0;
    while c < CHUNK_VOLUME
        invariant
            c <= CHUNK_VOLUME,
            cols@.len() == CHUNK_COLUMNS,
            cells@ == base_terrain(cols@).take(c as int),
        decreases CHUNK_VOLUME - c,
    {
        let x = c / 1024;
        let y = (c / 16) % 64;
        let z = c % 16;
        proof {
            lemma_cell_decompose(c as int);
        }
        let b = column_block_at(cols[x * 16 + z], y);
        cells.push(b);
        proof {
            assert(cells@ =~= base_terrain(cols@).take(c + 1));
        }
        c = c + 1;
    }
    proof {
        assert(cells@ =~= base_terrain(cols@));
    }
    let mut blocks = ChunkBlocks::from_cells(cells);
    let mut k: usize = 0;
    while k < CHUNK_COLUMNS
        invariant
            k <= CHUNK_COLUMNS,
            cols@.len() == CHUNK_COLUMNS,
            blocks.wf(),
            blocks@ == with_trees(cols@, k as nat),
        decreases CHUNK_COLUMNS - k,
    {
        let col = cols[k];
        let leafy = col.biome == Biome::Forest || col.biome == Biome::Swamp;
        if leafy && col.height < CHUNK_HEIGHT - 6 && col.tree {
            place_tree(&mut blocks, k / 16, k % 16, col.height);
        }
        k = k + 1;
    }
    blocks
}

} // verus!
