//! The blocks of one chunk, world-to-chunk coordinates, and the player's
//! block edits that are replayed over generated terrain.

use vstd::prelude::*;

use crate::block::{Block, CHUNK_HEIGHT, CHUNK_SIZE};

verus! {

/// Number of blocks in a chunk.
pub const CHUNK_VOLUME: usize = 16384;

/// Position of a cell of a chunk in the flat storage: x-major, then y, then z.
pub open spec fn cell_index(x: int, y: int, z: int) -> int {
    x * 1024 + y * 16 + z
}

/// The cell lies inside a chunk.
pub open spec fn in_chunk(x: int, y: int, z: int) -> bool {
    0 <= x < CHUNK_SIZE && 0 <= y < CHUNK_HEIGHT && 0 <= z < CHUNK_SIZE
}

/// The 16 x 64 x 16 blocks of one chunk.
pub struct ChunkBlocks {
    cells: Vec<Block>,
}

impl View for ChunkBlocks {
    type V = Seq<Block>;

    closed spec fn view(&self) -> Seq<Block> {
        self.cells@
    }
}

impl ChunkBlocks {
    /// Holds exactly `CHUNK_VOLUME` cells.
    pub open spec fn wf(&self) -> bool {
        self@.len() == CHUNK_VOLUME
    }

    /// A chunk made only of air.
    pub fn new_air() -> (r: Self)
        ensures
            r@ == Seq::new(CHUNK_VOLUME as nat, |i: int| Block::Air),
            r.wf(),
    {
        let mut cells: Vec<Block> = Vec::new();
        let mut i: usize = 0;
        while i < CHUNK_VOLUME
            invariant
                i <= CHUNK_VOLUME,
                cells@ == Seq::new(i as nat, |j: int| Block::Air),
            decreases CHUNK_VOLUME - i,
        {
            cells.push(Block::Air);
            i = i + 1;
        }
        ChunkBlocks { cells }
    }

    /// A chunk holding the given cells, in storage order.
    pub fn from_cells(cells: Vec<Block>) -> (r: Self)
        requires
            cells@.len() == CHUNK_VOLUME,
        ensures
            r@ == cells@,
            r.wf(),
    {
        ChunkBlocks { cells }
    }

    /// The block at local cell (x, y, z).
    pub fn get(&self, x: usize, y: usize, z: usize) -> (b: Block)
        requires
            self.wf(),
            in_chunk(x as int, y as int, z as int),
        ensures
            b == self@[cell_index(x as int, y as int, z as int)],
    {
        self.cells[x * 1024 + y * 16 + z]
    }

    /// Writes the block at local cell (x, y, z).
    pub fn set(&mut self, x: usize, y: usize, z: usize, b: Block)
        requires
            old(self).wf(),
            in_chunk(x as int, y as int, z as int),
        ensures
            final(self)@ == old(self)@.update(cell_index(x as int, y as int, z as int), b),
            final(self).wf(),
    {
        self.cells.set(x * 1024 + y * 16 + z, b);
    }
}

/// A block position in world coordinates.
#[derive(Debug, Clone, Copy, PartialEq, Eq, Structural)]
pub struct BlockPos {
    pub x: i32,
    pub y: i32,
    pub z: i32,
}

/// Chunk coordinates and local cell of a world block position, when its
/// height lies inside the world. Chunk coordinates round towards minus
/// infinity, so local coordinates are never negative.
pub open spec fn spec_locate(p: BlockPos) -> Option<((i32, i32), (usize, usize, usize))> {
    if p.y < 0 || p.y >= CHUNK_HEIGHT {
        None
    } else {
        Some((
            ((p.x as int / 16) as i32, (p.z as int / 16) as i32),
            ((p.x as int % 16) as usize, p.y as usize, (p.z as int % 16) as usize),
        ))
    }
}

/// Euclidean division of a world coordinate by the chunk size.
fn split_coord(v: i32) -> (r: (i32, usize))
    ensures
        r.0 as int == v as int / 16,
        r.1 as int == v as int % 16,
        r.1 < 16,
{
    let q = v >> 4u32;
    let m = v & 15i32;
    assert(q as int * 16 + m as int == v as int && 0 <= m < 16) by (bit_vector)
        requires
            q == v >> 4u32,
            m == v & 15i32,
    ;
    proof {
        vstd::arithmetic::div_mod::lemma_fundamental_div_mod_converse(v as int, 16, q as int, m as int);
    }
    (q, m as usize)
}

/// Chunk and local cell holding a world block position; `None` above or
/// below the world.
pub fn locate(p: BlockPos) -> (r: Option<((i32, i32), (usize, usize, usize))>)
    ensures
        r == spec_locate(p),
        r matches Some((_, (lx, ly, lz))) ==> in_chunk(lx as int, ly as int, lz as int),
{
    if p.y < 0 || p.y >= CHUNK_HEIGHT as i32 {
        return None;
    }
    let (cx, lx) = split_coord(p.x);
    let (cz, lz) = split_coord(p.z);
    Some(((cx, cz), (lx, p.y as usize, lz)))
}


// ---------------------------------------------------------------------------
// Block edits made by the player, kept apart from generated terrain.

/// One edited cell: its chunk, its local coordinates and the block put there.
#[derive(Debug, Clone, Copy)]
pub struct BlockEdit {
    pub chunk: (i32, i32),
    pub local: (u8, u8, u8),
    pub block: Block,
}

/// Identifies an edited cell: chunk coordinates and local coordinates.
pub type EditKey = ((i32, i32), (u8, u8, u8));

pub open spec fn edit_key(e: BlockEdit) -> EditKey {
    (e.chunk, e.local)
}

/// The edits of a list as a map; a later entry for a cell wins.
pub open spec fn edits_map(s: Seq<BlockEdit>) -> Map<EditKey, Block>
    decreases s.len(),
{
    if s.len() == 0 {
        Map::empty()
    } else {
        edits_map(s.drop_last()).insert(edit_key(s.last()), s.last().block)
    }
}

/// No cell is listed twice.
pub open spec fn keys_distinct(s: Seq<BlockEdit>) -> bool {
    forall|i: int, j: int|
        0 <= i < s.len() && 0 <= j < s.len() && i != j ==> edit_key(#[trigger] s[i]) != edit_key(#[trigger] s[j])
}

pub proof fn lemma_edits_map_keys(s: Seq<BlockEdit>)
    requires
        keys_distinct(s),
    ensures
        forall|k: EditKey| #[trigger] edits_map(s).contains_key(k) <==> exists|i: int| 0 <= i < s.len() && edit_key(s[i]) == k,
        forall|i: int| 0 <= i < s.len() ==> #[trigger] edits_map(s)[edit_key(s[i])] == s[i].block,
    decreases s.len(),
{
    if s.len() > 0 {
        let r = s.drop_last();
        assert forall|i: int, j: int| 0 <= i < r.len() && 0 <= j < r.len() && i != j implies edit_key(#[trigger] r[i]) != edit_key(#[trigger] r[j]) by {
            assert(r[i] == s[i]);
            assert(r[j] == s[j]);
        }
        lemma_edits_map_keys(r);
        assert forall|k: EditKey| #[trigger] edits_map(s).contains_key(k) <==> exists|i: int| 0 <= i < s.len() && edit_key(s[i]) == k by {
            if edits_map(s).contains_key(k) && k != edit_key(s.last()) {
                let i = choose|i: int| 0 <= i < r.len() && edit_key(r[i]) == k;
                assert(s[i] == r[i]);
            }
            if exists|i: int| 0 <= i < s.len() && edit_key(s[i]) == k {
                let i = choose|i: int| 0 <= i < s.len() && edit_key(s[i]) == k;
                if i < s.len() - 1 {
                    assert(r[i] == s[i]);
                }
            }
        }
        assert forall|i: int| 0 <= i < s.len() implies #[trigger] edits_map(s)[edit_key(s[i])] == s[i].block by {
            if i < s.len() - 1 {
                assert(r[i] == s[i]);
                assert(edit_key(s[i]) != edit_key(s[s.len() - 1]));
            }
        }
    }
}

pub proof fn lemma_edits_map_update(s: Seq<BlockEdit>, i: int, e: BlockEdit)
    requires
        keys_distinct(s),
        0 <= i < s.len(),
        edit_key(e) == edit_key(s[i]),
    ensures
        edits_map(s.update(i, e)) == edits_map(s).insert(edit_key(e), e.block),
        keys_distinct(s.update(i, e)),
    decreases s.len(),
{
    let t = s.update(i, e);
    assert forall|a: int, b: int| 0 <= a < t.len() && 0 <= b < t.len() && a != b implies edit_key(#[trigger] t[a]) != edit_key(#[trigger] t[b]) by {
        assert(edit_key(t[a]) == edit_key(s[a]));
        assert(edit_key(t[b]) == edit_key(s[b]));
    }
    let r = s.drop_last();
    assert forall|a: int, b: int| 0 <= a < r.len() && 0 <= b < r.len() && a != b implies edit_key(#[trigger] r[a]) != edit_key(#[trigger] r[b]) by {
        assert(r[a] == s[a]);
        assert(r[b] == s[b]);
    }
    if i == s.len() - 1 {
        assert(t.drop_last() =~= r);
        lemma_edits_map_keys(r);
        assert(!edits_map(r).contains_key(edit_key(e))) by {
            if edits_map(r).contains_key(edit_key(e)) {
                let j = choose|j: int| 0 <= j < r.len() && edit_key(r[j]) == edit_key(e);
                assert(r[j] == s[j]);
            }
        }
        assert(edits_map(t) =~= edits_map(s).insert(edit_key(e), e.block));
    } else {
        lemma_edits_map_update(r, i, e);
        assert(t.drop_last() =~= r.update(i, e));
        assert(t.last() == s.last());
        assert(edit_key(s.last()) != edit_key(e));
        assert(edits_map(t) =~= edits_map(s).insert(edit_key(e), e.block));
    }
}

/// The player's block edits.
pub struct BlockEdits {
    entries: Vec<BlockEdit>,
}

impl View for BlockEdits {
    type V = Map<EditKey, Block>;

    closed spec fn view(&self) -> Map<EditKey, Block> {
        edits_map(self.entries@)
    }
}

impl BlockEdits {
    /// Lists each edited cell once.
    pub closed spec fn wf(&self) -> bool {
        keys_distinct(self.entries@)
    }

    /// No edits.
    pub fn new() -> (r: Self)
        ensures
            r.wf(),
            r@ == Map::<EditKey, Block>::empty(),
    {
        BlockEdits { entries: Vec::new() }
    }

    /// Forgets every edit.
    pub fn clear(&mut self)
        ensures
            final(self).wf(),
            final(self)@ == Map::<EditKey, Block>::empty(),
    {
        self.entries = Vec::new();
    }

    /// Sets the edit of one cell, replacing an earlier edit of that cell.
    pub fn insert(&mut self, chunk: (i32, i32), local: (u8, u8, u8), block: Block)
        requires
            old(self).wf(),
        ensures
            final(self).wf(),
            final(self)@ == old(self)@.insert((chunk, local), block),
    {
        let e = BlockEdit { chunk, local, block };
        let mut i: usize = 0;
        while i < self.entries.len()
            invariant
                i <= self.entries.len(),
                self.entries@ == old(self).entries@,
                keys_distinct(self.entries@),
                e.chunk == chunk && e.local == local && e.block == block,
                forall|j: int| 0 <= j < i ==> edit_key(#[trigger] self.entries@[j]) != (chunk, local),
            decreases self.entries.len() - i,
        {
            let cur = self.entries[i];
            if cur.chunk.0 == chunk.0 && cur.chunk.1 == chunk.1 && cur.local.0 == local.0 && cur.local.1 == local.1
                && cur.local.2 == local.2 {
                proof {
                    assert(cur == self.entries@[i as int]);
                    assert(cur.chunk == chunk);
                    assert(cur.local == local);
                    assert(e.chunk == chunk);
                    assert(e.local == local);
                    assert(edit_key(e) == (chunk, local));
                    assert(edit_key(cur) == (chunk, local));
                    assert(edit_key(e) == edit_key(self.entries@[i as int]));
                    lemma_edits_map_update(self.entries@, i as int, e);
                }
                self.entries.set(i, e);
                return;
            }
            i = i + 1;
        }
        let ghost before = self.entries@;
        self.entries.push(e);
        proof {
            assert(self.entries@.drop_last() =~= before);
            assert forall|a: int, b: int| 0 <= a < self.entries@.len() && 0 <= b < self.entries@.len() && a != b implies edit_key(#[trigger] self.entries@[a]) != edit_key(#[trigger] self.entries@[b]) by {
                if a < before.len() {
                    assert(self.entries@[a] == before[a]);
                }
                if b < before.len() {
                    assert(self.entries@[b] == before[b]);
                }
            }
        }
    }

    /// Records that the block at a world position became `block`; positions
    /// above or below the world are ignored.
    pub fn record(&mut self, pos: BlockPos, block: Block)
        requires
            old(self).wf(),
        ensures
            final(self).wf(),
            final(self)@ == match spec_locate(pos) {
                Some((c, (lx, ly, lz))) => old(self)@.insert((c, (lx as u8, ly as u8, lz as u8)), block),
                None => old(self)@,
            },
    {
        match locate(pos) {
            Some((c, (lx, ly, lz))) => {
                self.insert(c, (lx as u8, ly as u8, lz as u8), block);
            },
            None => {},
        }
    }

    /// The edits of one chunk as (local cell, block) pairs, each cell once;
    /// `None` when the chunk has no edit.
    pub fn for_chunk(&self, cx: i32, cz: i32) -> (r: Option<Vec<((u8, u8, u8), Block)>>)
        requires
            self.wf(),
        ensures
            r is None <==> !exists|l: (u8, u8, u8)| self@.contains_key(((cx, cz), l)),
            r matches Some(v) ==> {
                &&& forall|l: (u8, u8, u8)| #[trigger] self@.contains_key(((cx, cz), l)) <==> exists|i: int| 0 <= i < v.len() && v@[i].0 == l
                &&& forall|i: int| 0 <= i < v.len() ==> self@[((cx, cz), (#[trigger] v@[i]).0)] == v@[i].1
                &&& forall|i: int, j: int| 0 <= i < v.len() && 0 <= j < v.len() && i != j ==> (#[trigger] v@[i]).0 != (#[trigger] v@[j]).0
            },
    {
        proof {
            lemma_edits_map_keys(self.entries@);
        }
        let mut v: Vec<((u8, u8, u8), Block)> = Vec::new();
        let ghost mut src: Seq<int> = Seq::empty();
        let mut i: usize = 0;
        while i < self.entries.len()
            invariant
                i <= self.entries.len(),
                keys_distinct(self.entries@),
                v.len() == src.len(),
                forall|a: int| 0 <= a < src.len() ==> 0 <= #[trigger] src[a] < i,
                forall|a: int| 0 <= a < src.len() ==> self.entries@[#[trigger] src[a]].chunk == (cx, cz)
                    && v@[a] == (self.entries@[src[a]].local, self.entries@[src[a]].block),
                forall|a: int, b: int| 0 <= a < b < src.len() ==> #[trigger] src[a] < #[trigger] src[b],
                forall|j: int| 0 <= j < i && (#[trigger] self.entries@[j]).chunk == (cx, cz) ==> exists|a: int| 0 <= a < src.len() && src[a] == j,
            decreases self.entries.len() - i,
        {
            let e = self.entries[i];
            let ghost old_src = src;
            if e.chunk.0 == cx && e.chunk.1 == cz {
                v.push((e.local, e.block));
                proof {
                    src = src.push(i as int);
                }
            }
            proof {
                assert forall|j: int| 0 <= j < i + 1 && (#[trigger] self.entries@[j]).chunk == (cx, cz) implies exists|a: int| 0 <= a < src.len() && src[a] == j by {
                    if j < i {
                        let a = choose|a: int| 0 <= a < old_src.len() && old_src[a] == j;
                        assert(src[a] == j);
                    } else {
                        assert(src[src.len() - 1] == j);
                    }
                }
            }
            i = i + 1;
        }
        proof {
            let es = self.entries@;
            assert forall|l: (u8, u8, u8)| #[trigger] self@.contains_key(((cx, cz), l)) <==> exists|a: int| 0 <= a < v.len() && v@[a].0 == l by {
                if self@.contains_key(((cx, cz), l)) {
                    let j = choose|j: int| 0 <= j < es.len() && edit_key(es[j]) == ((cx, cz), l);
                    assert(es[j].chunk == (cx, cz));
                    let a = choose|a: int| 0 <= a < src.len() && src[a] == j;
                    assert(v@[a].0 == l);
                }
                if exists|a: int| 0 <= a < v.len() && v@[a].0 == l {
                    let a = choose|a: int| 0 <= a < v.len() && v@[a].0 == l;
                    assert(edit_key(es[src[a]]) == ((cx, cz), l));
                }
            }
            assert forall|a: int| 0 <= a < v.len() implies self@[((cx, cz), (#[trigger] v@[a]).0)] == v@[a].1 by {
                assert(edit_key(es[src[a]]) == ((cx, cz), v@[a].0));
            }
            assert forall|a: int, b: int| 0 <= a < v.len() && 0 <= b < v.len() && a != b implies (#[trigger] v@[a]).0 != (#[trigger] v@[b]).0 by {
                assert(src[a] != src[b]) by {
                    if a < b {
                        assert(src[a] < src[b]);
                    } else {
                        assert(src[b] < src[a]);
                    }
                }
                assert(edit_key(es[src[a]]) != edit_key(es[src[b]]));
            }
            if v.len() == 0 {
                assert forall|l: (u8, u8, u8)| !self@.contains_key(((cx, cz), l)) by {}
            } else {
                assert(self@.contains_key(((cx, cz), v@[0].0)));
            }
        }
        if v.len() == 0 {
            None
        } else {
            Some(v)
        }
    }

    /// All edits, each cell once.
    pub fn entries(&self) -> (r: &Vec<BlockEdit>)
        requires
            self.wf(),
        ensures
            edits_map(r@) == self@,
            keys_distinct(r@),
    {
        &self.entries
    }

    /// Number of edited cells.
    pub fn len(&self) -> (n: usize)
        requires
            self.wf(),
        ensures
            n == self@.len(),
    {
        proof {
            lemma_edits_map_len(self.entries@);
        }
        self.entries.len()
    }
}

pub proof fn lemma_edits_map_len(s: Seq<BlockEdit>)
    requires
        keys_distinct(s),
    ensures
        edits_map(s).len() == s.len(),
        edits_map(s).dom().finite(),
    decreases s.len(),
{
    if s.len() > 0 {
        let r = s.drop_last();
        assert forall|a: int, b: int| 0 <= a < r.len() && 0 <= b < r.len() && a != b implies edit_key(#[trigger] r[a]) != edit_key(#[trigger] r[b]) by {
            assert(r[a] == s[a]);
            assert(r[b] == s[b]);
        }
        lemma_edits_map_len(r);
        lemma_edits_map_keys(r);
        assert(!edits_map(r).contains_key(edit_key(s.last()))) by {
            if edits_map(r).contains_key(edit_key(s.last())) {
                let j = choose|j: int| 0 <= j < r.len() && edit_key(r[j]) == edit_key(s.last());
                assert(r[j] == s[j]);
            }
        }
    }
}


pub proof fn lemma_cell_index_injective(a: (int, int, int), b: (int, int, int))
    requires
        in_chunk(a.0, a.1, a.2),
        in_chunk(b.0, b.1, b.2),
        cell_index(a.0, a.1, a.2) == cell_index(b.0, b.1, b.2),
    ensures
        a == b,
{
}

/// Local cell of an edit as a cell index.
pub open spec fn local_index(l: (u8, u8, u8)) -> int {
    cell_index(l.0 as int, l.1 as int, l.2 as int)
}

/// Writes a chunk's edits over its generated blocks.
pub fn apply_chunk_edits(blocks: &mut ChunkBlocks, edits: &Vec<((u8, u8, u8), Block)>)
    requires
        old(blocks).wf(),
        forall|i: int| 0 <= i < edits.len() ==> in_chunk((#[trigger] edits@[i]).0.0 as int, edits@[i].0.1 as int, edits@[i].0.2 as int),
        forall|i: int, j: int| 0 <= i < edits.len() && 0 <= j < edits.len() && i != j ==> (#[trigger] edits@[i]).0 != (#[trigger] edits@[j]).0,
    ensures
        final(blocks).wf(),
        forall|i: int| 0 <= i < edits.len() ==> final(blocks)@[local_index((#[trigger] edits@[i]).0)] == edits@[i].1,
        forall|c: int| 0 <= c < CHUNK_VOLUME && (forall|i: int| 0 <= i < edits.len() ==> local_index((#[trigger] edits@[i]).0) != c)
            ==> final(blocks)@[c] == old(blocks)@[c],
{
    let ghost orig = blocks@;
    let mut i: usize = 0;
    while i < edits.len()
        invariant
            i <= edits.len(),
            blocks.wf(),
            orig.len() == CHUNK_VOLUME,
            forall|k: int| 0 <= k < edits.len() ==> in_chunk((#[trigger] edits@[k]).0.0 as int, edits@[k].0.1 as int, edits@[k].0.2 as int),
            forall|k: int, j: int| 0 <= k < edits.len() && 0 <= j < edits.len() && k != j ==> (#[trigger] edits@[k]).0 != (#[trigger] edits@[j]).0,
            forall|k: int| 0 <= k < i ==> blocks@[local_index((#[trigger] edits@[k]).0)] == edits@[k].1,
            forall|c: int| 0 <= c < CHUNK_VOLUME && (forall|k: int| 0 <= k < i ==> local_index((#[trigger] edits@[k]).0) != c)
                ==> blocks@[c] == orig[c],
        decreases edits.len() - i,
    {
        let ((lx, ly, lz), b) = edits[i];
        let ghost before = blocks@;
        blocks.set(lx as usize, ly as usize, lz as usize, b);
        proof {
            assert forall|k: int| 0 <= k < i + 1 implies blocks@[local_index((#[trigger] edits@[k]).0)] == edits@[k].1 by {
                if k < i {
                    let a = edits@[k].0;
                    let c = edits@[i as int].0;
                    if local_index(a) == local_index(c) {
                        lemma_cell_index_injective((a.0 as int, a.1 as int, a.2 as int), (c.0 as int, c.1 as int, c.2 as int));
                        assert(a == c);
                    }
                }
            }
        }
        i = i + 1;
    }
}

/// Whether a world position is solid: below the world counts as solid,
/// above it as empty, and a cell of a chunk that is not loaded as empty.
/// `chunk` is the loaded chunk that contains the position, if any.
pub fn is_solid_at(pos: BlockPos, chunk: Option<&ChunkBlocks>) -> (r: bool)
    requires
        chunk matches Some(c) ==> c.wf(),
    ensures
        r == if pos.y < 0 {
            true
        } else if pos.y >= CHUNK_HEIGHT {
            false
        } else {
            match chunk {
                Some(c) => c@[cell_index(pos.x as int % 16, pos.y as int, pos.z as int % 16)] != Block::Air,
                None => false,
            }
        },
{
    if pos.y < 0 {
        return true;
    }
    match locate(pos) {
        None => false,
        Some((_, (lx, ly, lz))) => match chunk {
            Some(c) => c.get(lx, ly, lz).is_solid(),
            None => false,
        },
    }
}

/// Height of the highest solid block of the column (lx, lz), if any.
pub fn top_solid(blocks: &ChunkBlocks, lx: usize, lz: usize) -> (r: Option<usize>)
    requires
        blocks.wf(),
        lx < CHUNK_SIZE,
        lz < CHUNK_SIZE,
    ensures
        r matches Some(y) ==> y < CHUNK_HEIGHT && blocks@[cell_index(lx as int, y as int, lz as int)] != Block::Air
            && forall|y2: int| y < y2 < CHUNK_HEIGHT ==> blocks@[cell_index(lx as int, y2, lz as int)] == Block::Air,
        r is None ==> forall|y2: int| 0 <= y2 < CHUNK_HEIGHT ==> blocks@[cell_index(lx as int, y2, lz as int)] == Block::Air,
{
    let mut y: usize = CHUNK_HEIGHT;
    while y > 0
        invariant
            y <= CHUNK_HEIGHT,
            blocks.wf(),
            lx < CHUNK_SIZE,
            lz < CHUNK_SIZE,
            forall|y2: int| y <= y2 < CHUNK_HEIGHT ==> blocks@[cell_index(lx as int, y2, lz as int)] == Block::Air,
        decreases y,
    {
        y = y - 1;
        if blocks.get(lx, y, lz).is_solid() {
            return Some(y);
        }
    }
    None
}

} // verus!
