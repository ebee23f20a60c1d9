//! Distant terrain drawn coarsely: super-chunks of 4 x 4 chunks, which of
//! them to show around the player, and the surface-only geometry of one.

use vstd::prelude::*;

use crate::block::{spec_tile_side, spec_tile_top, Block, CHUNK_HEIGHT};
use crate::generation::{spec_biome_surface, biome_surface, Biome, ColumnSample};
use crate::mesh::FaceDir;
use crate::streaming::{
    contains_coord, covered, in_ring, lemma_nearest_first, lemma_ring_near, nearest_first, nearest_first_exec,
    ring, ring_fits, ring_seq, ring_side, Coord,
};

verus! {

/// Side of a super-chunk, in chunks.
pub const SUPER_SIZE: i32 = 4;
/// Side of a super-chunk, in blocks.
pub const SUPER_EXTENT: usize = 64;
/// Super-chunks shown beyond the detailed square.
pub const LOD_EXTRA_SUPERS: i32 = 3;
/// Farthest distance, in chunks, at which a super-chunk shows trees.
pub const LOD_TREE_DIST_CHUNKS: i32 = 8;

/// `a` divided by 4, rounded towards minus infinity.
fn floor_div4(a: i32) -> (q: i32)
    ensures
        q as int == a as int / 4,
{
    let q = a >> 2u32;
    let m = a & 3i32;
    assert(q as int * 4 + m as int == a as int && 0 <= m < 4) by (bit_vector)
        requires
            q == a >> 2u32,
            m == a & 3i32,
    ;
    proof {
        vstd::arithmetic::div_mod::lemma_fundamental_div_mod_converse(a as int, 4, q as int, m as int);
    }
    q
}

/// `rd / 4` rounded towards zero, as `i32` division does.
pub open spec fn trunc_div4(rd: int) -> int {
    if rd >= 0 {
        rd / 4
    } else {
        -((-rd) / 4)
    }
}

/// Radius, in super-chunks, of the square of super-chunks shown.
pub open spec fn lod_radius(rd: int) -> int {
    trunc_div4(rd) + 1 + LOD_EXTRA_SUPERS
}

/// Every chunk of the super-chunk lies in the detailed square of radius
/// `rd` around chunk (px, pz).
pub open spec fn fully_in_detail(s: Coord, px: int, pz: int, rd: int) -> bool {
    let cx_lo = s.0 * 4;
    let cz_lo = s.1 * 4;
    cx_lo >= px - rd && cx_lo + 3 <= px + rd && cz_lo >= pz - rd && cz_lo + 3 <= pz + rd
}

/// The super-chunks to show around chunk (px, pz): the square of radius
/// `lod_radius(rd)` around the player's super-chunk, x-major, without
/// those the detailed chunks cover entirely.
pub open spec fn lod_ring(px: int, pz: int, rd: int) -> Seq<Coord> {
    ring_seq(px / 4, pz / 4, lod_radius(rd)).filter(|s: Coord| !fully_in_detail(s, px, pz, rd))
}

pub open spec fn clamp_int(v: int, lo: int, hi: int) -> int {
    if v < lo {
        lo
    } else if v > hi {
        hi
    } else {
        v
    }
}

pub open spec fn abs_int(v: int) -> int {
    if v < 0 {
        -v
    } else {
        v
    }
}

/// The super-chunk shows trees: its nearest chunk lies within
/// `LOD_TREE_DIST_CHUNKS` of the player's chunk on both axes.
pub open spec fn shows_trees(s: Coord, px: int, pz: int) -> bool {
    let cx = clamp_int(px, s.0 * 4, s.0 * 4 + 3);
    let cz = clamp_int(pz, s.1 * 4, s.1 * 4 + 3);
    abs_int(cx - px) <= LOD_TREE_DIST_CHUNKS && abs_int(cz - pz) <= LOD_TREE_DIST_CHUNKS
}

/// The coordinates of every super-chunk considered fit in `i32`.
pub open spec fn lod_fits(px: int, pz: int, rd: int) -> bool {
    -1000 <= rd <= 1000 && i32::MIN + 100_000 <= px <= i32::MAX - 100_000 && i32::MIN + 100_000
        <= pz <= i32::MAX - 100_000
}

/// What is shown of the distant terrain, and since when.
pub struct LodPlanner {
    /// Super-chunks to show, as last computed.
    pub needed: Vec<Coord>,
    /// Player super-chunk when `needed` was computed.
    pub last_super: Coord,
    /// Render distance when `needed` was computed.
    pub last_rd: i32,
}

/// The changes to the distant terrain for one frame.
pub struct LodPlan {
    /// Shown super-chunks to drop.
    pub unload: Vec<Coord>,
    /// Pending generations to cancel.
    pub cancel: Vec<Coord>,
    /// Super-chunks whose generation starts now, nearest first, each with
    /// whether it shows trees.
    pub load: Vec<(Coord, bool)>,
}

pub open spec fn lod_changed(p: LodPlanner, px: int, pz: int, rd: int) -> bool {
    p.last_super != ((px / 4) as i32, (pz / 4) as i32) || p.last_rd != rd
}

/// The super-chunks of `needed` that are neither shown nor pending.
pub open spec fn lod_missing(needed: Seq<Coord>, loaded: Seq<Coord>, pending: Seq<Coord>) -> Seq<Coord> {
    needed.filter(|c: Coord| !covered(c, loaded, pending))
}

/// Number of generations started in one frame.
pub const LOD_BUDGET: usize = 2;

/// Both coordinates of `c` lie within 3000 of those of `o`.
pub open spec fn near(c: Coord, o: Coord) -> bool {
    -3000 <= c.0 - o.0 <= 3000 && -3000 <= c.1 - o.1 <= 3000
}

/// What one call of `LodPlanner::plan` does, with the player in chunk
/// (px, pz), render distance `rd` and the super-chunks shown and pending:
/// `before` and `after` are the planner around the call and `r` its answer.
pub open spec fn lod_plan_outcome(
    before: LodPlanner,
    px: int,
    pz: int,
    rd: int,
    loaded: Seq<Coord>,
    pending: Seq<Coord>,
    after: LodPlanner,
    r: Option<LodPlan>,
) -> bool {
    let changed = lod_changed(before, px, pz, rd);
    let needed = if changed {
        lod_ring(px, pz, rd)
    } else {
        before.needed@
    };
    let in_needed = |c: Coord| needed.contains(c);
    let kept_loaded = if changed { loaded.filter(in_needed) } else { loaded };
    let kept_pending = if changed { pending.filter(in_needed) } else { pending };
    &&& after.needed@ == needed
    &&& changed ==> after.last_super == ((px / 4) as i32, (pz / 4) as i32)
        && after.last_rd == rd
    &&& !changed ==> after.last_super == before.last_super && after.last_rd
        == before.last_rd
    &&& r is None <==> (!changed && pending.len() == 0)
    &&& r matches Some(p) ==> {
        &&& p.unload@ == (if changed { loaded.filter(|c: Coord| !needed.contains(c)) } else { Seq::empty() })
        &&& p.cancel@ == (if changed { pending.filter(|c: Coord| !needed.contains(c)) } else { Seq::empty() })
        &&& p.load@.len() == (if kept_loaded.len() + kept_pending.len() >= needed.len() {
            0
        } else {
            nearest_first(lod_missing(needed, loaded, pending), LOD_BUDGET as nat, px / 4, pz / 4).len() as int
        })
        &&& forall|i: int| 0 <= i < p.load@.len() ==> (#[trigger] p.load@[i]).0 == nearest_first(
            lod_missing(needed, loaded, pending),
            LOD_BUDGET as nat,
            px / 4,
            pz / 4,
        )[i] && p.load@[i].1 == shows_trees(p.load@[i].0, px, pz)
    }
}

impl LodPlanner {
    /// The super-chunks kept lie around the super-chunk they were computed
    /// for.
    pub open spec fn wf(&self) -> bool {
        forall|k: int| 0 <= k < self.needed@.len() ==> near(#[trigger] self.needed@[k], self.last_super)
    }

    /// Nothing computed yet: the first plan computes the square.
    pub fn new() -> (r: Self)
        ensures
            r.wf(),
            r.needed@.len() == 0,
            r.last_super == (i32::MAX, i32::MAX),
            r.last_rd == i32::MIN,
    {
        LodPlanner { needed: Vec::new(), last_super: (i32::MAX, i32::MAX), last_rd: i32::MIN }
    }

    /// Forgets everything, as `new` gives it.
    pub fn clear(&mut self)
        ensures
            final(self).wf(),
            final(self).needed@.len() == 0,
            final(self).last_super == (i32::MAX, i32::MAX),
            final(self).last_rd == i32::MIN,
    {
        self.needed = Vec::new();
        self.last_super = (i32::MAX, i32::MAX);
        self.last_rd = i32::MIN;
    }

    /// Decides what changes in the distant terrain with the player in chunk
    /// (px, pz), render distance `rd`, and the super-chunks shown and
    /// pending. `None` when the player's super-chunk and `rd` are those of
    /// the last computation and nothing is pending. When they changed, the
    /// square is computed anew and what lies outside it is dropped. Then,
    /// unless shown and pending super-chunks are as many as the square
    /// holds, up to two missing ones start, nearest the player's
    /// super-chunk first.
    pub fn plan(&mut self, px: i32, pz: i32, rd: i32, loaded: &Vec<Coord>, pending: &Vec<Coord>) -> (r:
        Option<LodPlan>)
        requires
            lod_fits(px as int, pz as int, rd as int),
            old(self).wf(),
        ensures
            final(self).wf(),
            lod_plan_outcome(*old(self), px as int, pz as int, rd as int, loaded@, pending@, *final(self), r),
    {
        let psx = floor_div4(px);
        let psz = floor_div4(pz);
        let changed = !(psx == self.last_super.0 && psz == self.last_super.1) || rd != self.last_rd;
        if !changed && pending.len() == 0 {
            return None;
        }
        let mut unload: Vec<Coord> = Vec::new();
        let mut cancel: Vec<Coord> = Vec::new();
        let mut kept_l: usize = loaded.len();
        let mut kept_p: usize = pending.len();
        if changed {
            self.needed = lod_ring_exec(px, pz, rd);
            self.last_super = (psx, psz);
            self.last_rd = rd;
            let (u, ku) = split_by_membership(loaded, &self.needed);
            let (c, kc) = split_by_membership(pending, &self.needed);
            unload = u;
            cancel = c;
            kept_l = ku;
            kept_p = kc;
        }
        proof {
            if !changed {
                assert(unload@ =~= Seq::<Coord>::empty());
                assert(cancel@ =~= Seq::<Coord>::empty());
            }
        }
        let mut load: Vec<(Coord, bool)> = Vec::new();
        let short = kept_l < self.needed.len() && kept_p < self.needed.len() - kept_l;
        if short {
            let todo = missing_of(&self.needed, loaded, pending, (psx, psz));
            let ghost todo_s = todo@;
            let chosen = nearest_first_exec(todo, LOD_BUDGET, psx, psz);
            proof {
                lemma_nearest_first(todo_s, LOD_BUDGET as nat, psx as int, psz as int);
                assert forall|k: int| 0 <= k < chosen.len() implies near(#[trigger] chosen@[k], (psx, psz)) by {
                    assert(todo_s.contains(chosen@[k]));
                }
            }
            let mut i: usize = 0;
            while i < chosen.len()
                invariant
                    i <= chosen.len(),
                    lod_fits(px as int, pz as int, rd as int),
                    psx as int == px / 4,
                    psz as int == pz / 4,
                    forall|k: int| 0 <= k < chosen.len() ==> near(#[trigger] chosen@[k], (psx, psz)),
                    load@.len() == i,
                    forall|k: int| 0 <= k < i ==> (#[trigger] load@[k]).0 == chosen@[k] && load@[k].1
                        == shows_trees(load@[k].0, px as int, pz as int),
                decreases chosen.len() - i,
            {
                let s = chosen[i];
                let t = super_shows_trees(s, px, pz);
                load.push((s, t));
                i = i + 1;
            }
        }
        Some(LodPlan { unload, cancel, load })
    }
}

fn super_shows_trees(s: Coord, px: i32, pz: i32) -> (r: bool)
    requires
        near(s, ((px as int / 4) as i32, (pz as int / 4) as i32)),
        lod_fits(px as int, pz as int, 0),
    ensures
        r == shows_trees(s, px as int, pz as int),
{
    let cx_lo = s.0 * 4;
    let cz_lo = s.1 * 4;
    let cx = if px < cx_lo {
        cx_lo
    } else if px > cx_lo + 3 {
        cx_lo + 3
    } else {
        px
    };
    let cz = if pz < cz_lo {
        cz_lo
    } else if pz > cz_lo + 3 {
        cz_lo + 3
    } else {
        pz
    };
    let dx = if cx < px {
        px - cx
    } else {
        cx - px
    };
    let dz = if cz < pz {
        pz - cz
    } else {
        cz - pz
    };
    dx <= LOD_TREE_DIST_CHUNKS && dz <= LOD_TREE_DIST_CHUNKS
}

/// The super-chunks of `v` outside `needed`, in order, and how many of
/// `v` are inside it.
fn split_by_membership(v: &Vec<Coord>, needed: &Vec<Coord>) -> (r: (Vec<Coord>, usize))
    ensures
        r.0@ == v@.filter(|c: Coord| !needed@.contains(c)),
        r.1 == v@.filter(|c: Coord| needed@.contains(c)).len(),
{
    let ghost fo = |c: Coord| !needed@.contains(c);
    let ghost fi = |c: Coord| needed@.contains(c);
    let mut out: Vec<Coord> = Vec::new();
    let mut n: usize = 0;
    let mut i: usize = 0;
    while i < v.len()
        invariant
            i <= v.len(),
            fo == (|c: Coord| !needed@.contains(c)),
            fi == (|c: Coord| needed@.contains(c)),
            out@ == v@.take(i as int).filter(fo),
            n == v@.take(i as int).filter(fi).len(),
            n <= i,
        decreases v.len() - i,
    {
        let c = v[i];
        proof {
            reveal(Seq::filter);
            assert(v@.take(i + 1).drop_last() =~= v@.take(i as int));
            assert(v@.take(i + 1).last() == c);
        }
        if contains_coord(needed, c) {
            n = n + 1;
        } else {
            out.push(c);
        }
        i = i + 1;
    }
    assert(v@.take(v.len() as int) =~= v@);
    (out, n)
}

/// The super-chunks of `needed` that are neither shown nor pending.
fn missing_of(needed: &Vec<Coord>, loaded: &Vec<Coord>, pending: &Vec<Coord>, o: Coord) -> (r: Vec<
    Coord,
>)
    requires
        forall|k: int| 0 <= k < needed@.len() ==> near(#[trigger] needed@[k], o),
    ensures
        r@ == lod_missing(needed@, loaded@, pending@),
        forall|k: int| 0 <= k < r@.len() ==> near(#[trigger] r@[k], o),
{
    let ghost f = |c: Coord| !covered(c, loaded@, pending@);
    let mut out: Vec<Coord> = Vec::new();
    let mut i: usize = 0;
    while i < needed.len()
        invariant
            i <= needed.len(),
            f == (|c: Coord| !covered(c, loaded@, pending@)),
            out@ == needed@.take(i as int).filter(f),
            forall|k: int| 0 <= k < needed@.len() ==> near(#[trigger] needed@[k], o),
            forall|k: int| 0 <= k < out@.len() ==> near(#[trigger] out@[k], o),
        decreases needed.len() - i,
    {
        let c = needed[i];
        proof {
            reveal(Seq::filter);
            assert(needed@.take(i + 1).drop_last() =~= needed@.take(i as int));
            assert(needed@.take(i + 1).last() == c);
        }
        if !contains_coord(loaded, c) && !contains_coord(pending, c) {
            out.push(c);
        }
        i = i + 1;
    }
    assert(needed@.take(needed.len() as int) =~= needed@);
    out
}

/// The super-chunks to show around chunk (px, pz).
fn lod_ring_exec(px: i32, pz: i32, rd: i32) -> (r: Vec<Coord>)
    requires
        lod_fits(px as int, pz as int, rd as int),
    ensures
        r@ == lod_ring(px as int, pz as int, rd as int),
        forall|k: int| 0 <= k < r@.len() ==> near(#[trigger] r@[k], ((px / 4) as i32, (pz / 4) as i32)),
{
    let psx = floor_div4(px);
    let psz = floor_div4(pz);
    let q = if rd >= 0 {
        rd / 4
    } else {
        -((-rd) / 4)
    };
    let radius = q + 1 + LOD_EXTRA_SUPERS;
    let all = ring(psx, psz, radius);
    let ghost f = |s: Coord| !fully_in_detail(s, px as int, pz as int, rd as int);
    let mut out: Vec<Coord> = Vec::new();
    let mut i: usize = 0;
    while i < all.len()
        invariant
            i <= all.len(),
            lod_fits(px as int, pz as int, rd as int),
            psx as int == px / 4,
            psz as int == pz / 4,
            -260 <= radius <= 260,
            radius == lod_radius(rd as int),
            all@ == ring_seq(psx as int, psz as int, radius as int),
            f == (|s: Coord| !fully_in_detail(s, px as int, pz as int, rd as int)),
            out@ == all@.take(i as int).filter(f),
            forall|k: int| 0 <= k < out@.len() ==> near(#[trigger] out@[k], (psx, psz)),
        decreases all.len() - i,
    {
        let s = all[i];
        proof {
            reveal(Seq::filter);
            lemma_ring_near(psx as int, psz as int, radius as int, i as int);
            assert(all@.take(i + 1).drop_last() =~= all@.take(i as int));
            assert(all@.take(i + 1).last() == s);
        }
        let cx_lo = s.0 * 4;
        let cz_lo = s.1 * 4;
        let full = cx_lo >= px - rd && cx_lo + 3 <= px + rd && cz_lo >= pz - rd && cz_lo + 3 <= pz + rd;
        if !full {
            out.push(s);
        }
        i = i + 1;
    }
    assert(all@.take(all.len() as int) =~= all@);
    out
}

// ---------------------------------------------------------------------------
// The terrain of one super-chunk.

/// Number of columns of a super-chunk.
pub const SUPER_COLUMNS: usize = 4096;

/// Surface heights and blocks of a super-chunk's columns (column (x, z) at
/// index x * 64 + z), and the columns that carry a tree as
/// (x, z, surface height).
pub struct SuperLodData {
    pub heightmap: Vec<(usize, Block)>,
    pub trees: Vec<(usize, usize, usize)>,
}

impl SuperLodData {
    /// One entry per column, every height and tree inside the chunk height
    /// and every tree on a column of the super-chunk.
    pub open spec fn wf(&self) -> bool {
        &&& self.heightmap@.len() == SUPER_COLUMNS
        &&& forall|k: int| 0 <= k < SUPER_COLUMNS ==> (#[trigger] self.heightmap@[k]).0 < CHUNK_HEIGHT
        &&& forall|k: int| 0 <= k < self.trees@.len() ==> (#[trigger] self.trees@[k]).0 < SUPER_EXTENT
            && self.trees@[k].1 < SUPER_EXTENT && self.trees@[k].2 < CHUNK_HEIGHT
    }
}

/// Chunk coordinate of column `x` (0 to 63) of super-chunk `s`.
pub open spec fn column_chunk(s: int, x: int) -> int {
    s * 4 + x / 16
}

/// A tree is drawn on column `k` of super-chunk (sx, sz): trees are wanted,
/// the biome has trees, the tree fits under the top of the chunk, the
/// column's chunk is not in the detailed square `detail` (player chunk and
/// radius), and the noise put a tree there.
pub open spec fn lod_tree_at(
    col: ColumnSample,
    k: int,
    sx: int,
    sz: int,
    with_trees: bool,
    detail: Option<(i32, i32, i32)>,
) -> bool {
    &&& with_trees
    &&& (col.biome == Biome::Forest || col.biome == Biome::Swamp)
    &&& col.height + 7 < CHUNK_HEIGHT
    &&& match detail {
        Some((pcx, pcz, rd)) => !(abs_int(column_chunk(sx, k / 64) - pcx) <= rd && abs_int(
            column_chunk(sz, k % 64) - pcz,
        ) <= rd),
        None => true,
    }
    &&& col.tree
}

/// The trees of the first `n` columns, column by column.
pub open spec fn lod_trees_upto(
    cols: Seq<ColumnSample>,
    n: nat,
    sx: int,
    sz: int,
    with_trees: bool,
    detail: Option<(i32, i32, i32)>,
) -> Seq<(usize, usize, usize)>
    decreases n,
{
    if n == 0 {
        Seq::empty()
    } else {
        let k = n - 1;
        let prev = lod_trees_upto(cols, (n - 1) as nat, sx, sz, with_trees, detail);
        if lod_tree_at(cols[k], k, sx, sz, with_trees, detail) {
            prev.push(((k / 64) as usize, (k % 64) as usize, cols[k].height))
        } else {
            prev
        }
    }
}

/// The super-chunk coordinates and the detailed square leave room for
/// every column's chunk coordinate.
pub open spec fn super_fits(sx: int, sz: int, detail: Option<(i32, i32, i32)>) -> bool {
    &&& -100_000_000 <= sx <= 100_000_000
    &&& -100_000_000 <= sz <= 100_000_000
    &&& detail matches Some((pcx, pcz, rd)) ==> -1_000_000_000 <= pcx <= 1_000_000_000
        && -1_000_000_000 <= pcz <= 1_000_000_000
}

/// The data of super-chunk (sx, sz) from its sampled columns (column
/// (x, z) at index x * 64 + z): each column's height and its biome's
/// surface block, and the columns that carry a tree.
pub fn super_lod_data(
    cols: &Vec<ColumnSample>,
    sx: i32,
    sz: i32,
    with_trees: bool,
    detail: Option<(i32, i32, i32)>,
) -> (r: SuperLodData)
    requires
        cols@.len() == SUPER_COLUMNS,
        forall|k: int| 0 <= k < SUPER_COLUMNS ==> (#[trigger] cols@[k]).height < CHUNK_HEIGHT,
        super_fits(sx as int, sz as int, detail),
    ensures
        r.wf(),
        forall|k: int| 0 <= k < SUPER_COLUMNS ==> #[trigger] r.heightmap@[k] == (cols@[k].height, spec_biome_surface(cols@[k].biome)),
        r.trees@ == lod_trees_upto(cols@, SUPER_COLUMNS as nat, sx as int, sz as int, with_trees, detail),
{
    let mut hm: Vec<(usize, Block)> = Vec::new();
    let mut trees: Vec<(usize, usize, usize)> = Vec::new();
    let mut k: usize = 0;
    while k < SUPER_COLUMNS
        invariant
            k <= SUPER_COLUMNS,
            cols@.len() == SUPER_COLUMNS,
            forall|j: int| 0 <= j < SUPER_COLUMNS ==> (#[trigger] cols@[j]).height < CHUNK_HEIGHT,
            super_fits(sx as int, sz as int, detail),
            hm@.len() == k,
            forall|j: int| 0 <= j < k ==> #[trigger] hm@[j] == (cols@[j].height, spec_biome_surface(cols@[j].biome)),
            trees@ == lod_trees_upto(cols@, k as nat, sx as int, sz as int, with_trees, detail),
            forall|j: int| 0 <= j < trees@.len() ==> (#[trigger] trees@[j]).0 < SUPER_EXTENT
                && trees@[j].1 < SUPER_EXTENT && trees@[j].2 < CHUNK_HEIGHT,
        decreases SUPER_COLUMNS - k,
    {
        let col = cols[k];
        hm.push((col.height, biome_surface(col.biome)));
        let x = k / 64;
        let z = k % 64;
        let leafy = col.biome == Biome::Forest || col.biome == Biome::Swamp;
        let mut take = with_trees && leafy && col.height + 7 < CHUNK_HEIGHT && col.tree;
        match detail {
            Some((pcx, pcz, rd)) => {
                let cx = sx as i64 * 4 + (x / 16) as i64;
                let cz = sz as i64 * 4 + (z / 16) as i64;
                let dx = if cx < pcx as i64 {
                    pcx as i64 - cx
                } else {
                    cx - pcx as i64
                };
                let dz = if cz < pcz as i64 {
                    pcz as i64 - cz
                } else {
                    cz - pcz as i64
                };
                if dx <= rd as i64 && dz <= rd as i64 {
                    take = false;
                }
            },
            None => {},
        }
        if take {
            trees.push((x, z, col.height));
        }
        k = k + 1;
    }
    SuperLodData { heightmap: hm, trees }
}

/// A face of the coarse terrain: for `Up`, the top of column (x, z) at
/// height `y_hi`; for the sides, the side of column (x, z) from `y_lo` to
/// `y_hi`.
#[derive(Debug, Clone, Copy, PartialEq, Eq, Structural)]
pub struct LodFace {
    pub x: usize,
    pub z: usize,
    pub dir: FaceDir,
    pub y_lo: usize,
    pub y_hi: usize,
    pub tile: usize,
}

/// A box of a coarse tree, from corner (x0, y0, z0) to corner (x1, y1, z1)
/// in block units of the super-chunk, with the tile of its top and bottom
/// and the tile of its sides.
#[derive(Debug, Clone, Copy, PartialEq, Eq, Structural)]
pub struct LodBox {
    pub x0: i32,
    pub y0: i32,
    pub z0: i32,
    pub x1: i32,
    pub y1: i32,
    pub z1: i32,
    pub top_tile: usize,
    pub side_tile: usize,
}

/// Height of the column next to (x, z) by (dx, dz); 0 outside the
/// super-chunk.
pub open spec fn neighbour_height(hm: Seq<(usize, Block)>, x: int, z: int, dx: int, dz: int) -> int {
    let nx = x + dx;
    let nz = z + dz;
    if 0 <= nx < SUPER_EXTENT && 0 <= nz < SUPER_EXTENT {
        hm[nx * 64 + nz].0 as int
    } else {
        0
    }
}

/// The side faces of column (x, z) towards `d`: none unless the neighbour
/// is lower; then the top layer with the surface block's side, and below
/// it, down to just above the neighbour, a wall with the dirt side.
pub open spec fn side_faces(hm: Seq<(usize, Block)>, x: int, z: int, d: FaceDir, dx: int, dz: int) -> Seq<LodFace> {
    let (h, b) = hm[x * 64 + z];
    let nh = neighbour_height(hm, x, z, dx, dz);
    if nh >= h {
        Seq::empty()
    } else {
        let top = LodFace { x: x as usize, z: z as usize, dir: d, y_lo: h, y_hi: (h + 1) as usize, tile: spec_tile_side(b) };
        if nh + 1 < h {
            seq![top, LodFace { x: x as usize, z: z as usize, dir: d, y_lo: (nh + 1) as usize, y_hi: h, tile: spec_tile_side(Block::Dirt) }]
        } else {
            seq![top]
        }
    }
}

/// The faces of column (x, z): nothing for an air column, else its top and
/// its sides towards +x, -x, +z, -z.
#[verifier::opaque]
pub open spec fn column_lod_faces(hm: Seq<(usize, Block)>, x: int, z: int) -> Seq<LodFace> {
    let (h, b) = hm[x * 64 + z];
    if b == Block::Air {
        Seq::empty()
    } else {
        seq![LodFace { x: x as usize, z: z as usize, dir: FaceDir::Up, y_lo: (h + 1) as usize, y_hi: (h + 1) as usize, tile: spec_tile_top(b) }]
            + side_faces(hm, x, z, FaceDir::PosX, 1, 0) + side_faces(hm, x, z, FaceDir::NegX, -1, 0)
            + side_faces(hm, x, z, FaceDir::PosZ, 0, 1) + side_faces(hm, x, z, FaceDir::NegZ, 0, -1)
    }
}

/// The faces of the first `n` columns, column by column.
pub open spec fn lod_faces_upto(hm: Seq<(usize, Block)>, n: nat) -> Seq<LodFace>
    decreases n,
{
    if n == 0 {
        Seq::empty()
    } else {
        let k = n - 1;
        lod_faces_upto(hm, (n - 1) as nat) + column_lod_faces(hm, k / 64, k % 64)
    }
}

/// The two boxes of a coarse tree on column (x, z) with surface at `h`: a
/// trunk three blocks high and a 3 x 3 x 3 crown on top of it.
pub open spec fn tree_boxes(t: (usize, usize, usize)) -> Seq<LodBox> {
    let (x, z, h) = (t.0 as int, t.1 as int, t.2 as int);
    seq![
        LodBox {
            x0: x as i32,
            y0: (h + 1) as i32,
            z0: z as i32,
            x1: (x + 1) as i32,
            y1: (h + 4) as i32,
            z1: (z + 1) as i32,
            top_tile: spec_tile_top(Block::Wood),
            side_tile: spec_tile_side(Block::Wood),
        },
        LodBox {
            x0: (x - 1) as i32,
            y0: (h + 4) as i32,
            z0: (z - 1) as i32,
            x1: (x + 2) as i32,
            y1: (h + 7) as i32,
            z1: (z + 2) as i32,
            top_tile: spec_tile_top(Block::Leaves),
            side_tile: spec_tile_side(Block::Leaves),
        },
    ]
}

pub open spec fn trees_boxes_upto(trees: Seq<(usize, usize, usize)>, n: nat) -> Seq<LodBox>
    decreases n,
{
    if n == 0 {
        Seq::empty()
    } else {
        trees_boxes_upto(trees, (n - 1) as nat) + tree_boxes(trees[n - 1])
    }
}

fn push_side(out: &mut Vec<LodFace>, hm: &Vec<(usize, Block)>, x: usize, z: usize, d: FaceDir, dx: i32, dz: i32)
    requires
        hm@.len() == SUPER_COLUMNS,
        forall|k: int| 0 <= k < SUPER_COLUMNS ==> (#[trigger] hm@[k]).0 < CHUNK_HEIGHT,
        x < SUPER_EXTENT,
        z < SUPER_EXTENT,
        -1 <= dx <= 1,
        -1 <= dz <= 1,
    ensures
        final(out)@ == old(out)@ + side_faces(hm@, x as int, z as int, d, dx as int, dz as int),
{
    let (h, b) = hm[x * 64 + z];
    let nx = x as i32 + dx;
    let nz = z as i32 + dz;
    let nh: usize = if nx >= 0 && nx < 64 && nz >= 0 && nz < 64 {
        hm[(nx * 64 + nz) as usize].0
    } else {
        0
    };
    if nh >= h {
        assert(old(out)@ + side_faces(hm@, x as int, z as int, d, dx as int, dz as int) =~= old(out)@);
        return;
    }
    out.push(LodFace { x, z, dir: d, y_lo: h, y_hi: h + 1, tile: b.tile_side() });
    if nh + 1 < h {
        out.push(LodFace { x, z, dir: d, y_lo: nh + 1, y_hi: h, tile: Block::Dirt.tile_side() });
    }
    assert(final(out)@ =~= old(out)@ + side_faces(hm@, x as int, z as int, d, dx as int, dz as int));
}

fn column_face_list(hm: &Vec<(usize, Block)>, x: usize, z: usize) -> (out: Vec<LodFace>)
    requires
        hm@.len() == SUPER_COLUMNS,
        forall|k: int| 0 <= k < SUPER_COLUMNS ==> (#[trigger] hm@[k]).0 < CHUNK_HEIGHT,
        x < SUPER_EXTENT,
        z < SUPER_EXTENT,
    ensures
        out@ == column_lod_faces(hm@, x as int, z as int),
{
    let mut out: Vec<LodFace> = Vec::new();
    let (h, b) = hm[x * 64 + z];
    if !b.is_solid() {
        assert(column_lod_faces(hm@, x as int, z as int) =~= Seq::<LodFace>::empty()) by {
            reveal(column_lod_faces);
        }
        return out;
    }
    out.push(LodFace { x, z, dir: FaceDir::Up, y_lo: h + 1, y_hi: h + 1, tile: b.tile_top() });
    let ghost up = out@;
    push_side(&mut out, hm, x, z, FaceDir::PosX, 1, 0);
    push_side(&mut out, hm, x, z, FaceDir::NegX, -1, 0);
    push_side(&mut out, hm, x, z, FaceDir::PosZ, 0, 1);
    push_side(&mut out, hm, x, z, FaceDir::NegZ, 0, -1);
    proof {
        reveal(column_lod_faces);
        assert(out@ =~= column_lod_faces(hm@, x as int, z as int));
    }
    out
}

/// The coarse geometry of a super-chunk: the faces of every column, column
/// by column, and the boxes of every tree, tree by tree.
pub fn super_lod_geometry(data: &SuperLodData) -> (r: (Vec<LodFace>, Vec<LodBox>))
    requires
        data.wf(),
    ensures
        r.0@ == lod_faces_upto(data.heightmap@, SUPER_COLUMNS as nat),
        r.1@ == trees_boxes_upto(data.trees@, data.trees@.len()),
{
    let hm = &data.heightmap;
    let mut faces: Vec<LodFace> = Vec::new();
    let mut k: usize = 0;
    while k < SUPER_COLUMNS
        invariant
            k <= SUPER_COLUMNS,
            data.wf(),
            hm == &data.heightmap,
            faces@ == lod_faces_upto(hm@, k as nat),
        decreases SUPER_COLUMNS - k,
    {
        let mut cf = column_face_list(hm, k / 64, k % 64);
        faces.append(&mut cf);
        k = k + 1;
    }
    let mut boxes: Vec<LodBox> = Vec::new();
    let mut t: usize = 0;
    while t < data.trees.len()
        invariant
            t <= data.trees.len(),
            data.wf(),
            boxes@ == trees_boxes_upto(data.trees@, t as nat),
        decreases data.trees.len() - t,
    {
        let (x, z, h) = data.trees[t];
        let (xi, zi, hi) = (x as i32, z as i32, h as i32);
        let ghost before = boxes@;
        boxes.push(LodBox {
            x0: xi,
            y0: hi + 1,
            z0: zi,
            x1: xi + 1,
            y1: hi + 4,
            z1: zi + 1,
            top_tile: Block::Wood.tile_top(),
            side_tile: Block::Wood.tile_side(),
        });
        boxes.push(LodBox {
            x0: xi - 1,
            y0: hi + 4,
            z0: zi - 1,
            x1: xi + 2,
            y1: hi + 7,
            z1: zi + 2,
            top_tile: Block::Leaves.tile_top(),
            side_tile: Block::Leaves.tile_side(),
        });
        assert(boxes@ =~= before + tree_boxes(data.trees@[t as int]));
        t = t + 1;
    }
    (faces, boxes)
}

/// No super-chunk shown in the distance is one that the detailed chunks
/// cover entirely, and every one lies within the LOD radius of the
/// player's super-chunk.
pub proof fn law_lod_ring_skips_detail(px: int, pz: int, rd: int, i: int)
    requires
        lod_fits(px, pz, rd),
        0 <= i < lod_ring(px, pz, rd).len(),
    ensures
        !fully_in_detail(lod_ring(px, pz, rd)[i], px, pz, rd),
        in_ring(lod_ring(px, pz, rd)[i], px / 4, pz / 4, lod_radius(rd)),
{
    let f = |s: Coord| !fully_in_detail(s, px, pz, rd);
    let all = ring_seq(px / 4, pz / 4, lod_radius(rd));
    all.lemma_filter_pred(f, i);
    let c = lod_ring(px, pz, rd)[i];
    all.lemma_filter_contains_rev(f, c);
    let k = choose|k: int| 0 <= k < all.len() && all[k] == c;
    lemma_ring_near(px / 4, pz / 4, lod_radius(rd), k);
}

/// Every shown and every pending super-chunk is one of `needed`, and none
/// is both shown and pending.
pub open spec fn lod_books_ok(needed: Seq<Coord>, loaded: Set<Coord>, pending: Set<Coord>) -> bool {
    &&& forall|c: Coord| #[trigger] loaded.contains(c) ==> needed.contains(c) && !pending.contains(c)
    &&& forall|c: Coord| #[trigger] pending.contains(c) ==> needed.contains(c)
}

/// The super-chunks whose generation a plan starts.
pub open spec fn lod_started(p: LodPlan) -> Set<Coord> {
    Set::new(|c: Coord| exists|i: int| 0 <= i < p.load@.len() && (#[trigger] p.load@[i]).0 == c)
}

/// The shown and pending super-chunks once the answer of a plan is carried
/// out: the dropped ones are no longer shown, the cancelled ones no longer
/// pending, and the started ones pending.
pub open spec fn lod_books_after(loaded: Set<Coord>, pending: Set<Coord>, r: Option<LodPlan>) -> (Set<
    Coord>, Set<Coord>) {
    match r {
        None => (loaded, pending),
        Some(p) => (
            loaded.difference(p.unload@.to_set()),
            pending.difference(p.cancel@.to_set()).union(lod_started(p)),
        ),
    }
}

/// Carrying out a plan keeps the books in order: afterwards every shown and
/// every pending super-chunk is one of those the planner needs, none is
/// both, and at most two generations started.
pub proof fn law_lod_plan_keeps_books(
    before: LodPlanner,
    px: int,
    pz: int,
    rd: int,
    loaded: Seq<Coord>,
    pending: Seq<Coord>,
    after: LodPlanner,
    r: Option<LodPlan>,
)
    requires
        lod_plan_outcome(before, px, pz, rd, loaded, pending, after, r),
        lod_books_ok(before.needed@, loaded.to_set(), pending.to_set()),
    ensures
        lod_books_ok(
            after.needed@,
            lod_books_after(loaded.to_set(), pending.to_set(), r).0,
            lod_books_after(loaded.to_set(), pending.to_set(), r).1,
        ),
        r matches Some(p) ==> p.load@.len() <= LOD_BUDGET,
{
    let changed = lod_changed(before, px, pz, rd);
    let needed = after.needed@;
    let ls = loaded.to_set();
    let ps = pending.to_set();
    if let Some(p) = r {
        let missing = lod_missing(needed, loaded, pending);
        let nf = nearest_first(missing, LOD_BUDGET as nat, px / 4, pz / 4);
        let unfit = |c: Coord| !covered(c, loaded, pending);
        let outside = |c: Coord| !needed.contains(c);
        lemma_nearest_first(missing, LOD_BUDGET as nat, px / 4, pz / 4);
        let (nl, np) = lod_books_after(ls, ps, r);
        assert forall|c: Coord| #[trigger] lod_started(p).contains(c) implies needed.contains(c)
            && !loaded.contains(c) && !pending.contains(c) by {
            let i = choose|i: int| 0 <= i < p.load@.len() && (#[trigger] p.load@[i]).0 == c;
            assert(missing.contains(nf[i]));
            let j = choose|j: int| 0 <= j < missing.len() && missing[j] == c;
            needed.lemma_filter_pred(unfit, j);
            needed.lemma_filter_contains_rev(unfit, c);
        }
        assert forall|c: Coord| #[trigger] nl.contains(c) implies needed.contains(c) && !np.contains(c) by {
            assert(loaded.contains(c) && !p.unload@.contains(c));
            let k = choose|k: int| 0 <= k < loaded.len() && loaded[k] == c;
            if changed && !needed.contains(c) {
                loaded.lemma_filter_contains(outside, k);
            }
        }
        assert forall|c: Coord| #[trigger] np.contains(c) implies needed.contains(c) by {
            if !lod_started(p).contains(c) {
                assert(pending.contains(c) && !p.cancel@.contains(c));
                let k = choose|k: int| 0 <= k < pending.len() && pending[k] == c;
                if changed && !needed.contains(c) {
                    pending.lemma_filter_contains(outside, k);
                }
            }
        }
    }
}

/// A finished generation moves its super-chunk from pending to shown, and
/// the books stay in order.
pub proof fn law_lod_finish_keeps_books(needed: Seq<Coord>, loaded: Set<Coord>, pending: Set<Coord>, c: Coord)
    requires
        lod_books_ok(needed, loaded, pending),
        pending.contains(c),
    ensures
        lod_books_ok(needed, loaded.insert(c), pending.remove(c)),
{
}

/// Something that happens to the distant-terrain bookkeeping: a plan,
/// computed with the player in chunk (px, pz), render distance `rd` and the
/// given shown and pending super-chunks, whose answer is carried out; a
/// generation that finishes; or everything cleared.
pub enum LodEvent {
    Plan(int, int, int, Seq<Coord>, Seq<Coord>, Option<LodPlan>),
    Finish(Coord),
    Clear,
}

/// The planner and the shown and pending super-chunks go from `before` to
/// `after` by the event `e`.
pub open spec fn lod_step(
    before: (LodPlanner, Set<Coord>, Set<Coord>),
    e: LodEvent,
    after: (LodPlanner, Set<Coord>, Set<Coord>),
) -> bool {
    match e {
        LodEvent::Plan(px, pz, rd, loaded, pending, r) => {
            &&& loaded.to_set() == before.1
            &&& pending.to_set() == before.2
            &&& lod_plan_outcome(before.0, px, pz, rd, loaded, pending, after.0, r)
            &&& (after.1, after.2) == lod_books_after(before.1, before.2, r)
        },
        LodEvent::Finish(c) => {
            &&& after.0 == before.0
            &&& before.2.contains(c)
            &&& after.1 == before.1.insert(c)
            &&& after.2 == before.2.remove(c)
        },
        LodEvent::Clear => {
            &&& after.0.needed@.len() == 0
            &&& after.1 == Set::<Coord>::empty()
            &&& after.2 == Set::<Coord>::empty()
        },
    }
}

/// Over any run of plans, finished generations and clears that starts with
/// nothing shown or pending, the books stay in order after every event:
/// every shown and every pending super-chunk is one of those the planner
/// needs, none is both, and no plan starts more than two generations.
pub proof fn law_lod_books_over_any_run(events: Seq<LodEvent>, states: Seq<(LodPlanner, Set<Coord>, Set<Coord>)>)
    requires
        states.len() == events.len() + 1,
        states[0].1 == Set::<Coord>::empty(),
        states[0].2 == Set::<Coord>::empty(),
        forall|i: int| 0 <= i < events.len() ==> lod_step(states[i], #[trigger] events[i], states[i + 1]),
    ensures
        forall|i: int| 0 <= i < states.len() ==> lod_books_ok((#[trigger] states[i]).0.needed@, states[i].1, states[i].2),
        forall|i: int| 0 <= i < events.len() ==> (#[trigger] events[i] matches LodEvent::Plan(_, _, _, _, _, Some(p))
            ==> p.load@.len() <= LOD_BUDGET),
    decreases events.len(),
{
    if events.len() == 0 {
        assert(lod_books_ok(states[0].0.needed@, states[0].1, states[0].2));
    } else {
        let n = events.len() - 1;
        let ev = events.take(n);
        let st = states.take(n + 1);
        assert forall|i: int| 0 <= i < ev.len() implies lod_step(st[i], #[trigger] ev[i], st[i + 1]) by {
            assert(ev[i] == events[i]);
            assert(lod_step(states[i], events[i], states[i + 1]));
        }
        law_lod_books_over_any_run(ev, st);
        assert(st[n] == states[n]);
        assert(lod_books_ok(states[n].0.needed@, states[n].1, states[n].2));
        assert(lod_step(states[n], events[n], states[n + 1]));
        match events[n] {
            LodEvent::Plan(px, pz, rd, loaded, pending, r) => {
                law_lod_plan_keeps_books(states[n].0, px, pz, rd, loaded, pending, states[n + 1].0, r);
            },
            LodEvent::Finish(c) => {
                law_lod_finish_keeps_books(states[n].0.needed@, states[n].1, states[n].2, c);
            },
            LodEvent::Clear => {},
        }
        assert forall|i: int| 0 <= i < states.len() implies lod_books_ok(
            (#[trigger] states[i]).0.needed@,
            states[i].1,
            states[i].2,
        ) by {
            if i < n + 1 {
                assert(st[i] == states[i]);
            }
        }
        assert forall|i: int| 0 <= i < events.len() implies (#[trigger] events[i] matches LodEvent::Plan(
            _,
            _,
            _,
            _,
            _,
            Some(p),
        ) ==> p.load@.len() <= LOD_BUDGET) by {
            if i < n {
                assert(ev[i] == events[i]);
            } else {
                if let LodEvent::Plan(px, pz, rd, loaded, pending, r) = events[i] {
                    law_lod_plan_keeps_books(states[n].0, px, pz, rd, loaded, pending, states[n + 1].0, r);
                }
            }
        }
    }
}

proof fn lemma_trees_boxes_at(trees: Seq<(usize, usize, usize)>, n: nat, t: int)
    requires
        n <= trees.len(),
    ensures
        trees_boxes_upto(trees, n).len() == 2 * n,
        0 <= t < n ==> trees_boxes_upto(trees, n)[2 * t] == tree_boxes(trees[t])[0]
            && trees_boxes_upto(trees, n)[2 * t + 1] == tree_boxes(trees[t])[1],
    decreases n,
{
    if n > 0 {
        lemma_trees_boxes_at(trees, (n - 1) as nat, t);
        let prev = trees_boxes_upto(trees, (n - 1) as nat);
        let last = tree_boxes(trees[n - 1]);
        assert(trees_boxes_upto(trees, n) == prev + last);
        if t == n - 1 {
            assert((prev + last)[2 * t] == last[0]);
            assert((prev + last)[2 * t + 1] == last[1]);
        } else if 0 <= t < n - 1 {
            assert((prev + last)[2 * t] == prev[2 * t]);
            assert((prev + last)[2 * t + 1] == prev[2 * t + 1]);
        }
    }
}

/// Every coarse tree of a super-chunk is drawn as two boxes, in the order
/// of the trees: a wood trunk one column wide from just above the surface
/// up three blocks, and a 3 x 3 x 3 leaves crown centred on the trunk on
/// top of it, which may overhang the edge of the super-chunk.
pub proof fn law_tree_boxes_shape(data: SuperLodData, t: int)
    requires
        data.wf(),
        0 <= t < data.trees@.len(),
    ensures
        ({
            let boxes = trees_boxes_upto(data.trees@, data.trees@.len());
            let (x, z, h) = (data.trees@[t].0 as int, data.trees@[t].1 as int, data.trees@[t].2 as int);
            let trunk = boxes[2 * t];
            let crown = boxes[2 * t + 1];
            &&& boxes.len() == 2 * data.trees@.len()
            &&& trunk.x0 == x && trunk.x1 == x + 1 && trunk.z0 == z && trunk.z1 == z + 1
            &&& trunk.y0 == h + 1 && trunk.y1 == h + 4
            &&& trunk.top_tile == spec_tile_top(Block::Wood) && trunk.side_tile == spec_tile_side(Block::Wood)
            &&& crown.x0 == x - 1 && crown.x1 == x + 2 && crown.z0 == z - 1 && crown.z1 == z + 2
            &&& crown.y0 == h + 4 && crown.y1 == h + 7
            &&& crown.top_tile == spec_tile_top(Block::Leaves) && crown.side_tile == spec_tile_side(Block::Leaves)
        }),
{
    lemma_trees_boxes_at(data.trees@, data.trees@.len(), t);
}

/// Chunk coordinate `c` lies in super-chunk coordinate `s` (its four
/// chunks along that axis).
pub open spec fn chunk_in_super(s: int, c: int) -> bool {
    s * 4 <= c <= s * 4 + 3
}

/// Chunk coordinate `c` lies within `LOD_TREE_DIST_CHUNKS` of `p`.
pub open spec fn within_tree_dist(c: int, p: int) -> bool {
    -LOD_TREE_DIST_CHUNKS <= c - p <= LOD_TREE_DIST_CHUNKS
}

proof fn lemma_clamp_nearest(p: int, s: int)
    ensures
        abs_int(clamp_int(p, s * 4, s * 4 + 3) - p) <= LOD_TREE_DIST_CHUNKS <==> exists|c: int|
            chunk_in_super(s, c) && #[trigger] within_tree_dist(c, p),
{
    let c0 = clamp_int(p, s * 4, s * 4 + 3);
    if abs_int(c0 - p) <= LOD_TREE_DIST_CHUNKS {
        assert(chunk_in_super(s, c0) && within_tree_dist(c0, p));
    }
}

/// A super-chunk that a plan starts is drawn with trees exactly when it
/// holds a chunk within `LOD_TREE_DIST_CHUNKS` of the player's chunk on
/// both axes.
pub proof fn law_lod_trees_near_player(
    before: LodPlanner,
    px: int,
    pz: int,
    rd: int,
    loaded: Seq<Coord>,
    pending: Seq<Coord>,
    after: LodPlanner,
    r: Option<LodPlan>,
    i: int,
)
    requires
        lod_plan_outcome(before, px, pz, rd, loaded, pending, after, r),
        r is Some,
        0 <= i < r->0.load@.len(),
    ensures
        ({
            let (c, trees) = r->0.load@[i];
            trees <==> exists|cx: int, cz: int|
                chunk_in_super(c.0 as int, cx) && chunk_in_super(c.1 as int, cz) && #[trigger] within_tree_dist(cx, px)
                    && #[trigger] within_tree_dist(cz, pz)
        }),
{
    let (c, trees) = r->0.load@[i];
    assert(trees == shows_trees(c, px, pz));
    lemma_clamp_nearest(px, c.0 as int);
    lemma_clamp_nearest(pz, c.1 as int);
    if exists|cx: int, cz: int|
        chunk_in_super(c.0 as int, cx) && chunk_in_super(c.1 as int, cz) && #[trigger] within_tree_dist(cx, px)
            && #[trigger] within_tree_dist(cz, pz) {
        let (cx, cz) = choose|cx: int, cz: int|
            chunk_in_super(c.0 as int, cx) && chunk_in_super(c.1 as int, cz) && #[trigger] within_tree_dist(cx, px)
                && #[trigger] within_tree_dist(cz, pz);
        assert(chunk_in_super(c.0 as int, cx) && within_tree_dist(cx, px));
        assert(chunk_in_super(c.1 as int, cz) && within_tree_dist(cz, pz));
    }
    if trees {
        let cx = clamp_int(px, c.0 * 4, c.0 * 4 + 3);
        let cz = clamp_int(pz, c.1 * 4, c.1 * 4 + 3);
        assert(chunk_in_super(c.0 as int, cx) && chunk_in_super(c.1 as int, cz));
        assert(within_tree_dist(cx, px) && within_tree_dist(cz, pz));
    }
}

} // verus!
