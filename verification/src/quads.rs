//! Greedy meshing: the visible faces of a chunk merged into rectangles.
//!
//! Faces looking the same way lie in layers across the chunk. In each layer
//! the faces of one tile that sit side by side along a row form a run, as
//! long as it goes; runs that repeat exactly on the next rows, same start,
//! same length and same tile, merge with them into one rectangle.

use vstd::prelude::*;

use crate::block::{spec_tile_bottom, spec_tile_side, spec_tile_top, Block};
use crate::chunk::{cell_index, in_chunk, ChunkBlocks};
use crate::mesh::{cell_faces, dir_dx, dir_dy, dir_dz, mk_face, open_toward, opt_face, solid_cell, Face, FaceDir};

verus! {

/// A rectangle of merged faces. The faces look towards `dir` from the cells
/// of layer `layer`; in that layer the rectangle spans rows `u` to
/// `u + du - 1` and, along each row, places `v` to `v + dv - 1`. For faces
/// up or down, the layer is the height, rows run along x and places along
/// z; for faces along x, the layer is x, rows run along the height and
/// places along z; for faces along z, the layer is z, rows run along x and
/// places along the height.
#[derive(Debug, Clone, Copy, PartialEq, Eq, Structural)]
pub struct Quad {
    pub dir: FaceDir,
    pub layer: usize,
    pub u: usize,
    pub v: usize,
    pub du: usize,
    pub dv: usize,
    pub tile: usize,
}

/// Side of the box of layers, rows and places scanned for every direction.
pub const SCAN: usize = 64;

/// The cell at place `v` of row `u` in layer `l`, for faces towards `d`.
pub open spec fn quad_cell(d: FaceDir, l: int, u: int, v: int) -> (int, int, int) {
    match d {
        FaceDir::Up | FaceDir::Down => (u, l, v),
        FaceDir::PosX | FaceDir::NegX => (l, u, v),
        FaceDir::PosZ | FaceDir::NegZ => (u, v, l),
    }
}

/// Tile shown by a block's face towards `d`.
pub open spec fn dir_tile(b: Block, d: FaceDir) -> usize {
    match d {
        FaceDir::Up => spec_tile_top(b),
        FaceDir::Down => spec_tile_bottom(b),
        _ => spec_tile_side(b),
    }
}

/// The tile of the visible face towards `d` at place `v` of row `u` in
/// layer `l`; `None` where there is no such cell, the cell is empty, or the
/// neighbour on that side is solid.
pub open spec fn face_tile_at(s: Seq<Block>, d: FaceDir, l: int, u: int, v: int) -> Option<usize> {
    let (x, y, z) = quad_cell(d, l, u, v);
    if in_chunk(x, y, z) && s[cell_index(x, y, z)] != Block::Air && !solid_cell(
        s,
        x + dir_dx(d),
        y + dir_dy(d),
        z + dir_dz(d),
    ) {
        Some(dir_tile(s[cell_index(x, y, z)], d))
    } else {
        None
    }
}

/// How many faces of tile `t` follow one another along row `u` from place
/// `v` on.
pub open spec fn run_len(s: Seq<Block>, d: FaceDir, l: int, u: int, v: int, t: usize) -> nat
    decreases SCAN - v,
{
    if 0 <= v < SCAN && face_tile_at(s, d, l, u, v) == Some(t) {
        1 + run_len(s, d, l, u, v + 1, t)
    } else {
        0
    }
}

/// The run that starts at place `v` of row `u`, as its tile and length:
/// there is a face at `v`, and none of that tile just before it.
pub open spec fn run_at(s: Seq<Block>, d: FaceDir, l: int, u: int, v: int) -> Option<(usize, nat)> {
    match face_tile_at(s, d, l, u, v) {
        Some(t) => if face_tile_at(s, d, l, u, v - 1) != Some(t) {
            Some((t, run_len(s, d, l, u, v, t)))
        } else {
            None
        },
        None => None,
    }
}

/// How many rows from `u` on have exactly the run `r` starting at place `v`.
pub open spec fn stack_len(s: Seq<Block>, d: FaceDir, l: int, u: int, v: int, r: (usize, nat)) -> nat
    decreases SCAN - u,
{
    if 0 <= u < SCAN && run_at(s, d, l, u, v) == Some(r) {
        1 + stack_len(s, d, l, u + 1, v, r)
    } else {
        0
    }
}

/// The rectangle whose corner is place `v` of row `u`: a run starts there
/// and the row before does not have the same run; the rectangle takes the
/// run and every following row that repeats it.
pub open spec fn quad_at(s: Seq<Block>, d: FaceDir, l: int, u: int, v: int) -> Option<Quad> {
    match run_at(s, d, l, u, v) {
        Some(r) => if run_at(s, d, l, u - 1, v) == Some(r) {
            None
        } else {
            Some(
                Quad {
                    dir: d,
                    layer: l as usize,
                    u: u as usize,
                    v: v as usize,
                    du: stack_len(s, d, l, u, v, r) as usize,
                    dv: r.1 as usize,
                    tile: r.0,
                },
            )
        },
        None => None,
    }
}

/// The direction scanned `i`-th: up, down, +x, -x, +z, -z.
pub open spec fn scan_dir(i: int) -> FaceDir {
    if i == 0 {
        FaceDir::Up
    } else if i == 1 {
        FaceDir::Down
    } else if i == 2 {
        FaceDir::PosX
    } else if i == 3 {
        FaceDir::NegX
    } else if i == 4 {
        FaceDir::PosZ
    } else {
        FaceDir::NegZ
    }
}

pub open spec fn opt_quad(q: Option<Quad>) -> Seq<Quad> {
    match q {
        Some(x) => seq![x],
        None => Seq::empty(),
    }
}

/// The rectangles of the first `n` corners scanned: direction, then layer,
/// then row, then place.
pub open spec fn quads_upto(s: Seq<Block>, n: nat) -> Seq<Quad>
    decreases n,
{
    if n == 0 {
        Seq::empty()
    } else {
        let k = n - 1;
        quads_upto(s, k as nat) + opt_quad(
            quad_at(s, scan_dir(k / 262144), (k / 4096) % 64, (k / 64) % 64, k % 64),
        )
    }
}

/// Number of corners scanned.
pub const SCAN_CORNERS: usize = 1572864;

fn dir_of(i: usize) -> (d: FaceDir)
    ensures
        d == scan_dir(i as int),
{
    if i == 0 {
        FaceDir::Up
    } else if i == 1 {
        FaceDir::Down
    } else if i == 2 {
        FaceDir::PosX
    } else if i == 3 {
        FaceDir::NegX
    } else if i == 4 {
        FaceDir::PosZ
    } else {
        FaceDir::NegZ
    }
}

fn face_tile(blocks: &ChunkBlocks, d: FaceDir, l: usize, u: usize, v: usize) -> (r: Option<usize>)
    requires
        blocks.wf(),
        l < SCAN,
        u < SCAN,
        v < SCAN,
    ensures
        r == face_tile_at(blocks@, d, l as int, u as int, v as int),
{
    let (x, y, z) = match d {
        FaceDir::Up | FaceDir::Down => (u, l, v),
        FaceDir::PosX | FaceDir::NegX => (l, u, v),
        FaceDir::PosZ | FaceDir::NegZ => (u, v, l),
    };
    if x >= 16 || y >= 64 || z >= 16 {
        return None;
    }
    let b = blocks.get(x, y, z);
    if !b.is_solid() {
        return None;
    }
    if !open_toward(blocks, x, y, z, d) {
        return None;
    }
    let t = match d {
        FaceDir::Up => b.tile_top(),
        FaceDir::Down => b.tile_bottom(),
        _ => b.tile_side(),
    };
    Some(t)
}

fn is_tile(o: Option<usize>, t: usize) -> (r: bool)
    ensures
        r == (o == Some(t)),
{
    match o {
        Some(x) => x == t,
        None => false,
    }
}

fn run_length(blocks: &ChunkBlocks, d: FaceDir, l: usize, u: usize, v: usize, t: usize) -> (n: usize)
    requires
        blocks.wf(),
        l < SCAN,
        u < SCAN,
        v < SCAN,
    ensures
        n as nat == run_len(blocks@, d, l as int, u as int, v as int, t),
        n <= SCAN,
{
    let mut e = v;
    while e < SCAN && is_tile(face_tile(blocks, d, l, u, e), t)
        invariant
            blocks.wf(),
            l < SCAN,
            u < SCAN,
            v <= e <= SCAN,
            run_len(blocks@, d, l as int, u as int, v as int, t) == (e - v) + run_len(
                blocks@,
                d,
                l as int,
                u as int,
                e as int,
                t,
            ),
        decreases SCAN - e,
    {
        e = e + 1;
    }
    e - v
}

/// The run starting at place `v` of row `u`, as its tile and length.
fn run_start(blocks: &ChunkBlocks, d: FaceDir, l: usize, u: usize, v: usize) -> (r: Option<(usize, usize)>)
    requires
        blocks.wf(),
        l < SCAN,
        u < SCAN,
        v < SCAN,
    ensures
        match r {
            Some((t, n)) => run_at(blocks@, d, l as int, u as int, v as int) == Some((t, n as nat)),
            None => run_at(blocks@, d, l as int, u as int, v as int) is None,
        },
{
    match face_tile(blocks, d, l, u, v) {
        Some(t) => {
            if v > 0 && is_tile(face_tile(blocks, d, l, u, v - 1), t) {
                None
            } else {
                proof {
                    if v == 0 {
                        let (x, y, z) = quad_cell(d, l as int, u as int, -1);
                        assert(!in_chunk(x, y, z));
                    }
                }
                Some((t, run_length(blocks, d, l, u, v, t)))
            }
        },
        None => None,
    }
}

fn same_run(r: Option<(usize, usize)>, t: usize, n: usize) -> (b: bool)
    ensures
        b == (r == Some((t, n))),
{
    match r {
        Some((a, m)) => a == t && m == n,
        None => false,
    }
}

fn stack_length(blocks: &ChunkBlocks, d: FaceDir, l: usize, u: usize, v: usize, t: usize, n: usize) -> (h: usize)
    requires
        blocks.wf(),
        l < SCAN,
        u < SCAN,
        v < SCAN,
    ensures
        h as nat == stack_len(blocks@, d, l as int, u as int, v as int, (t, n as nat)),
{
    let ghost r = (t, n as nat);
    let mut e = u;
    while e < SCAN && same_run(run_start(blocks, d, l, e, v), t, n)
        invariant
            blocks.wf(),
            l < SCAN,
            v < SCAN,
            u <= e <= SCAN,
            r == (t, n as nat),
            stack_len(blocks@, d, l as int, u as int, v as int, r) == (e - u) + stack_len(
                blocks@,
                d,
                l as int,
                e as int,
                v as int,
                r,
            ),
        decreases SCAN - e,
    {
        e = e + 1;
    }
    e - u
}

fn quad_start(blocks: &ChunkBlocks, d: FaceDir, l: usize, u: usize, v: usize) -> (q: Option<Quad>)
    requires
        blocks.wf(),
        l < SCAN,
        u < SCAN,
        v < SCAN,
    ensures
        q == quad_at(blocks@, d, l as int, u as int, v as int),
{
    match run_start(blocks, d, l, u, v) {
        Some((t, n)) => {
            if u > 0 && same_run(run_start(blocks, d, l, u - 1, v), t, n) {
                None
            } else {
                proof {
                    if u == 0 {
                        let (x, y, z) = quad_cell(d, l as int, -1, v as int);
                        assert(!in_chunk(x, y, z));
                        assert(run_at(blocks@, d, l as int, -1, v as int) is None);
                    }
                }
                let h = stack_length(blocks, d, l, u, v, t, n);
                Some(Quad { dir: d, layer: l, u, v, du: h, dv: n, tile: t })
            }
        },
        None => None,
    }
}

/// The visible faces of a chunk merged into rectangles, greedily: every run
/// of faces of one tile along a row, as long as it goes, merged with the
/// identical runs of the rows that follow. The rectangles come direction by
/// direction (up, down, +x, -x, +z, -z), then layer by layer, row by row
/// and place by place of their first face.
pub fn merged_faces(blocks: &ChunkBlocks) -> (r: Vec<Quad>)
    requires
        blocks.wf(),
    ensures
        r@ == quads_upto(blocks@, SCAN_CORNERS as nat),
{
    let mut out: Vec<Quad> = Vec::new();
    let mut k: usize = 0;
    while k < SCAN_CORNERS
        invariant
            k <= SCAN_CORNERS,
            blocks.wf(),
            out@ == quads_upto(blocks@, k as nat),
        decreases SCAN_CORNERS - k,
    {
        let d = dir_of(k / 262144);
        let l = (k / 4096) % 64;
        let u = (k / 64) % 64;
        let v = k % 64;
        let q = quad_start(blocks, d, l, u, v);
        match q {
            Some(x) => out.push(x),
            None => {},
        }
        proof {
            assert(out@ =~= quads_upto(blocks@, k as nat) + opt_quad(q));
        }
        k = k + 1;
    }
    out
}

/// The rectangle covers the face towards its direction at place `v` of row
/// `u` in layer `l`.
pub open spec fn quad_covers(q: Quad, d: FaceDir, l: int, u: int, v: int) -> bool {
    &&& q.dir == d
    &&& q.layer == l
    &&& q.u <= u < q.u + q.du
    &&& q.v <= v < q.v + q.dv
}

proof fn lemma_run_cover(s: Seq<Block>, d: FaceDir, l: int, u: int, v0: int, v: int, t: usize)
    requires
        v0 <= v,
    ensures
        run_len(s, d, l, u, v0, t) > v - v0 <==> (v < SCAN && forall|w: int| v0 <= w <= v ==> #[trigger] face_tile_at(s, d, l, u, w) == Some(t)),
    decreases v - v0,
{
    if v0 < v {
        lemma_run_cover(s, d, l, u, v0 + 1, v, t);
        if v < SCAN && (forall|w: int| v0 <= w <= v ==> #[trigger] face_tile_at(s, d, l, u, w) == Some(t)) {
            assert(face_tile_at(s, d, l, u, v0) == Some(t));
        }
        if run_len(s, d, l, u, v0, t) > v - v0 {
            assert(face_tile_at(s, d, l, u, v0) == Some(t));
            assert forall|w: int| v0 <= w <= v implies #[trigger] face_tile_at(s, d, l, u, w) == Some(t) by {
                if w > v0 {
                }
            }
        }
    } else {
        if v < SCAN && face_tile_at(s, d, l, u, v) == Some(t) {
            assert(run_len(s, d, l, u, v, t) >= 1);
        }
    }
}

proof fn lemma_stack_cover(s: Seq<Block>, d: FaceDir, l: int, u0: int, u: int, v: int, r: (usize, nat))
    requires
        u0 <= u,
    ensures
        stack_len(s, d, l, u0, v, r) > u - u0 <==> (0 <= u0 && u < SCAN && forall|w: int| u0 <= w <= u ==> #[trigger] run_at(s, d, l, w, v) == Some(r)),
    decreases u - u0,
{
    if u0 < u {
        lemma_stack_cover(s, d, l, u0 + 1, u, v, r);
        if stack_len(s, d, l, u0, v, r) > u - u0 {
            assert(run_at(s, d, l, u0, v) == Some(r));
            assert forall|w: int| u0 <= w <= u implies #[trigger] run_at(s, d, l, w, v) == Some(r) by {
                if w > u0 {
                }
            }
        }
        if 0 <= u0 && u < SCAN && (forall|w: int| u0 <= w <= u ==> #[trigger] run_at(s, d, l, w, v) == Some(r)) {
            assert(run_at(s, d, l, u0, v) == Some(r));
        }
    }
}

/// Every face a rectangle covers is a visible face of the rectangle's tile,
/// and no rectangle is empty.
pub proof fn law_quad_faces_are_visible(s: Seq<Block>, d: FaceDir, l: int, u: int, v: int, a: int, b: int)
    requires
        quad_at(s, d, l, u, v) is Some,
    ensures
        ({
            let q = quad_at(s, d, l, u, v)->0;
            &&& q.du >= 1 && q.dv >= 1
            &&& 0 <= a < q.du && 0 <= b < q.dv ==> face_tile_at(s, d, l, u + a, v + b) == Some(q.tile)
        }),
{
    let r = run_at(s, d, l, u, v)->0;
    lemma_stack_cover(s, d, l, u, u, v, r);
    lemma_run_cover(s, d, l, u, v, v, r.0);
    if 0 <= a < stack_len(s, d, l, u, v, r) && 0 <= b < r.1 {
        lemma_stack_cover(s, d, l, u, u + a, v, r);
        assert(run_at(s, d, l, u + a, v) == Some(r));
        lemma_run_cover(s, d, l, u + a, v, v + b, r.0);
    }
    assert(stack_len(s, d, l, u, v, r) <= SCAN) by {
        lemma_stack_bound(s, d, l, u, v, r);
    }
    assert(r.1 <= SCAN) by {
        lemma_run_bound(s, d, l, u, v, r.0);
    }
}

proof fn lemma_run_bound(s: Seq<Block>, d: FaceDir, l: int, u: int, v: int, t: usize)
    ensures
        run_len(s, d, l, u, v, t) <= if v < SCAN { SCAN - v } else { 0 },
    decreases SCAN - v,
{
    if 0 <= v < SCAN && face_tile_at(s, d, l, u, v) == Some(t) {
        lemma_run_bound(s, d, l, u, v + 1, t);
    }
}

proof fn lemma_stack_bound(s: Seq<Block>, d: FaceDir, l: int, u: int, v: int, r: (usize, nat))
    ensures
        stack_len(s, d, l, u, v, r) <= if u < SCAN { SCAN - u } else { 0 },
    decreases SCAN - u,
{
    if 0 <= u < SCAN && run_at(s, d, l, u, v) == Some(r) {
        lemma_stack_bound(s, d, l, u + 1, v, r);
    }
}

/// The corner scanned `k`-th.
pub open spec fn corner(k: int) -> (FaceDir, int, int, int) {
    (scan_dir(k / 262144), (k / 4096) % 64, (k / 64) % 64, k % 64)
}

pub open spec fn dir_index(d: FaceDir) -> int {
    match d {
        FaceDir::Up => 0,
        FaceDir::Down => 1,
        FaceDir::PosX => 2,
        FaceDir::NegX => 3,
        FaceDir::PosZ => 4,
        FaceDir::NegZ => 5,
    }
}

proof fn lemma_corner_index(d: FaceDir, l: int, u: int, v: int)
    requires
        0 <= l < 64,
        0 <= u < 64,
        0 <= v < 64,
    ensures
        0 <= dir_index(d) * 262144 + l * 4096 + u * 64 + v < SCAN_CORNERS,
        corner(dir_index(d) * 262144 + l * 4096 + u * 64 + v) == (d, l, u, v),
{
    let k = dir_index(d) * 262144 + l * 4096 + u * 64 + v;
    let i = dir_index(d);
    assert(k / 262144 == i) by (nonlinear_arith)
        requires
            k == i * 262144 + l * 4096 + u * 64 + v,
            0 <= l < 64,
            0 <= u < 64,
            0 <= v < 64,
            0 <= i < 6,
    ;
    assert((k / 4096) % 64 == l) by (nonlinear_arith)
        requires
            k == i * 262144 + l * 4096 + u * 64 + v,
            0 <= l < 64,
            0 <= u < 64,
            0 <= v < 64,
            0 <= i < 6,
    ;
    assert((k / 64) % 64 == u) by (nonlinear_arith)
        requires
            k == i * 262144 + l * 4096 + u * 64 + v,
            0 <= l < 64,
            0 <= u < 64,
            0 <= v < 64,
            0 <= i < 6,
    ;
    assert(k % 64 == v) by (nonlinear_arith)
        requires
            k == i * 262144 + l * 4096 + u * 64 + v,
            0 <= l < 64,
            0 <= u < 64,
            0 <= v < 64,
            0 <= i < 6,
    ;
}

proof fn lemma_quads_upto_has(s: Seq<Block>, n: nat, k: int)
    requires
        0 <= k < n,
        quad_at(s, corner(k).0, corner(k).1, corner(k).2, corner(k).3) is Some,
    ensures
        quads_upto(s, n).contains(quad_at(s, corner(k).0, corner(k).1, corner(k).2, corner(k).3)->0),
    decreases n,
{
    let q = quad_at(s, corner(k).0, corner(k).1, corner(k).2, corner(k).3)->0;
    let prev = quads_upto(s, (n - 1) as nat);
    let last = opt_quad(quad_at(s, corner(n - 1).0, corner(n - 1).1, corner(n - 1).2, corner(n - 1).3));
    assert(quads_upto(s, n) == prev + last);
    if k < n - 1 {
        lemma_quads_upto_has(s, (n - 1) as nat, k);
        let j = choose|j: int| 0 <= j < prev.len() && prev[j] == q;
        assert((prev + last)[j] == q);
    } else {
        assert((prev + last)[prev.len() as int] == q);
    }
}

proof fn lemma_quads_upto_from(s: Seq<Block>, n: nat, i: int)
    requires
        0 <= i < quads_upto(s, n).len(),
    ensures
        exists|k: int| 0 <= k < n && #[trigger] quad_at(s, corner(k).0, corner(k).1, corner(k).2, corner(k).3)
            == Some(quads_upto(s, n)[i]),
    decreases n,
{
    let prev = quads_upto(s, (n - 1) as nat);
    let q = quad_at(s, corner(n - 1).0, corner(n - 1).1, corner(n - 1).2, corner(n - 1).3);
    assert(quads_upto(s, n) == prev + opt_quad(q));
    if i < prev.len() {
        lemma_quads_upto_from(s, (n - 1) as nat, i);
        let k = choose|k: int| 0 <= k < n - 1 && #[trigger] quad_at(s, corner(k).0, corner(k).1, corner(k).2, corner(k).3)
            == Some(prev[i]);
        assert(quads_upto(s, n)[i] == prev[i]);
    } else {
        assert(quads_upto(s, n)[i] == q->0);
        assert(quad_at(s, corner(n - 1).0, corner(n - 1).1, corner(n - 1).2, corner(n - 1).3) == Some(
            quads_upto(s, n)[i],
        ));
    }
}

proof fn lemma_face_in_range(s: Seq<Block>, d: FaceDir, l: int, u: int, v: int)
    requires
        face_tile_at(s, d, l, u, v) is Some,
    ensures
        0 <= l < 64,
        0 <= u < 64,
        0 <= v < 64,
{
}

proof fn find_run_start(s: Seq<Block>, d: FaceDir, l: int, u: int, v: int, t: usize) -> (v0: int)
    requires
        face_tile_at(s, d, l, u, v) == Some(t),
    ensures
        0 <= v0 <= v,
        forall|w: int| v0 <= w <= v ==> #[trigger] face_tile_at(s, d, l, u, w) == Some(t),
        face_tile_at(s, d, l, u, v0 - 1) != Some(t),
    decreases v,
{
    lemma_face_in_range(s, d, l, u, v);
    if face_tile_at(s, d, l, u, v - 1) == Some(t) {
        lemma_face_in_range(s, d, l, u, v - 1);
        let v0 = find_run_start(s, d, l, u, v - 1, t);
        assert forall|w: int| v0 <= w <= v implies #[trigger] face_tile_at(s, d, l, u, w) == Some(t) by {
            if w < v {
            }
        }
        v0
    } else {
        v
    }
}

proof fn find_stack_start(s: Seq<Block>, d: FaceDir, l: int, u: int, v: int, r: (usize, nat)) -> (u0: int)
    requires
        run_at(s, d, l, u, v) == Some(r),
    ensures
        0 <= u0 <= u,
        forall|w: int| u0 <= w <= u ==> #[trigger] run_at(s, d, l, w, v) == Some(r),
        run_at(s, d, l, u0 - 1, v) != Some(r),
    decreases u,
{
    lemma_face_in_range(s, d, l, u, v);
    if run_at(s, d, l, u - 1, v) == Some(r) {
        lemma_face_in_range(s, d, l, u - 1, v);
        let u0 = find_stack_start(s, d, l, u - 1, v, r);
        assert forall|w: int| u0 <= w <= u implies #[trigger] run_at(s, d, l, w, v) == Some(r) by {
            if w < u {
            }
        }
        u0
    } else {
        u
    }
}

/// Greedy meshing loses no face: every visible face of the chunk lies in
/// one of the merged rectangles, which shows that face's tile.
pub proof fn law_merged_faces_cover_visible(s: Seq<Block>, d: FaceDir, l: int, u: int, v: int)
    requires
        face_tile_at(s, d, l, u, v) is Some,
    ensures
        exists|i: int| 0 <= i < quads_upto(s, SCAN_CORNERS as nat).len() && quad_covers(
            #[trigger] quads_upto(s, SCAN_CORNERS as nat)[i],
            d,
            l,
            u,
            v,
        ) && quads_upto(s, SCAN_CORNERS as nat)[i].tile == face_tile_at(s, d, l, u, v)->0,
{
    let t = face_tile_at(s, d, l, u, v)->0;
    lemma_face_in_range(s, d, l, u, v);
    let v0 = find_run_start(s, d, l, u, v, t);
    lemma_run_cover(s, d, l, u, v0, v, t);
    let r = (t, run_len(s, d, l, u, v0, t));
    assert(run_at(s, d, l, u, v0) == Some(r));
    let u0 = find_stack_start(s, d, l, u, v0, r);
    lemma_stack_cover(s, d, l, u0, u, v0, r);
    lemma_face_in_range(s, d, l, u0, v0);
    lemma_stack_bound(s, d, l, u0, v0, r);
    lemma_run_bound(s, d, l, u0, v0, t);
    assert forall|w: int| v0 <= w <= v implies #[trigger] face_tile_at(s, d, l, u0, w) == Some(t) by {
        assert(run_at(s, d, l, u0, v0) == Some(r));
        lemma_run_cover(s, d, l, u0, v0, w, t);
        lemma_run_cover(s, d, l, u, v0, w, t);
    }
    lemma_run_cover(s, d, l, u0, v0, v, t);
    let q = quad_at(s, d, l, u0, v0)->0;
    assert(quad_at(s, d, l, u0, v0) is Some);
    assert(quad_covers(q, d, l, u, v));
    lemma_corner_index(d, l, u0, v0);
    let k = dir_index(d) * 262144 + l * 4096 + u0 * 64 + v0;
    lemma_quads_upto_has(s, SCAN_CORNERS as nat, k);
    let out = quads_upto(s, SCAN_CORNERS as nat);
    let i = choose|i: int| 0 <= i < out.len() && out[i] == q;
    assert(quad_covers(out[i], d, l, u, v));
}

/// Greedy meshing adds no face: every face a merged rectangle covers is a
/// visible face of the rectangle's tile, and no rectangle is empty.
pub proof fn law_merged_faces_are_visible(s: Seq<Block>, i: int, a: int, b: int)
    requires
        0 <= i < quads_upto(s, SCAN_CORNERS as nat).len(),
    ensures
        ({
            let q = quads_upto(s, SCAN_CORNERS as nat)[i];
            &&& q.du >= 1 && q.dv >= 1
            &&& 0 <= a < q.du && 0 <= b < q.dv ==> face_tile_at(s, q.dir, q.layer as int, q.u + a, q.v + b)
                == Some(q.tile)
        }),
{
    lemma_quads_upto_from(s, SCAN_CORNERS as nat, i);
    let q = quads_upto(s, SCAN_CORNERS as nat)[i];
    let k = choose|k: int| 0 <= k < SCAN_CORNERS && #[trigger] quad_at(s, corner(k).0, corner(k).1, corner(k).2, corner(k).3)
        == Some(q);
    let (d, l, u, v) = corner(k);
    assert(0 <= l < 64 && 0 <= u < 64 && 0 <= v < 64);
    law_quad_faces_are_visible(s, d, l, u, v, a, b);
}

/// Position of a rectangle's corner in the scan.
pub open spec fn quad_key(q: Quad) -> int {
    dir_index(q.dir) * 262144 + q.layer * 4096 + q.u * 64 + q.v
}

proof fn lemma_corner_key(s: Seq<Block>, k: int)
    requires
        0 <= k < SCAN_CORNERS,
        quad_at(s, corner(k).0, corner(k).1, corner(k).2, corner(k).3) is Some,
    ensures
        quad_key(quad_at(s, corner(k).0, corner(k).1, corner(k).2, corner(k).3)->0) == k,
{
    let i = k / 262144;
    let l = (k / 4096) % 64;
    let u = (k / 64) % 64;
    let v = k % 64;
    assert(k == i * 262144 + l * 4096 + u * 64 + v && 0 <= i < 6 && 0 <= l < 64 && 0 <= u < 64 && 0 <= v < 64)
        by (nonlinear_arith)
        requires
            0 <= k < 1572864,
            i == k / 262144,
            l == (k / 4096) % 64,
            u == (k / 64) % 64,
            v == k % 64,
    ;
    assert(dir_index(scan_dir(i)) == i);
}

proof fn lemma_quads_upto_sorted(s: Seq<Block>, n: nat)
    requires
        n <= SCAN_CORNERS,
    ensures
        forall|i: int| 0 <= i < quads_upto(s, n).len() ==> quad_key(#[trigger] quads_upto(s, n)[i]) < n,
        forall|i: int, j: int|
            0 <= i < j < quads_upto(s, n).len() ==> quad_key(#[trigger] quads_upto(s, n)[i]) < quad_key(
                #[trigger] quads_upto(s, n)[j],
            ),
    decreases n,
{
    if n > 0 {
        let k = n - 1;
        let prev = quads_upto(s, k as nat);
        let o = opt_quad(quad_at(s, corner(k).0, corner(k).1, corner(k).2, corner(k).3));
        lemma_quads_upto_sorted(s, k as nat);
        assert(quads_upto(s, n) == prev + o);
        if o.len() > 0 {
            lemma_corner_key(s, k);
        }
        let r = quads_upto(s, n);
        assert forall|i: int| 0 <= i < r.len() implies quad_key(#[trigger] r[i]) < n by {
            if i < prev.len() {
                assert(r[i] == prev[i]);
            }
        }
        assert forall|i: int, j: int| 0 <= i < j < r.len() implies quad_key(#[trigger] r[i]) < quad_key(
            #[trigger] r[j],
        ) by {
            assert(r[i] == prev[i]);
            if j < prev.len() {
                assert(r[j] == prev[j]);
            } else {
                assert(quad_key(prev[i]) < k);
            }
        }
    }
}

/// What covering a face tells of a rectangle built at corner `k`: the row
/// of the face has the rectangle's run starting at its first place, every
/// row from the first one to the face's has it, and the row before the first
/// does not.
proof fn lemma_cover_corner(s: Seq<Block>, k: int, d: FaceDir, l: int, u: int, v: int)
    requires
        0 <= k < SCAN_CORNERS,
        quad_at(s, corner(k).0, corner(k).1, corner(k).2, corner(k).3) is Some,
        quad_covers(quad_at(s, corner(k).0, corner(k).1, corner(k).2, corner(k).3)->0, d, l, u, v),
    ensures
        ({
            let (d0, l0, u0, v0) = corner(k);
            let q = quad_at(s, d0, l0, u0, v0)->0;
            let r = (q.tile, q.dv as nat);
            &&& d0 == d && l0 == l && u0 == q.u && v0 == q.v
            &&& forall|w: int| u0 <= w <= u ==> #[trigger] run_at(s, d, l, w, v0) == Some(r)
            &&& run_at(s, d, l, u0 - 1, v0) != Some(r)
            &&& forall|w: int| v0 <= w <= v ==> #[trigger] face_tile_at(s, d, l, u, w) == Some(q.tile)
        }),
{
    let (d0, l0, u0, v0) = corner(k);
    lemma_corner_key(s, k);
    let q = quad_at(s, d0, l0, u0, v0)->0;
    let r = run_at(s, d0, l0, u0, v0)->0;
    lemma_stack_bound(s, d0, l0, u0, v0, r);
    lemma_run_bound(s, d0, l0, u0, v0, r.0);
    assert(q.dv as nat == r.1 && q.tile == r.0);
    lemma_stack_cover(s, d, l, u0, u, v0, r);
    assert(run_at(s, d, l, u, v0) == Some(r));
    lemma_run_cover(s, d, l, u, v0, v, r.0);
}

/// Greedy meshing covers no face twice: a visible face lies in exactly one
/// of the merged rectangles.
pub proof fn law_merged_faces_cover_once(s: Seq<Block>, i: int, j: int, d: FaceDir, l: int, u: int, v: int)
    requires
        0 <= i < quads_upto(s, SCAN_CORNERS as nat).len(),
        0 <= j < quads_upto(s, SCAN_CORNERS as nat).len(),
        quad_covers(quads_upto(s, SCAN_CORNERS as nat)[i], d, l, u, v),
        quad_covers(quads_upto(s, SCAN_CORNERS as nat)[j], d, l, u, v),
    ensures
        i == j,
{
    let out = quads_upto(s, SCAN_CORNERS as nat);
    lemma_quads_upto_from(s, SCAN_CORNERS as nat, i);
    lemma_quads_upto_from(s, SCAN_CORNERS as nat, j);
    let ki = choose|k: int| 0 <= k < SCAN_CORNERS && #[trigger] quad_at(s, corner(k).0, corner(k).1, corner(k).2, corner(k).3)
        == Some(out[i]);
    let kj = choose|k: int| 0 <= k < SCAN_CORNERS && #[trigger] quad_at(s, corner(k).0, corner(k).1, corner(k).2, corner(k).3)
        == Some(out[j]);
    lemma_cover_corner(s, ki, d, l, u, v);
    lemma_cover_corner(s, kj, d, l, u, v);
    let (_, _, ui, vi) = corner(ki);
    let (_, _, uj, vj) = corner(kj);
    let qi = out[i];
    let qj = out[j];
    // The runs of row `u` covering `v` start at the same place.
    if vi < vj {
        assert(face_tile_at(s, d, l, u, vj - 1) == Some(qi.tile));
        assert(face_tile_at(s, d, l, u, v) == Some(qj.tile));
        assert(run_at(s, d, l, u, vj) is None);
    }
    if vj < vi {
        assert(face_tile_at(s, d, l, u, vi - 1) == Some(qj.tile));
        assert(face_tile_at(s, d, l, u, v) == Some(qi.tile));
        assert(run_at(s, d, l, u, vi) is None);
    }
    assert(vi == vj);
    assert(run_at(s, d, l, u, vi) == Some((qi.tile, qi.dv as nat)));
    assert(run_at(s, d, l, u, vi) == Some((qj.tile, qj.dv as nat)));
    // So do the stacks of rows.
    if ui < uj {
        assert(run_at(s, d, l, uj - 1, vi) == Some((qi.tile, qi.dv as nat)));
    }
    if uj < ui {
        assert(run_at(s, d, l, ui - 1, vi) == Some((qj.tile, qj.dv as nat)));
    }
    assert(ui == uj);
    assert(corner(ki) == corner(kj));
    assert(qi == qj);
    lemma_quads_upto_sorted(s, SCAN_CORNERS as nat);
    if i < j {
        assert(quad_key(out[i]) < quad_key(out[j]));
    }
    if j < i {
        assert(quad_key(out[j]) < quad_key(out[i]));
    }
}

proof fn lemma_opt_face_has(show: bool, f: Face, g: Face)
    ensures
        opt_face(show, f).contains(g) <==> show && f == g,
{
    if show {
        assert(opt_face(show, f)[0] == f);
    }
}

/// The faces the merged rectangles are made of are exactly the visible
/// faces of the chunk: there is a face towards `d` at place `v` of row `u`
/// in layer `l` with tile `t` if and only if the cell there lists a visible
/// face towards `d` with that tile.
pub proof fn law_merged_faces_are_the_visible_faces(s: Seq<Block>, d: FaceDir, l: int, u: int, v: int, t: usize)
    ensures
        ({
            let (x, y, z) = quad_cell(d, l, u, v);
            face_tile_at(s, d, l, u, v) == Some(t) <==> in_chunk(x, y, z) && cell_faces(s, x, y, z).contains(
                mk_face(x, y, z, d, t),
            )
        }),
{
    let (x, y, z) = quad_cell(d, l, u, v);
    if in_chunk(x, y, z) {
        reveal(cell_faces);
        let b = s[cell_index(x, y, z)];
        let g = mk_face(x, y, z, d, t);
        if b != Block::Air {
            let o1 = opt_face(!solid_cell(s, x, y + 1, z), mk_face(x, y, z, FaceDir::Up, spec_tile_top(b)));
            let o2 = opt_face(!solid_cell(s, x, y - 1, z), mk_face(x, y, z, FaceDir::Down, spec_tile_bottom(b)));
            let o3 = opt_face(!solid_cell(s, x + 1, y, z), mk_face(x, y, z, FaceDir::PosX, spec_tile_side(b)));
            let o4 = opt_face(!solid_cell(s, x - 1, y, z), mk_face(x, y, z, FaceDir::NegX, spec_tile_side(b)));
            let o5 = opt_face(!solid_cell(s, x, y, z + 1), mk_face(x, y, z, FaceDir::PosZ, spec_tile_side(b)));
            let o6 = opt_face(!solid_cell(s, x, y, z - 1), mk_face(x, y, z, FaceDir::NegZ, spec_tile_side(b)));
            let all = o1 + o2 + o3 + o4 + o5 + o6;
            assert(cell_faces(s, x, y, z) == all);
            lemma_opt_face_has(!solid_cell(s, x, y + 1, z), mk_face(x, y, z, FaceDir::Up, spec_tile_top(b)), g);
            lemma_opt_face_has(!solid_cell(s, x, y - 1, z), mk_face(x, y, z, FaceDir::Down, spec_tile_bottom(b)), g);
            lemma_opt_face_has(!solid_cell(s, x + 1, y, z), mk_face(x, y, z, FaceDir::PosX, spec_tile_side(b)), g);
            lemma_opt_face_has(!solid_cell(s, x - 1, y, z), mk_face(x, y, z, FaceDir::NegX, spec_tile_side(b)), g);
            lemma_opt_face_has(!solid_cell(s, x, y, z + 1), mk_face(x, y, z, FaceDir::PosZ, spec_tile_side(b)), g);
            lemma_opt_face_has(!solid_cell(s, x, y, z - 1), mk_face(x, y, z, FaceDir::NegZ, spec_tile_side(b)), g);
            lemma_concat_has(o1, o2, g);
            lemma_concat_has(o1 + o2, o3, g);
            lemma_concat_has(o1 + o2 + o3, o4, g);
            lemma_concat_has(o1 + o2 + o3 + o4, o5, g);
            lemma_concat_has(o1 + o2 + o3 + o4 + o5, o6, g);
        } else {
            assert(cell_faces(s, x, y, z) =~= Seq::<Face>::empty());
        }
    }
}

proof fn lemma_concat_has(a: Seq<Face>, b: Seq<Face>, g: Face)
    ensures
        (a + b).contains(g) <==> a.contains(g) || b.contains(g),
{
    if (a + b).contains(g) {
        let i = choose|i: int| 0 <= i < (a + b).len() && (a + b)[i] == g;
        if i < a.len() {
            assert(a[i] == g);
        } else {
            assert(b[i - a.len()] == g);
        }
    }
    if a.contains(g) {
        let i = choose|i: int| 0 <= i < a.len() && a[i] == g;
        assert((a + b)[i] == g);
    }
    if b.contains(g) {
        let i = choose|i: int| 0 <= i < b.len() && b[i] == g;
        assert((a + b)[a.len() + i] == g);
    }
}

} // verus!
