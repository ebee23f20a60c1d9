//! Which faces of a chunk's blocks are visible: a face is drawn only when
//! the neighbouring cell on that side is empty or outside the chunk.

use vstd::prelude::*;

use crate::block::{spec_tile_bottom, spec_tile_side, spec_tile_top, Block, CHUNK_HEIGHT, CHUNK_SIZE};
use crate::chunk::{cell_index, in_chunk, ChunkBlocks, CHUNK_VOLUME};

verus! {

/// The side of a block a face looks at.
#[derive(Debug, Clone, Copy, PartialEq, Eq, Structural)]
pub enum FaceDir {
    Up,
    Down,
    PosX,
    NegX,
    PosZ,
    NegZ,
}

/// A visible face of the block at local cell (x, y, z), with its atlas tile.
#[derive(Debug, Clone, Copy, PartialEq, Eq, Structural)]
pub struct Face {
    pub x: usize,
    pub y: usize,
    pub z: usize,
    pub dir: FaceDir,
    pub tile: usize,
}

/// The x, y and z of the cell stored at index `c`.
pub open spec fn cell_x(c: int) -> int {
    c / 1024
}

pub open spec fn cell_y(c: int) -> int {
    (c / 16) % 64
}

pub open spec fn cell_z(c: int) -> int {
    c % 16
}

pub proof fn lemma_cell_decompose(c: int)
    requires
        0 <= c < CHUNK_VOLUME,
    ensures
        in_chunk(cell_x(c), cell_y(c), cell_z(c)),
        cell_index(cell_x(c), cell_y(c), cell_z(c)) == c,
{
}

/// The cell holds a solid block; cells outside the chunk do not.
pub open spec fn solid_cell(s: Seq<Block>, x: int, y: int, z: int) -> bool {
    in_chunk(x, y, z) && s[cell_index(x, y, z)] != Block::Air
}

pub open spec fn opt_face(show: bool, f: Face) -> Seq<Face> {
    if show {
        seq![f]
    } else {
        Seq::empty()
    }
}

/// The visible faces of one cell, in the order up, down, +x, -x, +z, -z.
#[verifier::opaque]
pub open spec fn cell_faces(s: Seq<Block>, x: int, y: int, z: int) -> Seq<Face> {
    let b = s[cell_index(x, y, z)];
    if b == Block::Air {
        Seq::empty()
    } else {
        opt_face(!solid_cell(s, x, y + 1, z), mk_face(x, y, z, FaceDir::Up, spec_tile_top(b)))
            + opt_face(!solid_cell(s, x, y - 1, z), mk_face(x, y, z, FaceDir::Down, spec_tile_bottom(b)))
            + opt_face(!solid_cell(s, x + 1, y, z), mk_face(x, y, z, FaceDir::PosX, spec_tile_side(b)))
            + opt_face(!solid_cell(s, x - 1, y, z), mk_face(x, y, z, FaceDir::NegX, spec_tile_side(b)))
            + opt_face(!solid_cell(s, x, y, z + 1), mk_face(x, y, z, FaceDir::PosZ, spec_tile_side(b)))
            + opt_face(!solid_cell(s, x, y, z - 1), mk_face(x, y, z, FaceDir::NegZ, spec_tile_side(b)))
    }
}

pub open spec fn mk_face(x: int, y: int, z: int, d: FaceDir, t: usize) -> Face {
    Face { x: x as usize, y: y as usize, z: z as usize, dir: d, tile: t }
}

/// The visible faces of the first `n` cells, cell by cell.
pub open spec fn faces_upto(s: Seq<Block>, n: nat) -> Seq<Face>
    decreases n,
{
    if n == 0 {
        Seq::empty()
    } else {
        let c = n - 1;
        faces_upto(s, (n - 1) as nat) + cell_faces(s, cell_x(c), cell_y(c), cell_z(c))
    }
}


fn push_if(out: &mut Vec<Face>, show: bool, f: Face)
    ensures
        final(out)@ == old(out)@ + opt_face(show, f),
{
    if show {
        out.push(f);
    }
    assert(final(out)@ =~= old(out)@ + opt_face(show, f));
}

/// The cell next to (x, y, z) on side `d` is empty or outside the chunk.
pub(crate) fn open_toward(blocks: &ChunkBlocks, x: usize, y: usize, z: usize, d: FaceDir) -> (r: bool)
    requires
        blocks.wf(),
        in_chunk(x as int, y as int, z as int),
    ensures
        r == !solid_cell(blocks@, x + dir_dx(d), y + dir_dy(d), z + dir_dz(d)),
{
    match d {
        FaceDir::Up => y == CHUNK_HEIGHT - 1 || !blocks.get(x, y + 1, z).is_solid(),
        FaceDir::Down => y == 0 || !blocks.get(x, y - 1, z).is_solid(),
        FaceDir::PosX => x == CHUNK_SIZE - 1 || !blocks.get(x + 1, y, z).is_solid(),
        FaceDir::NegX => x == 0 || !blocks.get(x - 1, y, z).is_solid(),
        FaceDir::PosZ => z == CHUNK_SIZE - 1 || !blocks.get(x, y, z + 1).is_solid(),
        FaceDir::NegZ => z == 0 || !blocks.get(x, y, z - 1).is_solid(),
    }
}

/// The step from a cell to its neighbour on side `d`.
pub open spec fn dir_dx(d: FaceDir) -> int {
    match d {
        FaceDir::PosX => 1,
        FaceDir::NegX => -1,
        _ => 0,
    }
}

pub open spec fn dir_dy(d: FaceDir) -> int {
    match d {
        FaceDir::Up => 1,
        FaceDir::Down => -1,
        _ => 0,
    }
}

pub open spec fn dir_dz(d: FaceDir) -> int {
    match d {
        FaceDir::PosZ => 1,
        FaceDir::NegZ => -1,
        _ => 0,
    }
}

proof fn lemma_cell_faces_parts(
    s: Seq<Block>,
    x: int,
    y: int,
    z: int,
    o1: Seq<Face>,
    o2: Seq<Face>,
    o3: Seq<Face>,
    o4: Seq<Face>,
    o5: Seq<Face>,
    o6: Seq<Face>,
)
    requires
        s[cell_index(x, y, z)] != Block::Air,
        o1 == opt_face(!solid_cell(s, x, y + 1, z), mk_face(x, y, z, FaceDir::Up, spec_tile_top(s[cell_index(x, y, z)]))),
        o2 == opt_face(!solid_cell(s, x, y - 1, z), mk_face(x, y, z, FaceDir::Down, spec_tile_bottom(s[cell_index(x, y, z)]))),
        o3 == opt_face(!solid_cell(s, x + 1, y, z), mk_face(x, y, z, FaceDir::PosX, spec_tile_side(s[cell_index(x, y, z)]))),
        o4 == opt_face(!solid_cell(s, x - 1, y, z), mk_face(x, y, z, FaceDir::NegX, spec_tile_side(s[cell_index(x, y, z)]))),
        o5 == opt_face(!solid_cell(s, x, y, z + 1), mk_face(x, y, z, FaceDir::PosZ, spec_tile_side(s[cell_index(x, y, z)]))),
        o6 == opt_face(!solid_cell(s, x, y, z - 1), mk_face(x, y, z, FaceDir::NegZ, spec_tile_side(s[cell_index(x, y, z)]))),
    ensures
        cell_faces(s, x, y, z) == o1 + o2 + o3 + o4 + o5 + o6,
{
    reveal(cell_faces);
}

fn cell_face_list(blocks: &ChunkBlocks, x: usize, y: usize, z: usize) -> (out: Vec<Face>)
    requires
        blocks.wf(),
        in_chunk(x as int, y as int, z as int),
    ensures
        out@ == cell_faces(blocks@, x as int, y as int, z as int),
{
    let mut out: Vec<Face> = Vec::new();
    let ghost s = blocks@;
    let ghost (xi, yi, zi) = (x as int, y as int, z as int);
    let b = blocks.get(x, y, z);
    if !b.is_solid() {
        assert(cell_faces(s, xi, yi, zi) =~= Seq::<Face>::empty()) by {
            reveal(cell_faces);
        }
        return out;
    }
    let tt = b.tile_top();
    let tb = b.tile_bottom();
    let ts = b.tile_side();
    let f1 = Face { x, y, z, dir: FaceDir::Up, tile: tt };
    let f2 = Face { x, y, z, dir: FaceDir::Down, tile: tb };
    let f3 = Face { x, y, z, dir: FaceDir::PosX, tile: ts };
    let f4 = Face { x, y, z, dir: FaceDir::NegX, tile: ts };
    let f5 = Face { x, y, z, dir: FaceDir::PosZ, tile: ts };
    let f6 = Face { x, y, z, dir: FaceDir::NegZ, tile: ts };
    let up = open_toward(blocks, x, y, z, FaceDir::Up);
    push_if(&mut out, up, f1);
    let down = open_toward(blocks, x, y, z, FaceDir::Down);
    push_if(&mut out, down, f2);
    let px = open_toward(blocks, x, y, z, FaceDir::PosX);
    push_if(&mut out, px, f3);
    let nx = open_toward(blocks, x, y, z, FaceDir::NegX);
    push_if(&mut out, nx, f4);
    let pz = open_toward(blocks, x, y, z, FaceDir::PosZ);
    push_if(&mut out, pz, f5);
    let nz = open_toward(blocks, x, y, z, FaceDir::NegZ);
    push_if(&mut out, nz, f6);
    proof {
        lemma_cell_faces_parts(
            s,
            xi,
            yi,
            zi,
            opt_face(up, f1),
            opt_face(down, f2),
            opt_face(px, f3),
            opt_face(nx, f4),
            opt_face(pz, f5),
            opt_face(nz, f6),
        );
        assert(out@ =~= (opt_face(up, f1) + opt_face(down, f2) + opt_face(px, f3) + opt_face(
            nx,
            f4,
        ) + opt_face(pz, f5) + opt_face(nz, f6)));
    }
    out
}

/// The faces of a chunk to draw, cell by cell in storage order (x, then y,
/// then z), each cell listing its faces up, down, +x, -x, +z, -z. Faces on
/// the chunk border are always drawn: neighbouring chunks are not looked at.
pub fn visible_faces(blocks: &ChunkBlocks) -> (r: Vec<Face>)
    requires
        blocks.wf(),
    ensures
        r@ == faces_upto(blocks@, CHUNK_VOLUME as nat),
{
    let mut out: Vec<Face> = Vec::new();
    let mut c: usize = 0;
    while c < CHUNK_VOLUME
        invariant
            c <= CHUNK_VOLUME,
            blocks.wf(),
            out@ == faces_upto(blocks@, c as nat),
        decreases CHUNK_VOLUME - c,
    {
        let x = c / 1024;
        let y = (c / 16) % 64;
        let z = c % 16;
        proof {
            lemma_cell_decompose(c as int);
        }
        let mut cf = cell_face_list(blocks, x, y, z);
        out.append(&mut cf);
        c = c + 1;
    }
    out
}

} // verus!
