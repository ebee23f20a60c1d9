//! The cells that spells and racial abilities reshape around a block
//! position: round craters, a ring of grass under the feet, a stone spike.

use vstd::prelude::*;

use crate::chunk::BlockPos;

verus! {

/// Offset of the `k`-th cell of a box `2w + 1` wide and deep and `ny` high
/// whose lowest layer is `dy_lo` above the centre, walked x, then y, then z.
pub open spec fn box_offset(k: int, w: int, ny: int, dy_lo: int) -> (int, int, int) {
    let s = 2 * w + 1;
    (k / (s * ny) - w, (k / s) % ny + dy_lo, k % s - w)
}

pub open spec fn offset_cell(c: BlockPos, o: (int, int, int)) -> BlockPos {
    BlockPos { x: (c.x + o.0) as i32, y: (c.y + o.1) as i32, z: (c.z + o.2) as i32 }
}

pub open spec fn in_ball(o: (int, int, int), rr: int) -> bool {
    o.0 * o.0 + o.1 * o.1 + o.2 * o.2 <= rr
}

/// The cells among the first `n` of a 7 x ny x 7 box around `c` that lie
/// within squared distance `rr` of it, in walking order.
pub open spec fn crater_upto(c: BlockPos, ny: int, dy_lo: int, rr: int, n: nat) -> Seq<BlockPos>
    decreases n,
{
    if n == 0 {
        Seq::empty()
    } else {
        let o = box_offset(n - 1, 3, ny, dy_lo);
        crater_upto(c, ny, dy_lo, rr, (n - 1) as nat) + if in_ball(o, rr) {
            seq![offset_cell(c, o)]
        } else {
            Seq::empty()
        }
    }
}

/// The crater a fire nova blows out around `c`: offsets from -3 to 3 on
/// each axis within squared distance 6.
pub open spec fn spec_nova_cells(c: BlockPos) -> Seq<BlockPos> {
    crater_upto(c, 7, -3, 6, 343)
}

/// The crater of an eruption around the feet cell `c`: x and z offsets
/// from -3 to 3, y offsets from -1 to 2, within squared distance 11.
pub open spec fn spec_eruption_cells(c: BlockPos) -> Seq<BlockPos> {
    crater_upto(c, 4, -1, 11, 196)
}

/// The coordinates of the centre leave room for every offset of the box.
pub open spec fn box_fits(c: BlockPos, dy_lo: int, dy_hi: int) -> bool {
    i32::MIN + 3 <= c.x <= i32::MAX - 3 && i32::MIN + 3 <= c.z <= i32::MAX - 3 && i32::MIN - dy_lo
        <= c.y <= i32::MAX - dy_hi
}

fn crater_cells(c: BlockPos, ny: i32, dy_lo: i32, rr: i32) -> (r: Vec<BlockPos>)
    requires
        1 <= ny <= 7,
        -3 <= dy_lo <= 0,
        dy_lo + ny - 1 <= 3,
        0 <= rr <= 27,
        box_fits(c, dy_lo as int, dy_lo + ny - 1),
    ensures
        r@ == crater_upto(c, ny as int, dy_lo as int, rr as int, (49 * ny) as nat),
{
    let mut out: Vec<BlockPos> = Vec::new();
    let total = 49 * ny;
    let mut k: i32 = 0;
    while k < total
        invariant
            0 <= k <= total,
            total == 49 * ny,
            1 <= ny <= 7,
            -3 <= dy_lo <= 0,
            dy_lo + ny - 1 <= 3,
            box_fits(c, dy_lo as int, dy_lo + ny - 1),
            out@ == crater_upto(c, ny as int, dy_lo as int, rr as int, k as nat),
        decreases total - k,
    {
        let dx = k / (7 * ny) - 3;
        let dy = (k / 7) % ny + dy_lo;
        let dz = k % 7 - 3;
        proof {
            let (ki, nyi) = (k as int, ny as int);
            assert(0 <= ki / (7 * nyi) < 7) by (nonlinear_arith)
                requires
                    0 <= ki < 49 * nyi,
                    1 <= nyi,
            ;
            assert(0 <= (ki / 7) % nyi < nyi) by (nonlinear_arith)
                requires
                    0 <= ki,
                    1 <= nyi,
            ;
        }
        let ghost o = box_offset(k as int, 3, ny as int, dy_lo as int);
        assert(o == (dx as int, dy as int, dz as int));
        assert(-3 <= dx <= 3 && -3 <= dy <= 3 && -3 <= dz <= 3);
        assert(0 <= dx * dx <= 9 && 0 <= dy * dy <= 9 && 0 <= dz * dz <= 9) by (nonlinear_arith)
            requires
                -3 <= dx <= 3,
                -3 <= dy <= 3,
                -3 <= dz <= 3,
        ;
        if dx * dx + dy * dy + dz * dz <= rr {
            out.push(BlockPos { x: c.x + dx, y: c.y + dy, z: c.z + dz });
        }
        k = k + 1;
    }
    out
}

/// The cells a fire nova centred on cell `c` turns to air, in the order
/// they are cleared.
pub fn nova_cells(c: BlockPos) -> (r: Vec<BlockPos>)
    requires
        box_fits(c, -3, 3),
    ensures
        r@ == spec_nova_cells(c),
{
    crater_cells(c, 7, -3, 6)
}

/// The cells an eruption from the feet cell `c` turns to air, in the order
/// they are cleared.
pub fn eruption_cells(c: BlockPos) -> (r: Vec<BlockPos>)
    requires
        box_fits(c, -1, 2),
    ensures
        r@ == spec_eruption_cells(c),
{
    crater_cells(c, 4, -1, 11)
}

/// The 3 x 3 cells just under the feet cell `c` that rooting turns to
/// grass, x offset outer, z offset inner.
pub open spec fn spec_rooting_cells(c: BlockPos) -> Seq<BlockPos> {
    Seq::new(9, |k: int| offset_cell(c, (k / 3 - 1, -1, k % 3 - 1)))
}

pub fn rooting_cells(c: BlockPos) -> (r: Vec<BlockPos>)
    requires
        i32::MIN + 1 <= c.x <= i32::MAX - 1,
        i32::MIN + 1 <= c.y,
        i32::MIN + 1 <= c.z <= i32::MAX - 1,
    ensures
        r@ == spec_rooting_cells(c),
{
    let mut out: Vec<BlockPos> = Vec::new();
    let mut k: i32 = 0;
    while k < 9
        invariant
            0 <= k <= 9,
            i32::MIN + 1 <= c.x <= i32::MAX - 1,
            i32::MIN + 1 <= c.y,
            i32::MIN + 1 <= c.z <= i32::MAX - 1,
            out@ == spec_rooting_cells(c).take(k as int),
        decreases 9 - k,
    {
        out.push(BlockPos { x: c.x + (k / 3 - 1), y: c.y - 1, z: c.z + (k % 3 - 1) });
        assert(out@ =~= spec_rooting_cells(c).take(k + 1));
        k = k + 1;
    }
    assert(out@ =~= spec_rooting_cells(c));
    out
}

/// The column of four cells from `base` upwards that an earth spike turns
/// to stone.
pub open spec fn spec_spike_cells(base: BlockPos) -> Seq<BlockPos> {
    Seq::new(4, |k: int| offset_cell(base, (0, k, 0)))
}

pub fn spike_cells(base: BlockPos) -> (r: Vec<BlockPos>)
    requires
        base.y <= i32::MAX - 3,
    ensures
        r@ == spec_spike_cells(base),
{
    let mut out: Vec<BlockPos> = Vec::new();
    let mut k: i32 = 0;
    while k < 4
        invariant
            0 <= k <= 4,
            base.y <= i32::MAX - 3,
            out@ == spec_spike_cells(base).take(k as int),
        decreases 4 - k,
    {
        out.push(BlockPos { x: base.x, y: base.y + k, z: base.z });
        assert(out@ =~= spec_spike_cells(base).take(k + 1));
        k = k + 1;
    }
    assert(out@ =~= spec_spike_cells(base));
    out
}

proof fn lemma_crater_contains(c: BlockPos, ny: int, dy_lo: int, rr: int, n: nat, p: BlockPos)
    ensures
        crater_upto(c, ny, dy_lo, rr, n).contains(p) <==> exists|k: int|
            0 <= k < n && in_ball(#[trigger] box_offset(k, 3, ny, dy_lo), rr) && p == offset_cell(
                c,
                box_offset(k, 3, ny, dy_lo),
            ),
    decreases n,
{
    if n > 0 {
        let prev = crater_upto(c, ny, dy_lo, rr, (n - 1) as nat);
        let o = box_offset(n - 1, 3, ny, dy_lo);
        let tail = if in_ball(o, rr) {
            seq![offset_cell(c, o)]
        } else {
            Seq::<BlockPos>::empty()
        };
        let all = crater_upto(c, ny, dy_lo, rr, n);
        assert(all == prev + tail);
        lemma_crater_contains(c, ny, dy_lo, rr, (n - 1) as nat, p);
        if all.contains(p) {
            let i = choose|i: int| 0 <= i < all.len() && all[i] == p;
            if i < prev.len() {
                assert(prev[i] == p);
                assert(prev.contains(p));
            } else {
                assert(tail[i - prev.len()] == p);
                assert(in_ball(box_offset(n - 1, 3, ny, dy_lo), rr));
            }
        }
        if exists|k: int|
            0 <= k < n && in_ball(#[trigger] box_offset(k, 3, ny, dy_lo), rr) && p == offset_cell(
                c,
                box_offset(k, 3, ny, dy_lo),
            ) {
            let k = choose|k: int|
                0 <= k < n && in_ball(#[trigger] box_offset(k, 3, ny, dy_lo), rr) && p == offset_cell(
                    c,
                    box_offset(k, 3, ny, dy_lo),
                );
            if k < n - 1 {
                assert(prev.contains(p));
                let i = choose|i: int| 0 <= i < prev.len() && prev[i] == p;
                assert(all[i] == p);
            } else {
                assert(all[prev.len() as int] == p);
            }
        }
    }
}

proof fn lemma_box_index(w: int, ny: int, dy_lo: int, dx: int, dy: int, dz: int)
    requires
        w == 3,
        1 <= ny <= 7,
        -3 <= dx <= 3,
        dy_lo <= dy < dy_lo + ny,
        -3 <= dz <= 3,
    ensures
        ({
            let k = (dx + 3) * (7 * ny) + (dy - dy_lo) * 7 + (dz + 3);
            0 <= k < 49 * ny && box_offset(k, w, ny, dy_lo) == (dx, dy, dz)
        }),
{
    let a = dx + 3;
    let b = dy - dy_lo;
    let e = dz + 3;
    let k = a * (7 * ny) + b * 7 + e;
    assert(0 <= b * 7 + e < 7 * ny) by (nonlinear_arith)
        requires
            0 <= b < ny,
            0 <= e < 7,
    ;
    assert(0 <= k < 49 * ny) by (nonlinear_arith)
        requires
            0 <= a < 7,
            0 <= b * 7 + e < 7 * ny,
            k == a * (7 * ny) + b * 7 + e,
    ;
    vstd::arithmetic::div_mod::lemma_fundamental_div_mod_converse(k, 7 * ny, a, b * 7 + e);
    assert(k / 7 == a * ny + b) by (nonlinear_arith)
        requires
            k == a * (7 * ny) + b * 7 + e,
            0 <= e < 7,
    {
        assert(k == (a * ny + b) * 7 + e) by (nonlinear_arith)
            requires
                k == a * (7 * ny) + b * 7 + e,
        ;
        vstd::arithmetic::div_mod::lemma_fundamental_div_mod_converse(k, 7, a * ny + b, e);
    }
    assert(k % 7 == e) by {
        assert(k == (a * ny + b) * 7 + e) by (nonlinear_arith)
            requires
                k == a * (7 * ny) + b * 7 + e,
        ;
        vstd::arithmetic::div_mod::lemma_fundamental_div_mod_converse(k, 7, a * ny + b, e);
    }
    vstd::arithmetic::div_mod::lemma_fundamental_div_mod_converse(a * ny + b, ny, a, b);
}

proof fn lemma_box_offset_range(k: int, ny: int, dy_lo: int)
    requires
        1 <= ny <= 7,
        0 <= k < 49 * ny,
    ensures
        -3 <= box_offset(k, 3, ny, dy_lo).0 <= 3,
        dy_lo <= box_offset(k, 3, ny, dy_lo).1 < dy_lo + ny,
        -3 <= box_offset(k, 3, ny, dy_lo).2 <= 3,
{
    assert(0 <= k / (7 * ny) < 7) by (nonlinear_arith)
        requires
            0 <= k < 49 * ny,
            1 <= ny,
    ;
    assert(0 <= (k / 7) % ny < ny) by (nonlinear_arith)
        requires
            0 <= k,
            1 <= ny,
    ;
}

/// The cells of a crater are exactly those of its box whose squared
/// distance from the centre is at most `rr`.
proof fn lemma_crater_is_ball(c: BlockPos, ny: int, dy_lo: int, rr: int, dx: int, dy: int, dz: int)
    requires
        1 <= ny <= 7,
        -3 <= dy_lo,
        dy_lo + ny - 1 <= 3,
        box_fits(c, dy_lo, dy_lo + ny - 1),
        -3 <= dx <= 3,
        dy_lo <= dy < dy_lo + ny,
        -3 <= dz <= 3,
    ensures
        crater_upto(c, ny, dy_lo, rr, (49 * ny) as nat).contains(offset_cell(c, (dx, dy, dz)))
            <==> dx * dx + dy * dy + dz * dz <= rr,
{
    let p = offset_cell(c, (dx, dy, dz));
    lemma_crater_contains(c, ny, dy_lo, rr, (49 * ny) as nat, p);
    lemma_box_index(3, ny, dy_lo, dx, dy, dz);
    let k0 = (dx + 3) * (7 * ny) + (dy - dy_lo) * 7 + (dz + 3);
    if dx * dx + dy * dy + dz * dz <= rr {
        assert(in_ball(box_offset(k0, 3, ny, dy_lo), rr));
    }
    if crater_upto(c, ny, dy_lo, rr, (49 * ny) as nat).contains(p) {
        let k = choose|k: int|
            0 <= k < 49 * ny && in_ball(#[trigger] box_offset(k, 3, ny, dy_lo), rr) && p == offset_cell(
                c,
                box_offset(k, 3, ny, dy_lo),
            );
        lemma_box_offset_range(k, ny, dy_lo);
        let o = box_offset(k, 3, ny, dy_lo);
        assert(o == (dx, dy, dz));
    }
}

/// A fire nova clears exactly the cells within squared distance 6 of its
/// centre, among those up to 3 away on each axis.
pub proof fn law_nova_is_a_ball(c: BlockPos, dx: int, dy: int, dz: int)
    requires
        box_fits(c, -3, 3),
        -3 <= dx <= 3,
        -3 <= dy <= 3,
        -3 <= dz <= 3,
    ensures
        spec_nova_cells(c).contains(offset_cell(c, (dx, dy, dz))) <==> dx * dx + dy * dy + dz * dz <= 6,
{
    lemma_crater_is_ball(c, 7, -3, 6, dx, dy, dz);
}

/// An eruption clears exactly the cells within squared distance 11 of the
/// feet cell, among those up to 3 away across, 1 below and 2 above.
pub proof fn law_eruption_is_a_ball(c: BlockPos, dx: int, dy: int, dz: int)
    requires
        box_fits(c, -1, 2),
        -3 <= dx <= 3,
        -1 <= dy <= 2,
        -3 <= dz <= 3,
    ensures
        spec_eruption_cells(c).contains(offset_cell(c, (dx, dy, dz))) <==> dx * dx + dy * dy + dz * dz <= 11,
{
    lemma_crater_is_ball(c, 4, -1, 11, dx, dy, dz);
}

/// Every cell a crater clears lies in its box.
pub proof fn law_crater_stays_in_box(c: BlockPos, ny: int, dy_lo: int, rr: int, p: BlockPos)
    requires
        1 <= ny <= 7,
        crater_upto(c, ny, dy_lo, rr, (49 * ny) as nat).contains(p),
    ensures
        exists|dx: int, dy: int, dz: int|
            -3 <= dx <= 3 && dy_lo <= dy < dy_lo + ny && -3 <= dz <= 3 && dx * dx + dy * dy + dz * dz
                <= rr && p == #[trigger] offset_cell(c, (dx, dy, dz)),
{
    lemma_crater_contains(c, ny, dy_lo, rr, (49 * ny) as nat, p);
    let k = choose|k: int|
        0 <= k < 49 * ny && in_ball(#[trigger] box_offset(k, 3, ny, dy_lo), rr) && p == offset_cell(
            c,
            box_offset(k, 3, ny, dy_lo),
        );
    lemma_box_offset_range(k, ny, dy_lo);
    let o = box_offset(k, 3, ny, dy_lo);
    assert(p == offset_cell(c, (o.0, o.1, o.2)));
}

} // verus!
