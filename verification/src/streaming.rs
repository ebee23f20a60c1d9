//! Which chunks to keep, drop and start generating around the player, and
//! how far the loading screen has got.

use vstd::prelude::*;

verus! {

/// Chunk coordinates.
pub type Coord = (i32, i32);

/// The square of chunks within `rd` of (px, pz) on both axes.
pub open spec fn in_ring(c: Coord, px: int, pz: int, rd: int) -> bool {
    px - rd <= c.0 <= px + rd && pz - rd <= c.1 <= pz + rd
}

/// Squared distance from (px, pz).
pub open spec fn dist2(c: Coord, px: int, pz: int) -> int {
    (c.0 - px) * (c.0 - px) + (c.1 - pz) * (c.1 - pz)
}

/// Side of the square of radius `rd`; none when `rd` is negative.
pub open spec fn ring_side(rd: int) -> int {
    if rd < 0 {
        0
    } else {
        2 * rd + 1
    }
}

/// The chunks of the square of radius `rd` around (px, pz), x-major.
pub open spec fn ring_seq(px: int, pz: int, rd: int) -> Seq<Coord> {
    let side = ring_side(rd);
    Seq::new(
        (side * side) as nat,
        |k: int| ((px - rd + k / side) as i32, (pz - rd + k % side) as i32),
    )
}

/// The coordinates fit in `i32` for every chunk of the square.
pub open spec fn ring_fits(px: int, pz: int, rd: int) -> bool {
    -1000 <= rd <= 1000 && i32::MIN + 1000 <= px <= i32::MAX - 1000 && i32::MIN + 1000 <= pz
        <= i32::MAX - 1000
}

pub open spec fn covered(c: Coord, loaded: Seq<Coord>, pending: Seq<Coord>) -> bool {
    loaded.contains(c) || pending.contains(c)
}

/// Index of the first nearest chunk of `s.take(n)` to (px, pz).
pub open spec fn nearest_index(s: Seq<Coord>, n: int, px: int, pz: int) -> int
    decreases n,
{
    if n <= 1 {
        0
    } else {
        let m = nearest_index(s, n - 1, px, pz);
        if dist2(s[n - 1], px, pz) < dist2(s[m], px, pz) {
            n - 1
        } else {
            m
        }
    }
}

/// The first `k` chunks of `s` taken nearest first; chunks at the same
/// distance keep their order.
pub open spec fn nearest_first(s: Seq<Coord>, k: nat, px: int, pz: int) -> Seq<Coord>
    decreases k,
{
    if k == 0 || s.len() == 0 {
        Seq::empty()
    } else {
        let m = nearest_index(s, s.len() as int, px, pz);
        seq![s[m]] + nearest_first(s.remove(m), (k - 1) as nat, px, pz)
    }
}

/// What to do with the chunks around the player this frame.
pub struct ChunkPlan {
    /// Loaded chunks to drop, in the order given.
    pub unload: Vec<Coord>,
    /// Pending generations to cancel, in the order given.
    pub cancel: Vec<Coord>,
    /// Chunks whose generation starts now, nearest first.
    pub load: Vec<Coord>,
}

/// Chunks of the square that are neither loaded nor pending, x-major.
pub open spec fn missing(px: int, pz: int, rd: int, loaded: Seq<Coord>, pending: Seq<Coord>) -> Seq<
    Coord,
> {
    ring_seq(px, pz, rd).filter(|c: Coord| !covered(c, loaded, pending))
}

/// Nothing to do: the player is in the chunk of the last plan and every
/// chunk of the square is loaded or pending.
pub open spec fn plan_skipped(
    px: int,
    pz: int,
    rd: int,
    last: Coord,
    loaded: Seq<Coord>,
    pending: Seq<Coord>,
) -> bool {
    last == (px as i32, pz as i32) && forall|k: int|
        0 <= k < ring_seq(px, pz, rd).len() ==> covered(
            #[trigger] ring_seq(px, pz, rd)[k],
            loaded,
            pending,
        )
}

/// Number of generations started in one frame: more while the loading
/// screen is up.
pub open spec fn load_budget(in_loading: bool) -> nat {
    if in_loading {
        12
    } else {
        6
    }
}

pub open spec fn plan_matches(
    p: ChunkPlan,
    px: int,
    pz: int,
    rd: int,
    loaded: Seq<Coord>,
    pending: Seq<Coord>,
    in_loading: bool,
) -> bool {
    &&& p.unload@ == loaded.filter(|c: Coord| !in_ring(c, px, pz, rd))
    &&& p.cancel@ == pending.filter(|c: Coord| !in_ring(c, px, pz, rd))
    &&& p.load@ == nearest_first(missing(px, pz, rd, loaded, pending), load_budget(in_loading), px, pz)
}

pub(crate) fn contains_coord(v: &Vec<Coord>, c: Coord) -> (r: bool)
    ensures
        r == v@.contains(c),
{
    let mut i: usize = 0;
    while i < v.len()
        invariant
            i <= v.len(),
            forall|k: int| 0 <= k < i ==> v@[k] != c,
        decreases v.len() - i,
    {
        let e = v[i];
        if e.0 == c.0 && e.1 == c.1 {
            assert(v@[i as int] == c);
            return true;
        }
        i = i + 1;
    }
    false
}

fn keep_outside(v: &Vec<Coord>, px: i32, pz: i32, rd: i32) -> (r: Vec<Coord>)
    requires
        ring_fits(px as int, pz as int, rd as int),
    ensures
        r@ == v@.filter(|c: Coord| !in_ring(c, px as int, pz as int, rd as int)),
{
    let ghost f = |c: Coord| !in_ring(c, px as int, pz as int, rd as int);
    let mut out: Vec<Coord> = Vec::new();
    let mut i: usize = 0;
    while i < v.len()
        invariant
            i <= v.len(),
            ring_fits(px as int, pz as int, rd as int),
            f == (|c: Coord| !in_ring(c, px as int, pz as int, rd as int)),
            out@ == v@.take(i as int).filter(f),
        decreases v.len() - i,
    {
        let c = v[i];
        let inside = px - rd <= c.0 && c.0 <= px + rd && pz - rd <= c.1 && c.1 <= pz + rd;
        if !inside {
            out.push(c);
        }
        proof {
            reveal(Seq::filter);
            assert(v@.take(i + 1).drop_last() =~= v@.take(i as int));
            assert(v@.take(i + 1).last() == c);
        }
        i = i + 1;
    }
    assert(v@.take(v.len() as int) =~= v@);
    out
}

/// The square of chunks around (px, pz), x-major.
pub(crate) fn ring(px: i32, pz: i32, rd: i32) -> (r: Vec<Coord>)
    requires
        ring_fits(px as int, pz as int, rd as int),
    ensures
        r@ == ring_seq(px as int, pz as int, rd as int),
{
    let mut out: Vec<Coord> = Vec::new();
    if rd < 0 {
        assert(ring_side(rd as int) == 0);
        assert(ring_seq(px as int, pz as int, rd as int).len() == 0);
        assert(out@ =~= ring_seq(px as int, pz as int, rd as int));
        return out;
    }
    let side: i32 = 2 * rd + 1;
    assert(0 <= side * side <= 2001 * 2001) by (nonlinear_arith)
        requires
            1 <= side <= 2001,
    ;
    let total: i32 = side * side;
    let mut k: i32 = 0;
    while k < total
        invariant
            0 <= rd <= 1000,
            side == 2 * rd + 1,
            total == side * side,
            0 <= k <= total,
            ring_fits(px as int, pz as int, rd as int),
            out@ == ring_seq(px as int, pz as int, rd as int).take(k as int),
        decreases total - k,
    {
        proof {
            let (ki, si) = (k as int, side as int);
            assert(0 <= ki / si < si) by (nonlinear_arith)
                requires
                    0 <= ki < si * si,
                    1 <= si,
            ;
            assert(0 <= ki % si < si) by (nonlinear_arith)
                requires
                    0 <= ki,
                    1 <= si,
            ;
        }
        let c = (px - rd + k / side, pz - rd + k % side);
        out.push(c);
        proof {
            assert(out@ =~= ring_seq(px as int, pz as int, rd as int).take(k + 1));
        }
        k = k + 1;
    }
    out
}

fn nearest_index_exec(s: &Vec<Coord>, px: i32, pz: i32) -> (m: usize)
    requires
        s.len() > 0,
        forall|k: int| 0 <= k < s.len() ==> -3000 <= (#[trigger] s@[k]).0 - px <= 3000 && -3000 <= s@[k].1
            - pz <= 3000,
    ensures
        m == nearest_index(s@, s@.len() as int, px as int, pz as int),
        m < s.len(),
{
    let mut m: usize = 0;
    let mut i: usize = 1;
    while i < s.len()
        invariant
            1 <= i <= s.len(),
            m < i,
            m == nearest_index(s@, i as int, px as int, pz as int),
            forall|k: int| 0 <= k < s.len() ==> -3000 <= (#[trigger] s@[k]).0 - px <= 3000 && -3000
                <= s@[k].1 - pz <= 3000,
        decreases s.len() - i,
    {
        let a = s[i];
        let b = s[m];
        let (ax, az) = ((a.0 - px) as i64, (a.1 - pz) as i64);
        let (bx, bz) = ((b.0 - px) as i64, (b.1 - pz) as i64);
        proof {
            assert(-3000 <= ax <= 3000 && -3000 <= az <= 3000 && -3000 <= bx <= 3000 && -3000 <= bz
                <= 3000);
            assert(0 <= ax * ax <= 9_000_000 && 0 <= az * az <= 9_000_000 && 0 <= bx * bx
                <= 9_000_000 && 0 <= bz * bz <= 9_000_000) by (nonlinear_arith)
                requires
                    -3000 <= ax <= 3000,
                    -3000 <= az <= 3000,
                    -3000 <= bx <= 3000,
                    -3000 <= bz <= 3000,
            ;
        }
        if ax * ax + az * az < bx * bx + bz * bz {
            m = i;
        }
        i = i + 1;
    }
    m
}

pub(crate) fn nearest_first_exec(s: Vec<Coord>, k: usize, px: i32, pz: i32) -> (r: Vec<Coord>)
    requires
        forall|j: int| 0 <= j < s.len() ==> -3000 <= (#[trigger] s@[j]).0 - px <= 3000 && -3000 <= s@[j].1
            - pz <= 3000,
    ensures
        r@ == nearest_first(s@, k as nat, px as int, pz as int),
{
    let ghost s0 = s@;
    let mut rest = s;
    let mut out: Vec<Coord> = Vec::new();
    let mut n: usize = 0;
    while n < k && rest.len() > 0
        invariant
            n <= k,
            forall|j: int| 0 <= j < rest.len() ==> -3000 <= (#[trigger] rest@[j]).0 - px <= 3000
                && -3000 <= rest@[j].1 - pz <= 3000,
            out@ + nearest_first(rest@, (k - n) as nat, px as int, pz as int) == nearest_first(
                s0,
                k as nat,
                px as int,
                pz as int,
            ),
        decreases k - n,
    {
        let m = nearest_index_exec(&rest, px, pz);
        let ghost before = rest@;
        let c = rest.remove(m);
        proof {
            assert(c == before[m as int]);
            assert forall|j: int| 0 <= j < rest.len() implies -3000 <= (#[trigger] rest@[j]).0 - px
                <= 3000 && -3000 <= rest@[j].1 - pz <= 3000 by {
                if j < m {
                    assert(rest@[j] == before[j]);
                } else {
                    assert(rest@[j] == before[j + 1]);
                }
            }
            assert(out@.push(c) + nearest_first(rest@, (k - n - 1) as nat, px as int, pz as int)
                =~= out@ + nearest_first(before, (k - n) as nat, px as int, pz as int));
        }
        out.push(c);
        n = n + 1;
    }
    proof {
        assert(nearest_first(rest@, (k - n) as nat, px as int, pz as int) =~= Seq::<Coord>::empty());
        assert(out@ + Seq::<Coord>::empty() =~= out@);
    }
    out
}

pub proof fn lemma_ring_near(px: int, pz: int, rd: int, k: int)
    requires
        ring_fits(px, pz, rd),
        0 <= k < ring_seq(px, pz, rd).len(),
    ensures
        in_ring(ring_seq(px, pz, rd)[k], px, pz, rd),
        ring_seq(px, pz, rd)[k].0 == px - rd + k / ring_side(rd),
        ring_seq(px, pz, rd)[k].1 == pz - rd + k % ring_side(rd),
{
    let side = ring_side(rd);
    if rd < 0 {
        assert(side * side == 0);
    } else {
        assert(0 <= k / side < side) by (nonlinear_arith)
            requires
                0 <= k < side * side,
                1 <= side,
        ;
        assert(0 <= k % side < side) by (nonlinear_arith)
            requires
                0 <= k,
                1 <= side,
        ;
    }
}

/// Decides what changes around the player at (px, pz) with render
/// distance `rd`, given the chunk of the last plan and the loaded and
/// pending chunks. `None` when nothing has to be done; else the chunks to
/// drop and cancel (those outside the square) and up to 12 (loading
/// screen) or 6 chunks of the square to start, nearest first.
pub fn plan_chunks(
    px: i32,
    pz: i32,
    rd: i32,
    last: Coord,
    loaded: &Vec<Coord>,
    pending: &Vec<Coord>,
    in_loading: bool,
) -> (r: Option<ChunkPlan>)
    requires
        ring_fits(px as int, pz as int, rd as int),
    ensures
        r is None <==> plan_skipped(px as int, pz as int, rd as int, last, loaded@, pending@),
        r matches Some(p) ==> plan_matches(p, px as int, pz as int, rd as int, loaded@, pending@, in_loading),
{
    let needed = ring(px, pz, rd);
    let ghost ring_s = ring_seq(px as int, pz as int, rd as int);
    if last.0 == px && last.1 == pz {
        let mut all = true;
        let mut i: usize = 0;
        while i < needed.len()
            invariant
                i <= needed.len(),
                needed@ == ring_s,
                all == forall|k: int| 0 <= k < i ==> covered(#[trigger] ring_s[k], loaded@, pending@),
            decreases needed.len() - i,
        {
            let c = needed[i];
            if !contains_coord(loaded, c) && !contains_coord(pending, c) {
                all = false;
            }
            i = i + 1;
        }
        if all {
            return None;
        }
    }
    let unload = keep_outside(loaded, px, pz, rd);
    let cancel = keep_outside(pending, px, pz, rd);
    let ghost f = |c: Coord| !covered(c, loaded@, pending@);
    let mut todo: Vec<Coord> = Vec::new();
    let mut i: usize = 0;
    while i < needed.len()
        invariant
            i <= needed.len(),
            needed@ == ring_s,
            ring_s == ring_seq(px as int, pz as int, rd as int),
            ring_fits(px as int, pz as int, rd as int),
            f == (|c: Coord| !covered(c, loaded@, pending@)),
            todo@ == needed@.take(i as int).filter(f),
            forall|j: int| 0 <= j < todo.len() ==> in_ring(#[trigger] todo@[j], px as int, pz as int, rd as int),
        decreases needed.len() - i,
    {
        let c = needed[i];
        proof {
            lemma_ring_near(px as int, pz as int, rd as int, i as int);
        }
        if !contains_coord(loaded, c) && !contains_coord(pending, c) {
            todo.push(c);
        }
        proof {
            reveal(Seq::filter);
            assert(needed@.take(i + 1).drop_last() =~= needed@.take(i as int));
            assert(needed@.take(i + 1).last() == c);
        }
        i = i + 1;
    }
    assert(needed@.take(needed.len() as int) =~= needed@);
    proof {
        reveal(Seq::filter);
    }
    let budget: usize = if in_loading {
        12
    } else {
        6
    };
    let load = nearest_first_exec(todo, budget, px, pz);
    Some(ChunkPlan { unload, cancel, load })
}

/// Chunks of the square around (px, pz) that are loaded, and how many the
/// square holds.
pub open spec fn spec_loaded_in_ring(px: int, pz: int, r: int, loaded: Seq<Coord>) -> nat {
    ring_seq(px, pz, r).filter(|c: Coord| loaded.contains(c)).len()
}

/// Progress of the loading screen: how many chunks of the square of radius
/// `r` around (px, pz) are loaded, out of how many; the world is ready when
/// all are and no generation is pending.
pub fn loading_progress(px: i32, pz: i32, r: i32, loaded: &Vec<Coord>, pending_count: usize) -> (res: (
    usize,
    usize,
    bool,
))
    requires
        ring_fits(px as int, pz as int, r as int),
    ensures
        res.0 == spec_loaded_in_ring(px as int, pz as int, r as int, loaded@),
        res.1 == ring_seq(px as int, pz as int, r as int).len(),
        res.2 == (res.0 == res.1 && pending_count == 0),
{
    let needed = ring(px, pz, r);
    let ghost f = |c: Coord| loaded@.contains(c);
    let mut count: usize = 0;
    let mut i: usize = 0;
    while i < needed.len()
        invariant
            i <= needed.len(),
            f == (|c: Coord| loaded@.contains(c)),
            count == needed@.take(i as int).filter(f).len(),
            count <= i,
        decreases needed.len() - i,
    {
        let c = needed[i];
        proof {
            reveal(Seq::filter);
            assert(needed@.take(i + 1).drop_last() =~= needed@.take(i as int));
            assert(needed@.take(i + 1).last() == c);
        }
        if contains_coord(loaded, c) {
            count = count + 1;
        }
        i = i + 1;
    }
    assert(needed@.take(needed.len() as int) =~= needed@);
    let total = needed.len();
    (count, total, count == total && pending_count == 0)
}

// ---------------------------------------------------------------------------
// Laws.

proof fn lemma_nearest_index(s: Seq<Coord>, n: int, px: int, pz: int)
    requires
        1 <= n <= s.len(),
    ensures
        0 <= nearest_index(s, n, px, pz) < n,
        forall|j: int| 0 <= j < n ==> dist2(s[nearest_index(s, n, px, pz)], px, pz) <= dist2(#[trigger] s[j], px, pz),
    decreases n,
{
    if n > 1 {
        lemma_nearest_index(s, n - 1, px, pz);
    }
}

pub proof fn lemma_nearest_first(s: Seq<Coord>, k: nat, px: int, pz: int)
    ensures
        ({
            let r = nearest_first(s, k, px, pz);
            &&& r.len() == if k < s.len() { k as int } else { s.len() as int }
            &&& forall|i: int| 0 <= i < r.len() ==> s.contains(#[trigger] r[i])
            &&& forall|i: int, j: int| 0 <= i <= j < r.len() ==> dist2(#[trigger] r[i], px, pz) <= dist2(#[trigger] r[j], px, pz)
            &&& forall|x: Coord, i: int| #![trigger r[i], s.contains(x)] s.contains(x) && !r.contains(x) && 0 <= i < r.len() ==> dist2(r[i], px, pz) <= dist2(x, px, pz)
        }),
    decreases k,
{
    let r = nearest_first(s, k, px, pz);
    if k == 0 || s.len() == 0 {
    } else {
        let m = nearest_index(s, s.len() as int, px, pz);
        lemma_nearest_index(s, s.len() as int, px, pz);
        let t = s.remove(m);
        let rr = nearest_first(t, (k - 1) as nat, px, pz);
        lemma_nearest_first(t, (k - 1) as nat, px, pz);
        assert(r == seq![s[m]] + rr);
        assert forall|i: int| 0 <= i < r.len() implies s.contains(#[trigger] r[i]) by {
            if i == 0 {
                assert(s[m] == r[0]);
            } else {
                assert(r[i] == rr[i - 1]);
                assert(t.contains(rr[i - 1]));
                let j = choose|j: int| 0 <= j < t.len() && t[j] == rr[i - 1];
                if j < m {
                    assert(s[j] == t[j]);
                } else {
                    assert(s[j + 1] == t[j]);
                }
            }
        }
        assert forall|i: int, j: int| 0 <= i <= j < r.len() implies dist2(#[trigger] r[i], px, pz) <= dist2(#[trigger] r[j], px, pz) by {
            if i == 0 {
                if j > 0 {
                    assert(r[j] == rr[j - 1]);
                    assert(t.contains(rr[j - 1]));
                    let q = choose|q: int| 0 <= q < t.len() && t[q] == rr[j - 1];
                    if q < m {
                        assert(s[q] == t[q]);
                    } else {
                        assert(s[q + 1] == t[q]);
                    }
                }
            } else {
                assert(r[i] == rr[i - 1]);
                assert(r[j] == rr[j - 1]);
            }
        }
        assert forall|x: Coord, i: int| #![trigger r[i], s.contains(x)] s.contains(x) && !r.contains(x) && 0 <= i < r.len() implies dist2(r[i], px, pz) <= dist2(x, px, pz) by {
            let q = choose|q: int| 0 <= q < s.len() && s[q] == x;
            assert(x != s[m]) by {
                if x == s[m] {
                    assert(r[0] == x);
                }
            }
            assert(q != m);
            if q < m {
                assert(t[q] == x);
            } else {
                assert(t[q - 1] == x);
            }
            assert(t.contains(x));
            if i == 0 {
            } else {
                assert(r[i] == rr[i - 1]);
                assert(!rr.contains(x)) by {
                    if rr.contains(x) {
                        let w = choose|w: int| 0 <= w < rr.len() && rr[w] == x;
                        assert(r[w + 1] == x);
                    }
                }
            }
        }
    }
}

/// A plan drops exactly the loaded chunks outside the square and cancels
/// exactly the pending ones outside it, so that afterwards every loaded or
/// pending chunk lies in the square.
pub proof fn law_plan_keeps_only_the_square(
    px: int,
    pz: int,
    rd: int,
    loaded: Seq<Coord>,
    pending: Seq<Coord>,
    c: Coord,
)
    ensures
        loaded.filter(|x: Coord| !in_ring(x, px, pz, rd)).contains(c) <==> (loaded.contains(c)
            && !in_ring(c, px, pz, rd)),
        pending.filter(|x: Coord| !in_ring(x, px, pz, rd)).contains(c) <==> (pending.contains(c)
            && !in_ring(c, px, pz, rd)),
{
    let f = |x: Coord| !in_ring(x, px, pz, rd);
    if loaded.contains(c) && f(c) {
        let i = choose|i: int| 0 <= i < loaded.len() && loaded[i] == c;
        loaded.lemma_filter_contains(f, i);
    }
    if loaded.filter(f).contains(c) {
        loaded.lemma_filter_contains_rev(f, c);
        let i = choose|i: int| 0 <= i < loaded.filter(f).len() && loaded.filter(f)[i] == c;
        loaded.lemma_filter_pred(f, i);
    }
    if pending.contains(c) && f(c) {
        let i = choose|i: int| 0 <= i < pending.len() && pending[i] == c;
        pending.lemma_filter_contains(f, i);
    }
    if pending.filter(f).contains(c) {
        pending.lemma_filter_contains_rev(f, c);
        let i = choose|i: int| 0 <= i < pending.filter(f).len() && pending.filter(f)[i] == c;
        pending.lemma_filter_pred(f, i);
    }
}

/// The chunks a plan starts are chunks of the square that are neither
/// loaded nor pending, as many as the budget allows, nearest first: none
/// of those left for later is nearer than one started now.
pub proof fn law_plan_loads_nearest_missing(
    px: int,
    pz: int,
    rd: int,
    loaded: Seq<Coord>,
    pending: Seq<Coord>,
    budget: nat,
)
    requires
        ring_fits(px, pz, rd),
    ensures
        ({
            let m = missing(px, pz, rd, loaded, pending);
            let l = nearest_first(m, budget, px, pz);
            &&& l.len() == if budget < m.len() { budget as int } else { m.len() as int }
            &&& forall|i: int| 0 <= i < l.len() ==> in_ring(#[trigger] l[i], px, pz, rd) && !covered(l[i], loaded, pending)
            &&& forall|i: int, j: int| 0 <= i <= j < l.len() ==> dist2(#[trigger] l[i], px, pz) <= dist2(#[trigger] l[j], px, pz)
            &&& forall|x: Coord, i: int| #![trigger l[i], m.contains(x)] m.contains(x) && !l.contains(x) && 0 <= i < l.len() ==> dist2(l[i], px, pz) <= dist2(x, px, pz)
        }),
{
    let f = |c: Coord| !covered(c, loaded, pending);
    let rs = ring_seq(px, pz, rd);
    let m = missing(px, pz, rd, loaded, pending);
    let l = nearest_first(m, budget, px, pz);
    lemma_nearest_first(m, budget, px, pz);
    assert forall|i: int| 0 <= i < l.len() implies in_ring(#[trigger] l[i], px, pz, rd) && !covered(l[i], loaded, pending) by {
        assert(m.contains(l[i]));
        let q = choose|q: int| 0 <= q < m.len() && m[q] == l[i];
        rs.lemma_filter_pred(f, q);
        rs.lemma_filter_contains_rev(f, m[q]);
        let k = choose|k: int| 0 <= k < rs.len() && rs[k] == m[q];
        lemma_ring_near(px, pz, rd, k);
    }
}

} // verus!
