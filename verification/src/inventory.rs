//! Backpack, hotbar and the stack arithmetic of picking up, spending,
//! moving and crafting blocks.

use vstd::prelude::*;

use crate::block::Block;

verus! {

/// Largest number of blocks one slot can hold.
pub const MAX_STACK: u32 = 64;

/// One inventory slot: empty, or a stack of one kind of block.
pub type Slot = Option<(Block, u32)>;

/// The 18 backpack slots.
pub struct BlockInventory {
    pub backpack: [Option<(Block, u32)>; 18],
}

/// The 9 quick-access slots and the index of the held one.
pub struct Hotbar {
    pub slots: [Option<(Block, u32)>; 9],
    pub selected: usize,
}

impl Default for BlockInventory {
    fn default() -> (r: Self)
        ensures
            forall|i: int| 0 <= i < 18 ==> r.backpack@[i] is None,
    {
        BlockInventory::new()
    }
}

impl Default for Hotbar {
    fn default() -> (r: Self)
        ensures
            forall|i: int| 0 <= i < 9 ==> r.slots@[i] is None,
            r.selected == 0,
    {
        Hotbar::new()
    }
}

impl BlockInventory {
    /// An empty backpack.
    pub fn new() -> (r: Self)
        ensures
            forall|i: int| 0 <= i < 18 ==> r.backpack@[i] is None,
    {
        BlockInventory { backpack: [None; 18] }
    }
}

impl Hotbar {
    /// An empty hotbar with the first slot selected.
    pub fn new() -> (r: Self)
        ensures
            forall|i: int| 0 <= i < 9 ==> r.slots@[i] is None,
            r.selected == 0,
    {
        Hotbar { slots: [None; 9], selected: 0 }
    }
}

// ---------------------------------------------------------------------------
// Counting.

pub open spec fn min_nat(a: nat, b: nat) -> nat {
    if a <= b { a } else { b }
}

/// Sum of a per-slot quantity over a row of slots.
pub open spec fn sum_slots(s: Seq<Slot>, g: spec_fn(Slot) -> nat) -> nat
    decreases s.len(),
{
    if s.len() == 0 {
        0
    } else {
        g(s[0]) + sum_slots(s.drop_first(), g)
    }
}

/// How many blocks of kind `b` a slot holds.
pub open spec fn slot_amount(x: Slot, b: Block) -> nat {
    match x {
        Some((k, c)) => if k == b { c as nat } else { 0 },
        None => 0,
    }
}

/// How many blocks of kind `b` a row of slots holds.
pub open spec fn amount(s: Seq<Slot>, b: Block) -> nat {
    sum_slots(s, |x: Slot| slot_amount(x, b))
}

/// How many more blocks of kind `b` a slot can take: the rest of a stack of
/// that kind, or a whole stack if the slot is empty.
pub open spec fn slot_room(x: Slot, b: Block) -> nat {
    match x {
        Some((k, c)) => if k == b && c < MAX_STACK { (MAX_STACK - c) as nat } else { 0 },
        None => MAX_STACK as nat,
    }
}

/// Room left for kind `b` in the partial stacks of that kind.
pub open spec fn stack_room(x: Slot, b: Block) -> nat {
    match x {
        Some((k, c)) => if k == b && c < MAX_STACK { (MAX_STACK - c) as nat } else { 0 },
        None => 0,
    }
}

/// Room offered by empty slots.
pub open spec fn empty_room(x: Slot) -> nat {
    match x {
        Some(_) => 0,
        None => MAX_STACK as nat,
    }
}

/// How many more blocks of kind `b` a row of slots can take.
pub open spec fn room(s: Seq<Slot>, b: Block) -> nat {
    sum_slots(s, |x: Slot| slot_room(x, b))
}

pub proof fn lemma_sum_concat(a: Seq<Slot>, c: Seq<Slot>, g: spec_fn(Slot) -> nat)
    ensures
        sum_slots(a + c, g) == sum_slots(a, g) + sum_slots(c, g),
    decreases a.len(),
{
    if a.len() == 0 {
        assert(a + c =~= c);
    } else {
        assert((a + c).drop_first() =~= a.drop_first() + c);
        lemma_sum_concat(a.drop_first(), c, g);
    }
}

pub proof fn lemma_sum_push(a: Seq<Slot>, x: Slot, g: spec_fn(Slot) -> nat)
    ensures
        sum_slots(a.push(x), g) == sum_slots(a, g) + g(x),
{
    lemma_sum_concat(a, seq![x], g);
    assert(a.push(x) =~= a + seq![x]);
    assert(seq![x].drop_first() =~= Seq::<Slot>::empty());
    assert(sum_slots(seq![x].drop_first(), g) == 0);
    assert(sum_slots(seq![x], g) == g(x) + sum_slots(seq![x].drop_first(), g));
}

pub proof fn lemma_sum_prepend(x: Slot, a: Seq<Slot>, g: spec_fn(Slot) -> nat)
    ensures
        sum_slots(seq![x] + a, g) == g(x) + sum_slots(a, g),
{
    assert((seq![x] + a).drop_first() =~= a);
}

pub proof fn lemma_sum_take_step(s: Seq<Slot>, i: int, g: spec_fn(Slot) -> nat)
    requires
        0 <= i < s.len(),
    ensures
        sum_slots(s.take(i + 1), g) == sum_slots(s.take(i), g) + g(s[i]),
{
    assert(s.take(i + 1) =~= s.take(i).push(s[i]));
    lemma_sum_push(s.take(i), s[i], g);
}

pub proof fn lemma_sum_update(s: Seq<Slot>, i: int, v: Slot, g: spec_fn(Slot) -> nat)
    requires
        0 <= i < s.len(),
    ensures
        sum_slots(s.update(i, v), g) + g(s[i]) == sum_slots(s, g) + g(v),
{
    let a = s.take(i);
    let c = s.skip(i + 1);
    assert(s =~= a + (seq![s[i]] + c));
    assert(s.update(i, v) =~= a + (seq![v] + c));
    lemma_sum_concat(a, seq![s[i]] + c, g);
    lemma_sum_concat(a, seq![v] + c, g);
    lemma_sum_prepend(s[i], c, g);
    lemma_sum_prepend(v, c, g);
}

/// Number of blocks of a kind in the backpack.
fn row_count<const N: usize>(row: &[Option<(Block, u32)>; N], block: Block) -> (r: u32)
    requires
        amount(row@, block) <= u32::MAX,
    ensures
        r == amount(row@, block),
{
    let mut total: u32 = 0;
    let mut i: usize = 0;
    while i < N
        invariant
            i <= N,
            row@.len() == N,
            amount(row@, block) <= u32::MAX,
            total == amount(row@.take(i as int), block),
        decreases N - i,
    {
        proof {
            lemma_sum_take_step(row@, i as int, |x: Slot| slot_amount(x, block));
            lemma_sum_concat(row@.take(i as int + 1), row@.skip(i as int + 1), |x: Slot| slot_amount(x, block));
            assert(row@ =~= row@.take(i as int + 1) + row@.skip(i as int + 1));
        }
        match row[i] {
            Some((b, n)) => {
                if b == block {
                    total = total + n;
                }
            },
            None => {},
        }
        i = i + 1;
    }
    proof {
        assert(row@.take(N as int) =~= row@);
    }
    total
}

impl BlockInventory {
    /// Number of blocks of a kind held in the backpack alone.
    pub fn count(&self, block: Block) -> (r: u32)
        requires
            amount(self.backpack@, block) <= u32::MAX,
        ensures
            r == amount(self.backpack@, block),
    {
        row_count(&self.backpack, block)
    }
}

/// Number of blocks of a kind in the hotbar and the backpack together.
pub fn total_count(inv: &BlockInventory, hotbar: &Hotbar, block: Block) -> (r: u32)
    requires
        amount(inv.backpack@, block) + amount(hotbar.slots@, block) <= u32::MAX,
    ensures
        r == amount(inv.backpack@, block) + amount(hotbar.slots@, block),
{
    let bp = row_count(&inv.backpack, block);
    let hb = row_count(&hotbar.slots, block);
    bp + hb
}


/// Number of blocks of a kind in a row of slots, or `None` when that number
/// does not fit in a `u32`.
fn row_count_checked<const N: usize>(row: &[Option<(Block, u32)>; N], block: Block) -> (r: Option<u32>)
    ensures
        r is Some <==> amount(row@, block) <= u32::MAX,
        r matches Some(v) ==> v == amount(row@, block),
{
    let mut total: u32 = 0;
    let mut i: usize = 0;
    while i < N
        invariant
            i <= N,
            row@.len() == N,
            total == amount(row@.take(i as int), block),
        decreases N - i,
    {
        proof {
            lemma_sum_take_step(row@, i as int, |x: Slot| slot_amount(x, block));
            lemma_sum_concat(row@.take(i as int + 1), row@.skip(i as int + 1), |x: Slot| slot_amount(x, block));
            assert(row@ =~= row@.take(i as int + 1) + row@.skip(i as int + 1));
        }
        match row[i] {
            Some((b, n)) => {
                if b == block {
                    match total.checked_add(n) {
                        Some(t) => {
                            total = t;
                        },
                        None => {
                            return None;
                        },
                    }
                }
            },
            None => {},
        }
        i = i + 1;
    }
    proof {
        assert(row@.take(N as int) =~= row@);
    }
    Some(total)
}

/// Number of blocks of a kind in the hotbar and the backpack together, or
/// `None` when that number does not fit in a `u32`.
pub fn checked_total_count(inv: &BlockInventory, hotbar: &Hotbar, block: Block) -> (r: Option<u32>)
    ensures
        r is Some <==> amount(inv.backpack@, block) + amount(hotbar.slots@, block) <= u32::MAX,
        r matches Some(v) ==> v == amount(inv.backpack@, block) + amount(hotbar.slots@, block),
{
    match (row_count_checked(&inv.backpack, block), row_count_checked(&hotbar.slots, block)) {
        (Some(bp), Some(hb)) => bp.checked_add(hb),
        _ => None,
    }
}


// ---------------------------------------------------------------------------
// Walking a row of slots with a running budget.

/// Applies `f` to each slot from the first to the last, threading the state.
pub open spec fn fold_forward<S>(s: Seq<Slot>, st: S, f: spec_fn(Slot, S) -> (Slot, S)) -> (Seq<Slot>, S)
    decreases s.len(),
{
    if s.len() == 0 {
        (s, st)
    } else {
        let p = fold_forward(s.drop_last(), st, f);
        let q = f(s.last(), p.1);
        (p.0.push(q.0), q.1)
    }
}

/// Applies `f` to each slot from the last to the first, threading a budget.
pub open spec fn fold_backward(s: Seq<Slot>, n: nat, f: spec_fn(Slot, nat) -> (Slot, nat)) -> (Seq<Slot>, nat)
    decreases s.len(),
{
    if s.len() == 0 {
        (s, n)
    } else {
        let p = fold_backward(s.drop_first(), n, f);
        let q = f(s[0], p.1);
        (seq![q.0] + p.0, q.1)
    }
}

/// Taking up to `n` blocks of kind `b` out of one slot; a stack that runs
/// out leaves the slot empty.
pub open spec fn take_step(b: Block) -> spec_fn(Slot, nat) -> (Slot, nat) {
    |x: Slot, n: nat|
        if n == 0 {
            (x, n)
        } else {
            match x {
                Some((k, c)) => if k == b {
                    let t = min_nat(n, c as nat);
                    (if c - t == 0 { None } else { Some((k, (c - t) as u32)) }, (n - t) as nat)
                } else {
                    (x, n)
                },
                None => (x, n),
            }
        }
}

pub proof fn lemma_fold_backward_step(s: Seq<Slot>, i: int, n: nat, f: spec_fn(Slot, nat) -> (Slot, nat))
    requires
        0 <= i < s.len(),
    ensures
        fold_backward(s.subrange(i, s.len() as int), n, f) == ({
            let p = fold_backward(s.subrange(i + 1, s.len() as int), n, f);
            let q = f(s[i], p.1);
            (seq![q.0] + p.0, q.1)
        }),
{
    assert(s.subrange(i, s.len() as int).drop_first() =~= s.subrange(i + 1, s.len() as int));
}

pub proof fn lemma_fold_forward_step<S>(s: Seq<Slot>, i: int, st: S, f: spec_fn(Slot, S) -> (Slot, S))
    requires
        0 <= i < s.len(),
    ensures
        fold_forward(s.take(i + 1), st, f) == ({
            let p = fold_forward(s.take(i), st, f);
            let q = f(s[i], p.1);
            (p.0.push(q.0), q.1)
        }),
{
    assert(s.take(i + 1).drop_last() =~= s.take(i));
}

pub proof fn lemma_fold_backward_len(s: Seq<Slot>, n: nat, f: spec_fn(Slot, nat) -> (Slot, nat))
    ensures
        fold_backward(s, n, f).0.len() == s.len(),
    decreases s.len(),
{
    if s.len() > 0 {
        lemma_fold_backward_len(s.drop_first(), n, f);
    }
}

pub proof fn lemma_fold_forward_len<S>(s: Seq<Slot>, st: S, f: spec_fn(Slot, S) -> (Slot, S))
    ensures
        fold_forward(s, st, f).0.len() == s.len(),
    decreases s.len(),
{
    if s.len() > 0 {
        lemma_fold_forward_len(s.drop_last(), st, f);
    }
}

/// Taking from a row removes exactly what was asked, as far as the row has
/// blocks of that kind, and leaves every other kind alone.
pub proof fn lemma_take_fold(s: Seq<Slot>, n: nat, b: Block)
    ensures
        fold_backward(s, n, take_step(b)).1 == n - min_nat(n, amount(s, b)),
        amount(fold_backward(s, n, take_step(b)).0, b) + min_nat(n, amount(s, b)) == amount(s, b),
        forall|b2: Block| b2 != b ==> #[trigger] amount(fold_backward(s, n, take_step(b)).0, b2) == amount(s, b2),
    decreases s.len(),
{
    if s.len() > 0 {
        let r = s.drop_first();
        lemma_take_fold(r, n, b);
        let p = fold_backward(r, n, take_step(b));
        let q = take_step(b)(s[0], p.1);
        lemma_sum_prepend(q.0, p.0, |x: Slot| slot_amount(x, b));
        assert(fold_backward(s, n, take_step(b)).0 == seq![q.0] + p.0);
        assert forall|b2: Block| b2 != b implies #[trigger] amount(fold_backward(s, n, take_step(b)).0, b2) == amount(s, b2) by {
            lemma_sum_prepend(q.0, p.0, |x: Slot| slot_amount(x, b2));
            assert(amount(s, b2) == slot_amount(s[0], b2) + amount(r, b2));
            assert(slot_amount(q.0, b2) == slot_amount(s[0], b2));
            assert(amount(p.0, b2) == amount(r, b2));
        }
    }
}

/// Takes up to `n` blocks of a kind from a row, last slot first; returns
/// how many could not be found.
fn take_row<const N: usize>(row: &mut [Option<(Block, u32)>; N], block: Block, n: u32) -> (left: u32)
    ensures
        final(row)@ == fold_backward(old(row)@, n as nat, take_step(block)).0,
        left == fold_backward(old(row)@, n as nat, take_step(block)).1,
{
    let ghost orig = row@;
    let ghost n0 = n as nat;
    let ghost f = take_step(block);
    let mut n = n;
    let mut i: usize = N;
    proof {
        assert(orig.subrange(N as int, N as int) =~= Seq::<Slot>::empty());
        assert(row@.subrange(N as int, N as int) =~= Seq::<Slot>::empty());
        assert(row@.subrange(0, N as int) =~= orig.subrange(0, N as int));
    }
    while i > 0
        invariant
            i <= N,
            orig.len() == N,
            row@.len() == N,
            f == take_step(block),
            row@.subrange(i as int, N as int) == fold_backward(orig.subrange(i as int, N as int), n0, f).0,
            n as nat == fold_backward(orig.subrange(i as int, N as int), n0, f).1,
            row@.subrange(0, i as int) == orig.subrange(0, i as int),
        decreases i,
    {
        i = i - 1;
        proof {
            lemma_fold_backward_step(orig, i as int, n0, f);
            assert(orig[i as int] == orig.subrange(0, i as int + 1)[i as int]);
        }
        let ghost before = row@;
        let cur = row[i];
        assert(cur == orig[i as int]);
        if n > 0 {
            match cur {
                Some((k, c)) => {
                    if k == block {
                        let t = if n < c { n } else { c };
                        let rest = c - t;
                        n = n - t;
                        if rest == 0 {
                            row[i] = None;
                        } else {
                            row[i] = Some((k, rest));
                        }
                    }
                },
                None => {},
            }
        }
        proof {
            assert(row@.subrange(i as int, N as int) =~= seq![row@[i as int]] + before.subrange(i as int + 1, N as int));
            assert(row@.subrange(0, i as int) =~= before.subrange(0, i as int));
        }
    }
    proof {
        assert(orig.subrange(0, N as int) =~= orig);
        assert(row@.subrange(0, N as int) =~= row@);
    }
    n
}

/// Removes `n` blocks of a kind, backpack first (last slot first), then the
/// hotbar (last slot first), so that the hotbar keeps its blocks as long as
/// possible. When fewer than `n` are held, nothing changes and the result is
/// `false`.
pub fn take_from_all(inv: &mut BlockInventory, hotbar: &mut Hotbar, block: Block, n: u32) -> (ok: bool)
    requires
        amount(old(inv).backpack@, block) + amount(old(hotbar).slots@, block) <= u32::MAX,
    ensures
        ok == (amount(old(inv).backpack@, block) + amount(old(hotbar).slots@, block) >= n),
        !ok ==> final(inv).backpack@ == old(inv).backpack@ && final(hotbar).slots@ == old(hotbar).slots@,
        ok ==> final(hotbar).slots@ == spec_take_from_all(old(hotbar).slots@, old(inv).backpack@, block, n as nat).0,
        ok ==> final(inv).backpack@ == spec_take_from_all(old(hotbar).slots@, old(inv).backpack@, block, n as nat).1,
        final(hotbar).selected == old(hotbar).selected,
{
    if total_count(inv, hotbar, block) < n {
        return false;
    }
    let left = take_row(&mut inv.backpack, block, n);
    let _ = take_row(&mut hotbar.slots, block, left);
    true
}


// ---------------------------------------------------------------------------
// Adding blocks.

/// Room left in the partial stacks of kind `b` of a row.
pub open spec fn stack_rooms(s: Seq<Slot>, b: Block) -> nat {
    sum_slots(s, |x: Slot| stack_room(x, b))
}

/// Room offered by the empty slots of a row.
pub open spec fn empty_rooms(s: Seq<Slot>) -> nat {
    sum_slots(s, |x: Slot| empty_room(x))
}

/// Topping up one slot: a partial stack of kind `b` takes what fits.
pub open spec fn top_up_step(b: Block) -> spec_fn(Slot, nat) -> (Slot, nat) {
    |x: Slot, n: nat|
        if n == 0 {
            (x, n)
        } else {
            match x {
                Some((k, c)) => if k == b && c < MAX_STACK {
                    let a = min_nat(n, (MAX_STACK - c) as nat);
                    (Some((k, (c + a) as u32)), (n - a) as nat)
                } else {
                    (x, n)
                },
                None => (x, n),
            }
        }
}

/// Filling one slot: an empty slot takes a new stack of kind `b`.
pub open spec fn fill_empty_step(b: Block) -> spec_fn(Slot, nat) -> (Slot, nat) {
    |x: Slot, n: nat|
        if n == 0 {
            (x, n)
        } else {
            match x {
                None => {
                    let a = min_nat(n, MAX_STACK as nat);
                    (Some((b, a as u32)), (n - a) as nat)
                },
                Some(_) => (x, n),
            }
        }
}

/// Index of the first empty slot of a row, or the row's length if it has none.
pub open spec fn first_none(s: Seq<Slot>) -> int
    decreases s.len(),
{
    if s.len() == 0 {
        0
    } else if s[0] is None {
        0
    } else {
        1 + first_none(s.drop_first())
    }
}

/// Some slot of the row holds blocks of kind `b`.
pub open spec fn row_has(s: Seq<Slot>, b: Block) -> bool {
    exists|i: int| 0 <= i < s.len() && slot_holds(#[trigger] s[i], b)
}

/// The slot holds a stack of kind `b`.
pub open spec fn slot_holds(x: Slot, b: Block) -> bool {
    match x {
        Some((k, _)) => k == b,
        None => false,
    }
}

/// Where picking up blocks puts them: first the partial stacks of that kind
/// in the hotbar, then those in the backpack; then, if the hotbar holds no
/// stack of that kind yet, its first empty slot; then the empty backpack
/// slots; then the remaining empty hotbar slots. What does not fit is lost.
/// Gives the new hotbar, the new backpack and the number of lost blocks.
pub open spec fn spec_add_to_all(hb: Seq<Slot>, bp: Seq<Slot>, b: Block, n: nat) -> (Seq<Slot>, Seq<Slot>, nat) {
    let s1 = fold_forward(hb, n, top_up_step(b));
    let s2 = fold_forward(bp, s1.1, top_up_step(b));
    let i = first_none(s1.0);
    let s3: (Seq<Slot>, nat) = if row_has(s1.0, b) || s2.1 == 0 || i >= s1.0.len() {
        (s1.0, s2.1)
    } else {
        (s1.0.update(i, Some((b, min_nat(s2.1, MAX_STACK as nat) as u32))),
         (s2.1 - min_nat(s2.1, MAX_STACK as nat)) as nat)
    };
    let s4 = fold_forward(s2.0, s3.1, fill_empty_step(b));
    let s5 = fold_forward(s3.0, s4.1, fill_empty_step(b));
    (s5.0, s4.0, s5.1)
}

pub proof fn lemma_first_none(s: Seq<Slot>)
    ensures
        0 <= first_none(s) <= s.len(),
        first_none(s) < s.len() ==> s[first_none(s)] is None,
        forall|j: int| 0 <= j < first_none(s) ==> (#[trigger] s[j]) is Some,
    decreases s.len(),
{
    if s.len() > 0 && s[0] is Some {
        lemma_first_none(s.drop_first());
        assert forall|j: int| 0 <= j < first_none(s) implies (#[trigger] s[j]) is Some by {
            if j > 0 {
                assert(s[j] == s.drop_first()[j - 1]);
            }
        }
    }
}

pub proof fn lemma_first_none_at(s: Seq<Slot>, i: int)
    requires
        0 <= i <= s.len(),
        forall|j: int| 0 <= j < i ==> (#[trigger] s[j]) is Some,
        i < s.len() ==> s[i] is None,
    ensures
        first_none(s) == i,
    decreases s.len(),
{
    if s.len() > 0 && i > 0 {
        assert(s[0] is Some);
        assert forall|j: int| 0 <= j < i - 1 implies (#[trigger] s.drop_first()[j]) is Some by {
            assert(s.drop_first()[j] == s[j + 1]);
        }
        if i < s.len() {
            assert(s.drop_first()[i - 1] == s[i]);
        }
        lemma_first_none_at(s.drop_first(), i - 1);
    }
}

/// Topping up a row uses the room of its partial stacks of that kind and no
/// more; empty slots and other kinds are untouched.
pub proof fn lemma_top_up_fold(s: Seq<Slot>, n: nat, b: Block)
    ensures
        fold_forward(s, n, top_up_step(b)).0.len() == s.len(),
        fold_forward(s, n, top_up_step(b)).1 == n - min_nat(n, stack_rooms(s, b)),
        amount(fold_forward(s, n, top_up_step(b)).0, b) == amount(s, b) + min_nat(n, stack_rooms(s, b)),
        empty_rooms(fold_forward(s, n, top_up_step(b)).0) == empty_rooms(s),
        forall|b2: Block| b2 != b ==> #[trigger] amount(fold_forward(s, n, top_up_step(b)).0, b2) == amount(s, b2),
    decreases s.len(),
{
    if s.len() > 0 {
        let r = s.drop_last();
        let x = s.last();
        lemma_top_up_fold(r, n, b);
        let p = fold_forward(r, n, top_up_step(b));
        let q = top_up_step(b)(x, p.1);
        assert(s =~= r.push(x));
        lemma_sum_push(r, x, |y: Slot| slot_amount(y, b));
        lemma_sum_push(r, x, |y: Slot| stack_room(y, b));
        lemma_sum_push(r, x, |y: Slot| empty_room(y));
        lemma_sum_push(p.0, q.0, |y: Slot| slot_amount(y, b));
        lemma_sum_push(p.0, q.0, |y: Slot| empty_room(y));
        assert(fold_forward(s, n, top_up_step(b)).0 == p.0.push(q.0));
        assert forall|b2: Block| b2 != b implies #[trigger] amount(fold_forward(s, n, top_up_step(b)).0, b2) == amount(s, b2) by {
            lemma_sum_push(r, x, |y: Slot| slot_amount(y, b2));
            lemma_sum_push(p.0, q.0, |y: Slot| slot_amount(y, b2));
            assert(amount(p.0, b2) == amount(r, b2));
        }
    }
}

/// Filling a row's empty slots uses their room and no more; other kinds are
/// untouched.
pub proof fn lemma_fill_empty_fold(s: Seq<Slot>, n: nat, b: Block)
    ensures
        fold_forward(s, n, fill_empty_step(b)).0.len() == s.len(),
        fold_forward(s, n, fill_empty_step(b)).1 == n - min_nat(n, empty_rooms(s)),
        amount(fold_forward(s, n, fill_empty_step(b)).0, b) == amount(s, b) + min_nat(n, empty_rooms(s)),
        forall|b2: Block| b2 != b ==> #[trigger] amount(fold_forward(s, n, fill_empty_step(b)).0, b2) == amount(s, b2),
    decreases s.len(),
{
    if s.len() > 0 {
        let r = s.drop_last();
        let x = s.last();
        lemma_fill_empty_fold(r, n, b);
        let p = fold_forward(r, n, fill_empty_step(b));
        let q = fill_empty_step(b)(x, p.1);
        assert(s =~= r.push(x));
        lemma_sum_push(r, x, |y: Slot| slot_amount(y, b));
        lemma_sum_push(r, x, |y: Slot| empty_room(y));
        lemma_sum_push(p.0, q.0, |y: Slot| slot_amount(y, b));
        assert(fold_forward(s, n, fill_empty_step(b)).0 == p.0.push(q.0));
        assert forall|b2: Block| b2 != b implies #[trigger] amount(fold_forward(s, n, fill_empty_step(b)).0, b2) == amount(s, b2) by {
            lemma_sum_push(r, x, |y: Slot| slot_amount(y, b2));
            lemma_sum_push(p.0, q.0, |y: Slot| slot_amount(y, b2));
            assert(amount(p.0, b2) == amount(r, b2));
        }
    }
}


/// Applies one step of adding to a slot; the executable counterpart of
/// `top_up_step` (when `top_up`) or `fill_empty_step`.
fn add_to_slot(x: Option<(Block, u32)>, block: Block, n: u32, top_up: bool) -> (r: (Option<(Block, u32)>, u32))
    ensures
        top_up ==> (r.0, r.1 as nat) == top_up_step(block)(x, n as nat),
        !top_up ==> (r.0, r.1 as nat) == fill_empty_step(block)(x, n as nat),
{
    if n == 0 {
        return (x, n);
    }
    match x {
        Some((k, c)) => {
            if top_up && k == block && c < MAX_STACK {
                let room = MAX_STACK - c;
                let a = if n < room { n } else { room };
                (Some((k, c + a)), n - a)
            } else {
                (x, n)
            }
        },
        None => {
            if top_up {
                (x, n)
            } else {
                let a = if n < MAX_STACK { n } else { MAX_STACK };
                (Some((block, a)), n - a)
            }
        },
    }
}

/// Walks a row first slot first, topping up stacks of the kind (`top_up`)
/// or filling empty slots; returns the blocks not placed.
fn add_row<const N: usize>(row: &mut [Option<(Block, u32)>; N], block: Block, n: u32, top_up: bool) -> (left: u32)
    ensures
        top_up ==> final(row)@ == fold_forward(old(row)@, n as nat, top_up_step(block)).0,
        top_up ==> left as nat == fold_forward(old(row)@, n as nat, top_up_step(block)).1,
        !top_up ==> final(row)@ == fold_forward(old(row)@, n as nat, fill_empty_step(block)).0,
        !top_up ==> left as nat == fold_forward(old(row)@, n as nat, fill_empty_step(block)).1,
{
    let ghost orig = row@;
    let ghost n0 = n as nat;
    let ghost f = if top_up { top_up_step(block) } else { fill_empty_step(block) };
    let mut n = n;
    let mut i: usize = 0;
    proof {
        assert(orig.take(0) =~= Seq::<Slot>::empty());
        assert(row@.take(0) =~= Seq::<Slot>::empty());
    }
    while i < N
        invariant
            i <= N,
            orig.len() == N,
            row@.len() == N,
            f == (if top_up { top_up_step(block) } else { fill_empty_step(block) }),
            row@.take(i as int) == fold_forward(orig.take(i as int), n0, f).0,
            n as nat == fold_forward(orig.take(i as int), n0, f).1,
            row@.skip(i as int) == orig.skip(i as int),
        decreases N - i,
    {
        proof {
            lemma_fold_forward_step(orig, i as int, n0, f);
            assert(orig[i as int] == orig.skip(i as int)[0]);
            assert(row@[i as int] == row@.skip(i as int)[0]);
        }
        let ghost before = row@;
        let (v, m) = add_to_slot(row[i], block, n, top_up);
        row[i] = v;
        n = m;
        proof {
            assert(row@.take(i as int + 1) =~= before.take(i as int).push(v));
            assert(row@.skip(i as int + 1) =~= before.skip(i as int + 1));
            assert(before.skip(i as int + 1) =~= before.skip(i as int).skip(1));
            assert(orig.skip(i as int + 1) =~= orig.skip(i as int).skip(1));
        }
        i = i + 1;
    }
    proof {
        assert(orig.take(N as int) =~= orig);
        assert(row@.take(N as int) =~= row@);
    }
    n
}

/// Whether some slot of the row holds blocks of the kind.
fn row_holds<const N: usize>(row: &[Option<(Block, u32)>; N], block: Block) -> (r: bool)
    ensures
        r == row_has(row@, block),
{
    let mut i: usize = 0;
    while i < N
        invariant
            i <= N,
            row@.len() == N,
            forall|j: int| 0 <= j < i ==> !slot_holds(#[trigger] row@[j], block),
        decreases N - i,
    {
        match row[i] {
            Some((k, _)) => {
                if k == block {
                    assert(slot_holds(row@[i as int], block));
                    return true;
                }
            },
            None => {},
        }
        i = i + 1;
    }
    false
}

/// Index of the first empty slot of the row, or `N` when there is none.
fn first_empty<const N: usize>(row: &[Option<(Block, u32)>; N]) -> (i: usize)
    ensures
        i as int == first_none(row@),
{
    let mut i: usize = 0;
    while i < N
        invariant
            i <= N,
            row@.len() == N,
            forall|j: int| 0 <= j < i ==> (#[trigger] row@[j]) is Some,
        decreases N - i,
    {
        if row[i].is_none() {
            proof {
                lemma_first_none_at(row@, i as int);
            }
            return i;
        }
        i = i + 1;
    }
    proof {
        lemma_first_none_at(row@, N as int);
    }
    N
}

/// Stores `n` picked-up blocks of a kind. Partial stacks of that kind are
/// topped up first, hotbar before backpack; then, if the hotbar holds no
/// stack of that kind, its first empty slot gets a new stack; then empty
/// backpack slots, then the other empty hotbar slots. A block the player
/// placed in the hotbar stays there, and a new kind never overwrites a
/// filled slot. Blocks for which there is no room are dropped.
pub fn add_to_all(inv: &mut BlockInventory, hotbar: &mut Hotbar, block: Block, n: u32)
    ensures
        final(hotbar).slots@ == spec_add_to_all(old(hotbar).slots@, old(inv).backpack@, block, n as nat).0,
        final(inv).backpack@ == spec_add_to_all(old(hotbar).slots@, old(inv).backpack@, block, n as nat).1,
        final(hotbar).selected == old(hotbar).selected,
{
    let n1 = add_row(&mut hotbar.slots, block, n, true);
    let n2 = add_row(&mut inv.backpack, block, n1, true);
    let in_hotbar = row_holds(&hotbar.slots, block);
    let mut n3 = n2;
    if !in_hotbar && n2 > 0 {
        let i = first_empty(&hotbar.slots);
        if i < 9 {
            let a = if n2 < MAX_STACK { n2 } else { MAX_STACK };
            hotbar.slots[i] = Some((block, a));
            n3 = n2 - a;
        }
    }
    let n4 = add_row(&mut inv.backpack, block, n3, false);
    let _ = add_row(&mut hotbar.slots, block, n4, false);
}


pub proof fn lemma_room_split(s: Seq<Slot>, b: Block)
    ensures
        room(s, b) == stack_rooms(s, b) + empty_rooms(s),
    decreases s.len(),
{
    if s.len() > 0 {
        lemma_room_split(s.drop_first(), b);
    }
}

pub proof fn lemma_all_filled_no_room(s: Seq<Slot>)
    requires
        forall|j: int| 0 <= j < s.len() ==> (#[trigger] s[j]) is Some,
    ensures
        empty_rooms(s) == 0,
    decreases s.len(),
{
    if s.len() > 0 {
        assert forall|j: int| 0 <= j < s.drop_first().len() implies (#[trigger] s.drop_first()[j]) is Some by {
            assert(s.drop_first()[j] == s[j + 1]);
        }
        lemma_all_filled_no_room(s.drop_first());
        assert(s[0] is Some);
    }
}

/// Picking up blocks stores exactly as many as the hotbar and backpack have
/// room for (up to the number picked up), the rest is reported lost, and
/// every other kind of block keeps its count.
pub proof fn law_add_stores_what_fits(hb: Seq<Slot>, bp: Seq<Slot>, b: Block, n: nat)
    ensures
        ({
            let r = spec_add_to_all(hb, bp, b, n);
            &&& amount(r.0, b) + amount(r.1, b) == amount(hb, b) + amount(bp, b) + min_nat(n, room(hb, b) + room(bp, b))
            &&& r.2 == n - min_nat(n, room(hb, b) + room(bp, b))
            &&& r.0.len() == hb.len()
            &&& r.1.len() == bp.len()
        }),
        forall|b2: Block| b2 != b ==> {
            &&& #[trigger] amount(spec_add_to_all(hb, bp, b, n).0, b2) == amount(hb, b2)
            &&& amount(spec_add_to_all(hb, bp, b, n).1, b2) == amount(bp, b2)
        },
{
    let s1 = fold_forward(hb, n, top_up_step(b));
    let s2 = fold_forward(bp, s1.1, top_up_step(b));
    lemma_top_up_fold(hb, n, b);
    lemma_top_up_fold(bp, s1.1, b);
    lemma_room_split(hb, b);
    lemma_room_split(bp, b);
    lemma_first_none(s1.0);
    let i = first_none(s1.0);
    let a3 = min_nat(s2.1, MAX_STACK as nat);
    let s3: (Seq<Slot>, nat) = if row_has(s1.0, b) || s2.1 == 0 || i >= s1.0.len() {
        (s1.0, s2.1)
    } else {
        (s1.0.update(i, Some((b, a3 as u32))), (s2.1 - a3) as nat)
    };
    let filled = !(row_has(s1.0, b) || s2.1 == 0 || i >= s1.0.len());
    if filled {
        lemma_sum_update(s1.0, i, Some((b, a3 as u32)), |y: Slot| slot_amount(y, b));
        lemma_sum_update(s1.0, i, Some((b, a3 as u32)), |y: Slot| empty_room(y));
        assert(empty_rooms(s3.0) + MAX_STACK == empty_rooms(s1.0));
        assert(amount(s3.0, b) == amount(s1.0, b) + a3);
    } else if i >= s1.0.len() {
        lemma_all_filled_no_room(s1.0);
    }
    let s4 = fold_forward(s2.0, s3.1, fill_empty_step(b));
    let s5 = fold_forward(s3.0, s4.1, fill_empty_step(b));
    lemma_fill_empty_fold(s2.0, s3.1, b);
    lemma_fill_empty_fold(s3.0, s4.1, b);
    assert(spec_add_to_all(hb, bp, b, n) == (s5.0, s4.0, s5.1));
    assert forall|b2: Block| b2 != b implies {
        &&& #[trigger] amount(spec_add_to_all(hb, bp, b, n).0, b2) == amount(hb, b2)
        &&& amount(spec_add_to_all(hb, bp, b, n).1, b2) == amount(bp, b2)
    } by {
        assert(amount(s1.0, b2) == amount(hb, b2));
        assert(amount(s2.0, b2) == amount(bp, b2));
        if filled {
            lemma_sum_update(s1.0, i, Some((b, a3 as u32)), |y: Slot| slot_amount(y, b2));
        }
        assert(amount(s3.0, b2) == amount(s1.0, b2));
        assert(amount(s4.0, b2) == amount(s2.0, b2));
        assert(amount(s5.0, b2) == amount(s3.0, b2));
    }
}


proof fn lemma_top_up_absent(s: Seq<Slot>, n: nat, b: Block)
    requires
        forall|j: int| 0 <= j < s.len() ==> !slot_holds(#[trigger] s[j], b),
    ensures
        fold_forward(s, n, top_up_step(b)) == (s, n),
    decreases s.len(),
{
    if s.len() > 0 {
        let r = s.drop_last();
        assert forall|j: int| 0 <= j < r.len() implies !slot_holds(#[trigger] r[j], b) by {
            assert(r[j] == s[j]);
        }
        lemma_top_up_absent(r, n, b);
        assert(!slot_holds(s.last(), b));
        assert(r.push(s.last()) =~= s);
    }
}

proof fn lemma_fill_keeps_filled(s: Seq<Slot>, n: nat, b: Block, i: int)
    requires
        0 <= i < s.len(),
        s[i] is Some,
    ensures
        fold_forward(s, n, fill_empty_step(b)).0[i] == s[i],
    decreases s.len(),
{
    let r = s.drop_last();
    lemma_fold_forward_len(r, n, fill_empty_step(b));
    let p = fold_forward(r, n, fill_empty_step(b));
    let q = fill_empty_step(b)(s.last(), p.1);
    assert(fold_forward(s, n, fill_empty_step(b)).0 == p.0.push(q.0));
    if i < s.len() - 1 {
        assert(r[i] == s[i]);
        lemma_fill_keeps_filled(r, n, b, i);
    }
}

/// Picking up blocks of a kind that no hotbar slot holds gives the hotbar's
/// first empty slot a new stack of that kind, whatever the backpack holds:
/// once the backpack's partial stacks of that kind are full, what remains,
/// up to a full stack, goes there.
pub proof fn law_add_assigns_hotbar_slot(hb: Seq<Slot>, bp: Seq<Slot>, b: Block, n: nat, i: int)
    requires
        forall|j: int| 0 <= j < hb.len() ==> !slot_holds(#[trigger] hb[j], b),
        0 <= i < hb.len(),
        hb[i] is None,
        forall|j: int| 0 <= j < i ==> (#[trigger] hb[j]) is Some,
        n > stack_rooms(bp, b),
    ensures
        spec_add_to_all(hb, bp, b, n).0[i] == Some((b, min_nat((n - stack_rooms(bp, b)) as nat, MAX_STACK as nat) as u32)),
{
    lemma_top_up_absent(hb, n, b);
    lemma_top_up_fold(bp, n, b);
    lemma_first_none_at(hb, i);
    let s2 = fold_forward(bp, n, top_up_step(b));
    assert(s2.1 == n - stack_rooms(bp, b));
    assert(!row_has(hb, b));
    let a3 = min_nat(s2.1, MAX_STACK as nat);
    let s3 = hb.update(i, Some((b, a3 as u32)));
    let s4 = fold_forward(s2.0, (s2.1 - a3) as nat, fill_empty_step(b));
    lemma_fill_keeps_filled(s3, s4.1, b, i);
}

/// A slot that held a stack still holds a stack of the same kind, at least
/// as large.
pub open spec fn slot_kept(x: Slot, y: Slot) -> bool {
    match x {
        Some((k, c)) => match y {
            Some((k2, c2)) => k2 == k && c2 >= c,
            None => false,
        },
        None => true,
    }
}

pub proof fn lemma_fold_keeps(s: Seq<Slot>, n: nat, f: spec_fn(Slot, nat) -> (Slot, nat))
    requires
        forall|x: Slot, m: nat| slot_kept(x, (#[trigger] f(x, m)).0),
    ensures
        fold_forward(s, n, f).0.len() == s.len(),
        forall|i: int| 0 <= i < s.len() ==> slot_kept(s[i], #[trigger] fold_forward(s, n, f).0[i]),
    decreases s.len(),
{
    if s.len() > 0 {
        let r = s.drop_last();
        lemma_fold_keeps(r, n, f);
        let p = fold_forward(r, n, f);
        let q = f(s.last(), p.1);
        assert(fold_forward(s, n, f).0 == p.0.push(q.0));
        assert forall|i: int| 0 <= i < s.len() implies slot_kept(s[i], #[trigger] fold_forward(s, n, f).0[i]) by {
            if i < s.len() - 1 {
                assert(s[i] == r[i]);
                assert(fold_forward(s, n, f).0[i] == p.0[i]);
            }
        }
    }
}

/// Picking up blocks never empties a slot, never changes the kind of block
/// a slot holds and never lowers a stack: a block the player put in the
/// hotbar stays where it is.
pub proof fn law_add_keeps_placed_stacks(hb: Seq<Slot>, bp: Seq<Slot>, b: Block, n: nat)
    ensures
        forall|i: int| 0 <= i < hb.len() ==> slot_kept(hb[i], #[trigger] spec_add_to_all(hb, bp, b, n).0[i]),
        forall|i: int| 0 <= i < bp.len() ==> slot_kept(bp[i], #[trigger] spec_add_to_all(hb, bp, b, n).1[i]),
{
    let up = top_up_step(b);
    let fill = fill_empty_step(b);
    assert forall|x: Slot, m: nat| slot_kept(x, (#[trigger] up(x, m)).0) by {}
    assert forall|x: Slot, m: nat| slot_kept(x, (#[trigger] fill(x, m)).0) by {}
    let s1 = fold_forward(hb, n, up);
    let s2 = fold_forward(bp, s1.1, up);
    lemma_fold_keeps(hb, n, up);
    lemma_fold_keeps(bp, s1.1, up);
    lemma_first_none(s1.0);
    let i = first_none(s1.0);
    let a3 = min_nat(s2.1, MAX_STACK as nat);
    let s3: (Seq<Slot>, nat) = if row_has(s1.0, b) || s2.1 == 0 || i >= s1.0.len() {
        (s1.0, s2.1)
    } else {
        (s1.0.update(i, Some((b, a3 as u32))), (s2.1 - a3) as nat)
    };
    assert forall|j: int| 0 <= j < hb.len() implies slot_kept(hb[j], s3.0[j]) by {
        assert(slot_kept(hb[j], s1.0[j]));
    }
    let s4 = fold_forward(s2.0, s3.1, fill);
    let s5 = fold_forward(s3.0, s4.1, fill);
    lemma_fold_keeps(s2.0, s3.1, fill);
    lemma_fold_keeps(s3.0, s4.1, fill);
    assert(spec_add_to_all(hb, bp, b, n) == (s5.0, s4.0, s5.1));
    assert forall|j: int| 0 <= j < hb.len() implies slot_kept(hb[j], #[trigger] spec_add_to_all(hb, bp, b, n).0[j]) by {
        assert(slot_kept(hb[j], s3.0[j]));
        assert(slot_kept(s3.0[j], s5.0[j]));
    }
    assert forall|j: int| 0 <= j < bp.len() implies slot_kept(bp[j], #[trigger] spec_add_to_all(hb, bp, b, n).1[j]) by {
        assert(slot_kept(bp[j], s2.0[j]));
        assert(slot_kept(s2.0[j], s4.0[j]));
    }
}

/// What spending `n` blocks of kind `b` leaves: the new hotbar and backpack.
pub open spec fn spec_take_from_all(hb: Seq<Slot>, bp: Seq<Slot>, b: Block, n: nat) -> (Seq<Slot>, Seq<Slot>) {
    let p = fold_backward(bp, n, take_step(b));
    (fold_backward(hb, p.1, take_step(b)).0, p.0)
}

/// Spending blocks that are held removes exactly that many of that kind and
/// leaves every other kind of block untouched.
pub proof fn law_take_spends_exactly(hb: Seq<Slot>, bp: Seq<Slot>, b: Block, n: nat)
    requires
        amount(hb, b) + amount(bp, b) >= n,
    ensures
        amount(spec_take_from_all(hb, bp, b, n).0, b) + amount(spec_take_from_all(hb, bp, b, n).1, b) + n
            == amount(hb, b) + amount(bp, b),
        forall|b2: Block| b2 != b ==> {
            &&& #[trigger] amount(spec_take_from_all(hb, bp, b, n).0, b2) == amount(hb, b2)
            &&& amount(spec_take_from_all(hb, bp, b, n).1, b2) == amount(bp, b2)
        },
{
    let p = fold_backward(bp, n, take_step(b));
    lemma_take_fold(bp, n, b);
    lemma_take_fold(hb, p.1, b);
}


// ---------------------------------------------------------------------------
// Moving stacks with the cursor in the inventory screen.

/// Left click with `held` in hand on a slot: pick up, put down, stack onto a
/// stack of the same kind (up to a full stack), or swap.
pub open spec fn spec_slot_swap(held: Slot, slot: Slot) -> (Slot, Slot) {
    match (held, slot) {
        (None, s) => (s, None),
        (Some(h), None) => (None, Some(h)),
        (Some((hb, hc)), Some((sb, sc))) => if hb == sb {
            let transfer = min_nat(hc as nat, (MAX_STACK - sc) as nat);
            (if hc - transfer > 0 { Some((hb, (hc - transfer) as u32)) } else { None },
             Some((sb, (sc + transfer) as u32)))
        } else {
            (slot, held)
        },
    }
}

/// Right click with `held` in hand on a slot: take half of the stack
/// (rounded up) into an empty hand, drop one block onto an empty slot or a
/// non-full stack of the same kind, otherwise swap.
pub open spec fn spec_right_click(held: Slot, slot: Slot) -> (Slot, Slot) {
    match (held, slot) {
        (None, Some((b, n))) => {
            let take = (n + 1) / 2;
            (Some((b, take as u32)), if n - take > 0 { Some((b, (n - take) as u32)) } else { None })
        },
        (Some((hb, hc)), None) => (if hc > 1 { Some((hb, (hc - 1) as u32)) } else { None }, Some((hb, 1u32))),
        (Some((hb, hc)), Some((sb, sc))) => if hb == sb {
            if sc < MAX_STACK {
                (if hc > 1 { Some((hb, (hc - 1) as u32)) } else { None }, Some((sb, (sc + 1) as u32)))
            } else {
                (held, slot)
            }
        } else {
            (slot, held)
        },
        (None, None) => (None, None),
    }
}

/// A slot holds nothing, or between one and a full stack of blocks.
pub open spec fn slot_wf(x: Slot) -> bool {
    match x {
        Some((_, c)) => 1 <= c <= MAX_STACK,
        None => true,
    }
}

/// Left click on an inventory slot while holding `held`.
pub fn compute_slot_swap(held: Option<(Block, u32)>, slot: Option<(Block, u32)>) -> (r: (
    Option<(Block, u32)>,
    Option<(Block, u32)>,
))
    requires
        match (held, slot) {
            (Some((hb, _)), Some((sb, sc))) => hb == sb ==> sc <= MAX_STACK,
            _ => true,
        },
    ensures
        r == spec_slot_swap(held, slot),
{
    match (held, slot) {
        (None, s) => (s, None),
        (Some(h), None) => (None, Some(h)),
        (Some((hb, hc)), Some((sb, sc))) => {
            if hb == sb {
                let space = MAX_STACK - sc;
                let transfer = if hc < space { hc } else { space };
                let new_slot = Some((sb, sc + transfer));
                let new_held = if hc - transfer > 0 { Some((hb, hc - transfer)) } else { None };
                (new_held, new_slot)
            } else {
                (slot, held)
            }
        },
    }
}

/// Right click on an inventory slot while holding `held`.
pub fn compute_right_click(held: Option<(Block, u32)>, slot: Option<(Block, u32)>) -> (r: (
    Option<(Block, u32)>,
    Option<(Block, u32)>,
))
    requires
        match (held, slot) {
            (None, Some((_, n))) => n < u32::MAX,
            _ => true,
        },
    ensures
        r == spec_right_click(held, slot),
{
    match (held, slot) {
        (None, Some((b, n))) => {
            let take = (n + 1) / 2;
            let remain = n - take;
            let new_slot = if remain > 0 { Some((b, remain)) } else { None };
            (Some((b, take)), new_slot)
        },
        (Some((hb, hc)), None) => {
            let new_held = if hc > 1 { Some((hb, hc - 1)) } else { None };
            (new_held, Some((hb, 1)))
        },
        (Some((hb, hc)), Some((sb, sc))) => {
            if hb == sb {
                if sc < MAX_STACK {
                    let new_held = if hc > 1 { Some((hb, hc - 1)) } else { None };
                    (new_held, Some((sb, sc + 1)))
                } else {
                    (held, slot)
                }
            } else {
                (slot, held)
            }
        },
        (None, None) => (None, None),
    }
}

/// Clicking slots in the inventory screen never creates or destroys
/// blocks: for every kind, what is in hand plus what is in the slot is the
/// same before and after a left or right click, and well-formed stacks stay
/// well-formed.
pub proof fn law_clicks_conserve_blocks(held: Slot, slot: Slot, b: Block)
    requires
        slot_wf(held),
        slot_wf(slot),
    ensures
        slot_amount(spec_slot_swap(held, slot).0, b) + slot_amount(spec_slot_swap(held, slot).1, b)
            == slot_amount(held, b) + slot_amount(slot, b),
        slot_amount(spec_right_click(held, slot).0, b) + slot_amount(spec_right_click(held, slot).1, b)
            == slot_amount(held, b) + slot_amount(slot, b),
        slot_wf(spec_slot_swap(held, slot).0),
        slot_wf(spec_slot_swap(held, slot).1),
        slot_wf(spec_right_click(held, slot).0),
        slot_wf(spec_right_click(held, slot).1),
{
}

// ---------------------------------------------------------------------------
// Hotbar selection and placing.

impl Hotbar {
    /// Digit key `i + 1` selects slot `i`.
    pub fn select(&mut self, i: usize)
        requires
            i < 9,
        ensures
            final(self).selected == i,
            final(self).slots@ == old(self).slots@,
    {
        self.selected = i;
    }

    /// Wheel up moves the selection one slot left, stopping at the first.
    pub fn scroll_up(&mut self)
        ensures
            final(self).selected == if old(self).selected == 0 { 0 } else { (old(self).selected - 1) as usize },
            final(self).slots@ == old(self).slots@,
    {
        self.selected = if self.selected == 0 { 0 } else { self.selected - 1 };
    }

    /// Wheel down moves the selection one slot right, stopping at the last.
    pub fn scroll_down(&mut self)
        requires
            old(self).selected < usize::MAX,
        ensures
            final(self).selected == if old(self).selected + 1 < 8 { (old(self).selected + 1) as usize } else { 8 },
            final(self).slots@ == old(self).slots@,
    {
        let next = self.selected + 1;
        self.selected = if next < 8 { next } else { 8 };
    }

    /// Kind of block in the selected slot, if any.
    pub fn selected_block(&self) -> (r: Option<Block>)
        requires
            self.selected < 9,
        ensures
            r == match self.slots@[self.selected as int] {
                Some((b, _)) => Some(b),
                None => None,
            },
    {
        match self.slots[self.selected] {
            Some((b, _)) => Some(b),
            None => None,
        }
    }

    /// After a block from the selected slot was placed in the world: one
    /// block fewer in that slot, which empties when its stack runs out.
    pub fn spend_selected(&mut self)
        requires
            old(self).selected < 9,
            match old(self).slots@[old(self).selected as int] {
                Some((_, c)) => c >= 1,
                None => true,
            },
        ensures
            final(self).selected == old(self).selected,
            final(self).slots@ == old(self).slots@.update(
                old(self).selected as int,
                match old(self).slots@[old(self).selected as int] {
                    Some((b, c)) => if c > 1 { Some((b, (c - 1) as u32)) } else { None },
                    None => None,
                },
            ),
    {
        let sel = self.selected;
        match self.slots[sel] {
            Some((b, c)) => {
                if c > 1 {
                    self.slots[sel] = Some((b, c - 1));
                } else {
                    self.slots[sel] = None;
                }
            },
            None => {
                self.slots[sel] = None;
            },
        }
    }
}

// ---------------------------------------------------------------------------
// Putting back the stack held in hand.

/// Where a stack held in hand goes when the inventory closes: into the
/// backpack, its partial stacks of that kind first, then its empty slots;
/// only what the backpack has no room for is stored as picked-up blocks
/// are. Gives the new hotbar and the new backpack.
pub open spec fn spec_put_back(hb: Seq<Slot>, bp: Seq<Slot>, b: Block, n: nat) -> (Seq<Slot>, Seq<Slot>) {
    let s1 = fold_forward(bp, n, top_up_step(b));
    let s2 = fold_forward(s1.0, s1.1, fill_empty_step(b));
    if s2.1 == 0 {
        (hb, s2.0)
    } else {
        let r = spec_add_to_all(hb, s2.0, b, s2.1);
        (r.0, r.1)
    }
}

/// Puts the stack held in hand back when the inventory closes: into the
/// backpack, topping up its stacks of that kind and then filling its empty
/// slots; what the backpack cannot take is stored as picked-up blocks are,
/// so that nothing is lost while there is room anywhere.
pub fn put_back_held(inv: &mut BlockInventory, hotbar: &mut Hotbar, block: Block, n: u32)
    ensures
        final(hotbar).slots@ == spec_put_back(old(hotbar).slots@, old(inv).backpack@, block, n as nat).0,
        final(inv).backpack@ == spec_put_back(old(hotbar).slots@, old(inv).backpack@, block, n as nat).1,
        final(hotbar).selected == old(hotbar).selected,
{
    let n1 = add_row(&mut inv.backpack, block, n, true);
    let n2 = add_row(&mut inv.backpack, block, n1, false);
    if n2 > 0 {
        add_to_all(inv, hotbar, block, n2);
    }
}

/// When the backpack has room for the held stack, putting it back adds
/// exactly that many blocks of its kind to the backpack, leaves every other
/// kind there as it was, and leaves the hotbar untouched.
pub proof fn law_put_back_fills_backpack(hb: Seq<Slot>, bp: Seq<Slot>, b: Block, n: nat)
    requires
        n <= room(bp, b),
    ensures
        spec_put_back(hb, bp, b, n).0 == hb,
        amount(spec_put_back(hb, bp, b, n).1, b) == amount(bp, b) + n,
        spec_put_back(hb, bp, b, n).1.len() == bp.len(),
        forall|b2: Block| b2 != b ==> #[trigger] amount(spec_put_back(hb, bp, b, n).1, b2) == amount(bp, b2),
{
    let s1 = fold_forward(bp, n, top_up_step(b));
    lemma_top_up_fold(bp, n, b);
    lemma_fill_empty_fold(s1.0, s1.1, b);
    lemma_room_split(bp, b);
    let s2 = fold_forward(s1.0, s1.1, fill_empty_step(b));
    assert(s2.1 == 0);
    assert forall|b2: Block| b2 != b implies #[trigger] amount(spec_put_back(hb, bp, b, n).1, b2) == amount(bp, b2) by {
        assert(amount(s1.0, b2) == amount(bp, b2));
        assert(amount(s2.0, b2) == amount(s1.0, b2));
    }
}

/// A block picked up from the ground goes into the inventory; Air is never
/// stored.
pub fn collect_block(inv: &mut BlockInventory, hotbar: &mut Hotbar, block: Block)
    ensures
        block == Block::Air ==> final(inv).backpack@ == old(inv).backpack@ && final(hotbar).slots@ == old(hotbar).slots@,
        block != Block::Air ==> final(hotbar).slots@ == spec_add_to_all(old(hotbar).slots@, old(inv).backpack@, block, 1).0,
        block != Block::Air ==> final(inv).backpack@ == spec_add_to_all(old(hotbar).slots@, old(inv).backpack@, block, 1).1,
        final(hotbar).selected == old(hotbar).selected,
{
    if block != Block::Air {
        add_to_all(inv, hotbar, block, 1);
    }
}

} // verus!
