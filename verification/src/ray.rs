//! What a line of sight meets: the cells it crosses are looked up in turn,
//! and the first solid one is the block aimed at; the last open cell before
//! it is where a placed block goes.

use vstd::prelude::*;

use crate::block::Block;
use crate::chunk::BlockPos;

verus! {

/// What a cell crossed by the line of sight holds.
#[derive(Debug, Clone, Copy, PartialEq, Eq, Structural)]
pub enum Sample {
    /// Above or below the world: passed over.
    OutOfWorld,
    /// In a chunk that is not loaded: passed through.
    Unloaded,
    /// Air.
    Open,
    /// A solid block, which stops the line of sight.
    Solid(Block),
}

/// Index of the first solid sample, if any.
pub open spec fn first_solid_index(s: Seq<Sample>) -> Option<int>
    decreases s.len(),
{
    if s.len() == 0 {
        None
    } else {
        match first_solid_index(s.drop_last()) {
            Some(i) => Some(i),
            None => if s.last() is Solid {
                Some(s.len() - 1)
            } else {
                None
            },
        }
    }
}

/// The samples before the first solid one (all of them when none is).
pub open spec fn before_solid(s: Seq<Sample>) -> int {
    match first_solid_index(s) {
        Some(i) => i,
        None => s.len() as int,
    }
}

/// Index of the last sample below `n` that is inside the world, if any.
pub open spec fn last_inside(s: Seq<Sample>, n: int) -> Option<int>
    decreases n,
{
    if n <= 0 {
        None
    } else if s[n - 1] is OutOfWorld {
        last_inside(s, n - 1)
    } else {
        Some(n - 1)
    }
}

/// The block aimed at: the cell and block of the first solid sample.
pub fn aimed_block(cells: &Vec<BlockPos>, samples: &Vec<Sample>) -> (r: Option<(BlockPos, Block)>)
    requires
        cells.len() == samples.len(),
    ensures
        match first_solid_index(samples@) {
            Some(i) => r == Some((cells@[i], samples@[i]->Solid_0)),
            None => r is None,
        },
{
    let mut i: usize = 0;
    while i < samples.len()
        invariant
            i <= samples.len(),
            cells.len() == samples.len(),
            first_solid_index(samples@.take(i as int)) is None,
        decreases samples.len() - i,
    {
        proof {
            lemma_first_solid_prefix(samples@, i as int);
        }
        match samples[i] {
            Sample::Solid(b) => {
                return Some((cells[i], b));
            },
            _ => {},
        }
        i = i + 1;
    }
    assert(samples@.take(samples.len() as int) =~= samples@);
    None
}

proof fn lemma_first_solid_prefix(s: Seq<Sample>, i: int)
    requires
        0 <= i < s.len(),
        first_solid_index(s.take(i)) is None,
    ensures
        first_solid_index(s.take(i + 1)) == if s[i] is Solid {
            Some(i)
        } else {
            None::<int>
        },
        s[i] is Solid ==> first_solid_index(s) == Some(i),
{
    assert(s.take(i + 1).drop_last() =~= s.take(i));
    if s[i] is Solid {
        lemma_first_solid_extends(s, i + 1);
    }
}

proof fn lemma_first_solid_extends(s: Seq<Sample>, n: int)
    requires
        0 <= n <= s.len(),
        first_solid_index(s.take(n)) is Some,
    ensures
        first_solid_index(s) == first_solid_index(s.take(n)),
    decreases s.len() - n,
{
    if n == s.len() {
        assert(s.take(n) =~= s);
    } else {
        assert(s.take(n + 1).drop_last() =~= s.take(n));
        lemma_first_solid_extends(s, n + 1);
    }
}

/// Where a placed block goes: the last cell inside the world crossed before
/// the first solid sample.
pub fn placement_cell(cells: &Vec<BlockPos>, samples: &Vec<Sample>) -> (r: Option<BlockPos>)
    requires
        cells.len() == samples.len(),
    ensures
        match last_inside(samples@, before_solid(samples@)) {
            Some(i) => r == Some(cells@[i]),
            None => r is None,
        },
{
    let mut prev: Option<BlockPos> = None;
    let ghost mut prev_i: Option<int> = None;
    let mut i: usize = 0;
    while i < samples.len()
        invariant
            i <= samples.len(),
            cells.len() == samples.len(),
            first_solid_index(samples@.take(i as int)) is None,
            prev_i == last_inside(samples@, i as int),
            match prev_i {
                Some(j) => prev == Some(cells@[j]),
                None => prev is None,
            },
        decreases samples.len() - i,
    {
        proof {
            lemma_first_solid_prefix(samples@, i as int);
        }
        match samples[i] {
            Sample::Solid(_) => {
                assert(before_solid(samples@) == i);
                return prev;
            },
            Sample::OutOfWorld => {},
            _ => {
                prev = Some(cells[i]);
                proof {
                    prev_i = Some(i as int);
                }
            },
        }
        i = i + 1;
    }
    proof {
        assert(samples@.take(samples.len() as int) =~= samples@);
    }
    prev
}

} // verus!
