//! Breaking a block by holding the button on it: which block is being
//! broken, and which crack stages have been shown. How fast the progress
//! grows, and the stage it has reached, are reckoned by the caller.

use vstd::prelude::*;

use crate::block::Block;
use crate::chunk::BlockPos;

verus! {

/// Number of crack stages shown before a block breaks.
pub const CRACK_STAGES: usize = 3;

/// The block being broken and the crack stages shown on it.
pub struct BreakTracker {
    pub target: Option<BlockPos>,
    pub block: Option<Block>,
    pub last_stage: usize,
}

/// What aiming did to the breaking in progress.
#[derive(Debug, Clone, Copy, PartialEq, Eq, Structural)]
pub enum AimOutcome {
    /// Nothing is aimed at any more: everything was reset.
    Cleared,
    /// A new block is aimed at: breaking starts over on it.
    Restarted,
    /// The same block is still aimed at.
    Continued,
}

impl BreakTracker {
    /// Nothing being broken.
    pub fn new() -> (r: Self)
        ensures
            r.target is None,
            r.block is None,
            r.last_stage == 0,
    {
        BreakTracker { target: None, block: None, last_stage: 0 }
    }

    /// Forgets the block being broken and its cracks.
    pub fn reset(&mut self)
        ensures
            final(self).target is None,
            final(self).block is None,
            final(self).last_stage == 0,
    {
        self.target = None;
        self.block = None;
        self.last_stage = 0;
    }

    /// Takes in what is aimed at this frame: nothing resets; another cell
    /// than the one being broken starts over on it; the same cell goes on.
    pub fn aim(&mut self, aimed: Option<(BlockPos, Block)>) -> (r: AimOutcome)
        ensures
            match aimed {
                None => r == AimOutcome::Cleared && final(self).target is None && final(self).block is None
                    && final(self).last_stage == 0,
                Some((pos, b)) => if old(self).target == Some(pos) {
                    r == AimOutcome::Continued && final(self).target == old(self).target
                        && final(self).block == old(self).block && final(self).last_stage
                        == old(self).last_stage
                } else {
                    r == AimOutcome::Restarted && final(self).target == Some(pos) && final(self).block
                        == Some(b) && final(self).last_stage == 0
                },
            },
    {
        match aimed {
            None => {
                self.reset();
                AimOutcome::Cleared
            },
            Some((pos, b)) => {
                let same = match self.target {
                    Some(t) => t == pos,
                    None => false,
                };
                if same {
                    AimOutcome::Continued
                } else {
                    self.reset();
                    self.target = Some(pos);
                    self.block = Some(b);
                    AimOutcome::Restarted
                }
            },
        }
    }

    /// The crack stages to add now that `stage` is reached: from the one
    /// after the last shown up to `stage`, none if `stage` is not past it.
    /// Stages never go back.
    pub fn advance_stage(&mut self, stage: usize) -> (r: (usize, usize))
        requires
            old(self).last_stage < usize::MAX,
        ensures
            stage > old(self).last_stage ==> r.0 == old(self).last_stage + 1 && r.1 == stage && final(self).last_stage
                == stage,
            stage <= old(self).last_stage ==> r.0 > r.1 && final(self).last_stage == old(self).last_stage,
            final(self).target == old(self).target,
            final(self).block == old(self).block,
    {
        let first = self.last_stage + 1;
        if stage > self.last_stage {
            self.last_stage = stage;
            (first, stage)
        } else {
            (first, self.last_stage)
        }
    }
}

} // verus!
