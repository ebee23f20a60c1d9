//! Kinds of mobs and animals, their random picks, and how a walking
//! creature gets past the block in front of it.

use vstd::prelude::*;

use crate::race::roll_below;

verus! {

/// Race of a humanoid mob.
#[derive(Debug, Clone, Copy, PartialEq, Eq, Structural)]
pub enum HumanoidRace {
    Sylvaris,
    Ignaar,
    Aethyn,
    Vorkai,
    Crysthari,
}

/// A hostile creature.
#[derive(Debug, Clone, Copy, PartialEq, Eq, Structural)]
pub enum MobKind {
    Slime,
    Wolf,
    Humanoid(HumanoidRace),
}

/// A peaceful creature.
#[derive(Debug, Clone, Copy, PartialEq, Eq, Structural)]
pub enum AnimalKind {
    Cow,
    Chicken,
    Pig,
}

/// Most mobs alive at once; no new one spawns at this count.
pub const MOB_CAP: usize = 12;
/// Most animals alive at once; no new one spawns at this count.
pub const ANIMAL_CAP: usize = 10;

pub open spec fn spec_humanoid_from_roll(roll: u32) -> HumanoidRace {
    if roll == 0 {
        HumanoidRace::Sylvaris
    } else if roll == 1 {
        HumanoidRace::Ignaar
    } else if roll == 2 {
        HumanoidRace::Aethyn
    } else if roll == 3 {
        HumanoidRace::Vorkai
    } else {
        HumanoidRace::Crysthari
    }
}

pub open spec fn spec_animal_from_roll(roll: u32) -> AnimalKind {
    if roll == 0 {
        AnimalKind::Cow
    } else if roll == 1 {
        AnimalKind::Chicken
    } else {
        AnimalKind::Pig
    }
}

impl HumanoidRace {
    /// Race picked by a roll among five, 0 to 3 in declaration order, any
    /// other value the last race.
    pub fn from_roll(roll: u32) -> (r: HumanoidRace)
        ensures
            r == spec_humanoid_from_roll(roll),
    {
        match roll {
            0 => HumanoidRace::Sylvaris,
            1 => HumanoidRace::Ignaar,
            2 => HumanoidRace::Aethyn,
            3 => HumanoidRace::Vorkai,
            _ => HumanoidRace::Crysthari,
        }
    }

    /// A race drawn at random, each with equal weight.
    pub fn random() -> (r: HumanoidRace)
        ensures
            exists|roll: u32| roll < 5 && r == spec_humanoid_from_roll(roll),
    {
        let roll = roll_below(5);
        HumanoidRace::from_roll(roll)
    }
}

impl AnimalKind {
    /// Kind picked by a roll among three: cow, chicken, then pig for any
    /// other value.
    pub fn from_roll(roll: u32) -> (r: AnimalKind)
        ensures
            r == spec_animal_from_roll(roll),
    {
        match roll {
            0 => AnimalKind::Cow,
            1 => AnimalKind::Chicken,
            _ => AnimalKind::Pig,
        }
    }

    /// A kind drawn at random, each with equal weight.
    pub fn random() -> (r: AnimalKind)
        ensures
            exists|roll: u32| roll < 3 && r == spec_animal_from_roll(roll),
    {
        let roll = roll_below(3);
        AnimalKind::from_roll(roll)
    }
}

/// What a walking creature does along one axis.
#[derive(Debug, Clone, Copy, PartialEq, Eq, Structural)]
pub enum AxisMove {
    /// Moves on.
    Advance,
    /// Moves on and jumps onto the block in front.
    StepUp,
    /// Stays and turns its wandering direction around on this axis.
    TurnBack,
}

/// The move along one axis: on when the way is free at feet and head
/// height; a jump onto a one-block step from the ground when the head is
/// free and so is the cell above the step; on while still rising from such
/// a jump with the head free; else turn back.
pub open spec fn spec_axis_move(
    on_ground: bool,
    rising: bool,
    feet_blocked: bool,
    head_blocked: bool,
    above_step_blocked: bool,
) -> AxisMove {
    if !feet_blocked && !head_blocked {
        AxisMove::Advance
    } else if on_ground && feet_blocked && !head_blocked && !above_step_blocked {
        AxisMove::StepUp
    } else if !on_ground && rising && !head_blocked {
        AxisMove::Advance
    } else {
        AxisMove::TurnBack
    }
}

/// How a creature gets on along one axis, from what blocks its way.
pub fn axis_move(
    on_ground: bool,
    rising: bool,
    feet_blocked: bool,
    head_blocked: bool,
    above_step_blocked: bool,
) -> (r: AxisMove)
    ensures
        r == spec_axis_move(on_ground, rising, feet_blocked, head_blocked, above_step_blocked),
{
    if !feet_blocked && !head_blocked {
        AxisMove::Advance
    } else if on_ground && feet_blocked && !head_blocked && !above_step_blocked {
        AxisMove::StepUp
    } else if !on_ground && rising && !head_blocked {
        AxisMove::Advance
    } else {
        AxisMove::TurnBack
    }
}

/// A creature never walks into a block at its head's height.
pub proof fn law_no_walk_through_head(
    on_ground: bool,
    rising: bool,
    feet_blocked: bool,
    above_step_blocked: bool,
)
    ensures
        spec_axis_move(on_ground, rising, feet_blocked, true, above_step_blocked)
            == AxisMove::TurnBack,
{
}

} // verus!
