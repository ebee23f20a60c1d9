//! The playable races, their racial ability names, and random picks.

use vstd::prelude::*;

use rand::Rng;

verus! {

/// A playable race.
#[derive(Debug, Clone, Copy, PartialEq, Eq, Hash, Structural)]
pub enum Race {
    Sylvaris,
    Ignaar,
    Aethyn,
    Vorkai,
    Crysthari,
}

impl Default for Race {
    fn default() -> (r: Self)
        ensures
            r == Race::Sylvaris,
    {
        Race::Sylvaris
    }
}

/// A number drawn uniformly below `n` from the thread-local generator.
///
/// Calls `rand::Rng::gen_range` on `rand::thread_rng()` with the range
/// `0..n`. The contract claims only that the result lies in that range, as
/// the crate documents; which value comes out is chance. The range must not
/// be empty, or the call panics.
#[verifier::external_body]
pub(crate) fn roll_below(n: u32) -> (r: u32)
    requires
        n > 0,
    ensures
        r < n,
{
    rand::thread_rng().gen_range(0..n)
}

/// Race that a roll among five picks; rolls past the last race pick it.
pub open spec fn spec_race_from_roll(roll: u32) -> Race {
    if roll == 0 {
        Race::Sylvaris
    } else if roll == 1 {
        Race::Ignaar
    } else if roll == 2 {
        Race::Aethyn
    } else if roll == 3 {
        Race::Vorkai
    } else {
        Race::Crysthari
    }
}

/// Name of a race's active ability.
pub open spec fn spec_ability_name(r: Race) -> Seq<char> {
    match r {
        Race::Sylvaris => "Enracinement"@,
        Race::Ignaar => "Eruption"@,
        Race::Aethyn => "Bourrasque"@,
        Race::Vorkai => "Voile d'Ombre"@,
        Race::Crysthari => "Eclat Prismatique"@,
    }
}

/// Health a race starts with and is healed up to.
pub open spec fn spec_max_hp(r: Race) -> u32 {
    match r {
        Race::Sylvaris => 100,
        Race::Ignaar => 130,
        Race::Aethyn => 80,
        Race::Vorkai => 90,
        Race::Crysthari => 85,
    }
}

/// Mana a race starts with and regains up to.
pub open spec fn spec_max_mana(r: Race) -> u32 {
    match r {
        Race::Sylvaris => 80,
        Race::Ignaar => 60,
        Race::Aethyn => 100,
        Race::Vorkai => 90,
        Race::Crysthari => 125,
    }
}

/// The whole-number part of a race's base stats: its health and mana pools.
#[derive(Debug, Clone, Copy, PartialEq, Eq, Structural)]
pub struct RaceVitals {
    pub max_hp: u32,
    pub max_mana: u32,
}

impl Race {
    /// Race picked by a roll among five: 0 to 3 in declaration order, any
    /// other value the last race.
    pub fn from_roll(roll: u32) -> (r: Race)
        ensures
            r == spec_race_from_roll(roll),
    {
        match roll {
            0 => Race::Sylvaris,
            1 => Race::Ignaar,
            2 => Race::Aethyn,
            3 => Race::Vorkai,
            _ => Race::Crysthari,
        }
    }

    /// A race drawn at random, each with equal weight.
    pub fn random() -> (r: Race)
        ensures
            exists|roll: u32| roll < 5 && r == spec_race_from_roll(roll),
    {
        let roll = roll_below(5);
        Race::from_roll(roll)
    }

    /// Short name of the race's active ability.
    pub fn ability_name(&self) -> (s: &'static str)
        ensures
            s@ == spec_ability_name(*self),
    {
        match self {
            Race::Sylvaris => "Enracinement",
            Race::Ignaar => "Eruption",
            Race::Aethyn => "Bourrasque",
            Race::Vorkai => "Voile d'Ombre",
            Race::Crysthari => "Eclat Prismatique",
        }
    }

    /// Health and mana pools of the race.
    pub fn vitals(&self) -> (v: RaceVitals)
        ensures
            v.max_hp == spec_max_hp(*self),
            v.max_mana == spec_max_mana(*self),
    {
        match self {
            Race::Sylvaris => RaceVitals { max_hp: 100, max_mana: 80 },
            Race::Ignaar => RaceVitals { max_hp: 130, max_mana: 60 },
            Race::Aethyn => RaceVitals { max_hp: 80, max_mana: 100 },
            Race::Vorkai => RaceVitals { max_hp: 90, max_mana: 90 },
            Race::Crysthari => RaceVitals { max_hp: 85, max_mana: 125 },
        }
    }
}

/// The Crysthari have a larger mana pool than every other race.
pub proof fn law_crysthari_most_mana(r: Race)
    ensures
        r != Race::Crysthari ==> spec_max_mana(r) < spec_max_mana(Race::Crysthari),
{
}

} // verus!
