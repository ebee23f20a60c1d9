//! Spells, the five-slot spell bar, and each race's starting loadout.

use vstd::prelude::*;

use crate::race::Race;

verus! {

/// A castable spell.
#[derive(Debug, Clone, Copy, PartialEq, Eq, Hash, Structural)]
pub enum SpellId {
    Fireball,
    IceShard,
    EarthWall,
    WindDash,
    LightHeal,
    LightBlind,
    ShadowCloak,
    ShadowDrain,
    WaterShield,
    FireNova,
    WindBlade,
    EarthSpike,
}

/// How a projectile looks and what it does on impact.
#[derive(Debug, Clone, Copy, PartialEq, Eq, Structural)]
pub enum ProjectileKind {
    Fire,
    Ice,
    Drain,
    Light,
    Wind,
}

/// Number of slots of the spell bar.
pub const SPELL_SLOTS: usize = 5;

/// Display name of a spell.
pub open spec fn spec_spell_name(s: SpellId) -> Seq<char> {
    match s {
        SpellId::Fireball => "Boule de Feu"@,
        SpellId::IceShard => "Eclat de Glace"@,
        SpellId::EarthWall => "Mur de Terre"@,
        SpellId::WindDash => "Dash du Vent"@,
        SpellId::LightHeal => "Soin Lumiere"@,
        SpellId::LightBlind => "Eclat Aveuglant"@,
        SpellId::ShadowCloak => "Voile d'Ombre"@,
        SpellId::ShadowDrain => "Drain d'Ombre"@,
        SpellId::WaterShield => "Bouclier d'Eau"@,
        SpellId::FireNova => "Nova de Feu"@,
        SpellId::WindBlade => "Lame de Vent"@,
        SpellId::EarthSpike => "Pic de Pierre"@,
    }
}

/// Starting spells of a race, slot by slot.
pub open spec fn spec_default_loadout(race: Race) -> Seq<SpellId> {
    match race {
        Race::Sylvaris => seq![
            SpellId::EarthWall,
            SpellId::LightHeal,
            SpellId::WaterShield,
            SpellId::WindDash,
            SpellId::Fireball,
        ],
        Race::Ignaar => seq![
            SpellId::Fireball,
            SpellId::EarthWall,
            SpellId::LightHeal,
            SpellId::ShadowDrain,
            SpellId::WindDash,
        ],
        Race::Aethyn => seq![
            SpellId::WindDash,
            SpellId::IceShard,
            SpellId::LightBlind,
            SpellId::LightHeal,
            SpellId::Fireball,
        ],
        Race::Vorkai => seq![
            SpellId::ShadowCloak,
            SpellId::ShadowDrain,
            SpellId::Fireball,
            SpellId::WindDash,
            SpellId::LightHeal,
        ],
        Race::Crysthari => seq![
            SpellId::LightBlind,
            SpellId::LightHeal,
            SpellId::IceShard,
            SpellId::WaterShield,
            SpellId::Fireball,
        ],
    }
}

impl SpellId {
    /// Display name of the spell.
    pub fn name(self) -> (s: &'static str)
        ensures
            s@ == spec_spell_name(self),
    {
        match self {
            SpellId::Fireball => "Boule de Feu",
            SpellId::IceShard => "Eclat de Glace",
            SpellId::EarthWall => "Mur de Terre",
            SpellId::WindDash => "Dash du Vent",
            SpellId::LightHeal => "Soin Lumiere",
            SpellId::LightBlind => "Eclat Aveuglant",
            SpellId::ShadowCloak => "Voile d'Ombre",
            SpellId::ShadowDrain => "Drain d'Ombre",
            SpellId::WaterShield => "Bouclier d'Eau",
            SpellId::FireNova => "Nova de Feu",
            SpellId::WindBlade => "Lame de Vent",
            SpellId::EarthSpike => "Pic de Pierre",
        }
    }

    /// Key hint shown next to the spell: none, spells are cast with the
    /// selected slot.
    pub fn key_label(self) -> (s: &'static str)
        ensures
            s@ == ""@,
    {
        ""
    }

    /// The five starting spells of a race.
    pub fn default_loadout(race: &Race) -> (r: [Option<SpellId>; 5])
        ensures
            forall|i: int| 0 <= i < 5 ==> #[trigger] r@[i] == Some(spec_default_loadout(*race)[i]),
    {
        let r = match race {
            Race::Sylvaris => [
                Some(SpellId::EarthWall),
                Some(SpellId::LightHeal),
                Some(SpellId::WaterShield),
                Some(SpellId::WindDash),
                Some(SpellId::Fireball),
            ],
            Race::Ignaar => [
                Some(SpellId::Fireball),
                Some(SpellId::EarthWall),
                Some(SpellId::LightHeal),
                Some(SpellId::ShadowDrain),
                Some(SpellId::WindDash),
            ],
            Race::Aethyn => [
                Some(SpellId::WindDash),
                Some(SpellId::IceShard),
                Some(SpellId::LightBlind),
                Some(SpellId::LightHeal),
                Some(SpellId::Fireball),
            ],
            Race::Vorkai => [
                Some(SpellId::ShadowCloak),
                Some(SpellId::ShadowDrain),
                Some(SpellId::Fireball),
                Some(SpellId::WindDash),
                Some(SpellId::LightHeal),
            ],
            Race::Crysthari => [
                Some(SpellId::LightBlind),
                Some(SpellId::LightHeal),
                Some(SpellId::IceShard),
                Some(SpellId::WaterShield),
                Some(SpellId::Fireball),
            ],
        };
        assert(forall|i: int| 0 <= i < 5 ==> #[trigger] r@[i] == Some(spec_default_loadout(*race)[i]));
        r
    }
}

/// A projectile of this kind digs out the solid block it hits; light passes
/// without breaking anything.
pub open spec fn spec_digs(kind: ProjectileKind) -> bool {
    kind != ProjectileKind::Light
}

impl ProjectileKind {
    /// The projectile breaks the solid block it hits.
    pub fn digs(self) -> (r: bool)
        ensures
            r == spec_digs(self),
    {
        match self {
            ProjectileKind::Fire | ProjectileKind::Ice | ProjectileKind::Drain | ProjectileKind::Wind => true,
            ProjectileKind::Light => false,
        }
    }
}

/// The spell bar: five slots, one of them selected.
pub struct SpellBar {
    pub slots: [Option<SpellId>; 5],
    pub selected: usize,
}

impl Default for SpellBar {
    fn default() -> (r: Self)
        ensures
            r.slots@ == seq![
                Some(SpellId::Fireball),
                Some(SpellId::WindDash),
                Some(SpellId::LightHeal),
                Some(SpellId::ShadowCloak),
                Some(SpellId::EarthWall),
            ],
            r.selected == 0,
    {
        let r = SpellBar {
            slots: [
                Some(SpellId::Fireball),
                Some(SpellId::WindDash),
                Some(SpellId::LightHeal),
                Some(SpellId::ShadowCloak),
                Some(SpellId::EarthWall),
            ],
            selected: 0,
        };
        assert(r.slots@ =~= seq![
            Some(SpellId::Fireball),
            Some(SpellId::WindDash),
            Some(SpellId::LightHeal),
            Some(SpellId::ShadowCloak),
            Some(SpellId::EarthWall),
        ]);
        r
    }
}

/// No spell sits in two slots.
pub open spec fn slots_distinct(s: Seq<Option<SpellId>>) -> bool {
    forall|i: int, j: int|
        0 <= i < s.len() && 0 <= j < s.len() && i != j && #[trigger] s[i] is Some ==> s[i]
            != #[trigger] s[j]
}

/// The slots after `spell` is put in slot `target`: a slot that already held
/// the spell takes what the target held, so the two trade places.
pub open spec fn spec_assign(s: Seq<Option<SpellId>>, target: int, spell: SpellId) -> Seq<
    Option<SpellId>,
> {
    Seq::new(
        s.len(),
        |i: int|
            if i == target {
                Some(spell)
            } else if s[i] == Some(spell) {
                s[target]
            } else {
                s[i]
            },
    )
}

impl SpellBar {
    /// Selects the previous slot, from the first to the last.
    pub fn select_prev(&mut self)
        requires
            old(self).selected < SPELL_SLOTS,
        ensures
            final(self).slots == old(self).slots,
            final(self).selected == (old(self).selected + SPELL_SLOTS - 1) % (SPELL_SLOTS as int),
    {
        self.selected = (self.selected + SPELL_SLOTS - 1) % SPELL_SLOTS;
    }

    /// Selects the next slot, from the last to the first.
    pub fn select_next(&mut self)
        requires
            old(self).selected < SPELL_SLOTS,
        ensures
            final(self).slots == old(self).slots,
            final(self).selected == (old(self).selected + 1) % (SPELL_SLOTS as int),
    {
        self.selected = (self.selected + 1) % SPELL_SLOTS;
    }

    /// The spell in the selected slot, if any.
    pub fn selected_spell(&self) -> (r: Option<SpellId>)
        requires
            self.selected < SPELL_SLOTS,
        ensures
            r == self.slots@[self.selected as int],
    {
        self.slots[self.selected]
    }

    /// Puts the starting spells of `race` in the bar and selects the first
    /// slot.
    pub fn reset_for_race(&mut self, race: &Race)
        ensures
            forall|i: int| 0 <= i < 5 ==> #[trigger] final(self).slots@[i] == Some(
                spec_default_loadout(*race)[i],
            ),
            final(self).selected == 0,
    {
        self.slots = SpellId::default_loadout(race);
        self.selected = 0;
    }

    /// Puts `spell` in slot `target`; if another slot held it, that slot
    /// takes the target's former content.
    pub fn assign(&mut self, target: usize, spell: SpellId)
        requires
            target < SPELL_SLOTS,
        ensures
            final(self).slots@ == spec_assign(old(self).slots@, target as int, spell),
            final(self).selected == old(self).selected,
    {
        let ghost s0 = self.slots@;
        let prior = self.slots[target];
        let mut i: usize = 0;
        while i < SPELL_SLOTS
            invariant
                i <= SPELL_SLOTS,
                target < SPELL_SLOTS,
                s0.len() == SPELL_SLOTS,
                prior == s0[target as int],
                self.slots@.len() == SPELL_SLOTS,
                self.selected == old(self).selected,
                s0 == old(self).slots@,
                forall|j: int|
                    0 <= j < SPELL_SLOTS ==> #[trigger] self.slots@[j] == (if j < i && j
                        != target && s0[j] == Some(spell) {
                        prior
                    } else {
                        s0[j]
                    }),
            decreases SPELL_SLOTS - i,
        {
            if i != target && self.slots[i] == Some(spell) {
                self.slots[i] = prior;
            }
            i = i + 1;
        }
        self.slots[target] = Some(spell);
        assert(self.slots@ =~= spec_assign(s0, target as int, spell));
    }
}

/// Moving the selection forward and then back returns to the same slot.
pub proof fn law_select_next_then_prev(selected: int)
    requires
        0 <= selected < SPELL_SLOTS,
    ensures
        ((selected + 1) % (SPELL_SLOTS as int) + SPELL_SLOTS - 1) % (SPELL_SLOTS as int)
            == selected,
{
}

/// Assigning a spell puts it in the target slot; a slot that held the
/// spell takes the target's former content, every other slot is kept, and
/// no spell ends up in two slots if none was before.
pub proof fn law_assign_keeps_slots_distinct(s: Seq<Option<SpellId>>, target: int, spell: SpellId)
    requires
        s.len() == SPELL_SLOTS,
        0 <= target < SPELL_SLOTS,
        slots_distinct(s),
    ensures
        spec_assign(s, target, spell)[target] == Some(spell),
        forall|k: int|
            0 <= k < SPELL_SLOTS && k != target && s[k] == Some(spell) ==> #[trigger] spec_assign(
                s,
                target,
                spell,
            )[k] == s[target],
        forall|k: int|
            0 <= k < SPELL_SLOTS && k != target && s[k] != Some(spell) ==> #[trigger] spec_assign(
                s,
                target,
                spell,
            )[k] == s[k],
        slots_distinct(spec_assign(s, target, spell)),
{
    let t = spec_assign(s, target, spell);
    assert forall|i: int, j: int|
        0 <= i < t.len() && 0 <= j < t.len() && i != j && #[trigger] t[i] is Some implies t[i]
            != #[trigger] t[j] by {
        if i == target {
            if j != target && s[j] == Some(spell) {
                assert(s[target] != Some(spell) || s[target] is None);
            }
        } else if j == target {
            if s[i] == Some(spell) {
                assert(s[target] != Some(spell) || s[target] is None);
            }
        } else {
            if s[i] == Some(spell) && s[j] != Some(spell) {
                assert(s[target] != s[j]);
            } else if s[j] == Some(spell) && s[i] != Some(spell) {
                assert(s[target] != s[i]);
            }
        }
    }
}

/// Every race starts with five different spells.
pub proof fn law_default_loadout_distinct(race: Race)
    ensures
        spec_default_loadout(race).len() == SPELL_SLOTS,
        forall|i: int, j: int|
            0 <= i < j < SPELL_SLOTS ==> #[trigger] spec_default_loadout(race)[i]
                != #[trigger] spec_default_loadout(race)[j],
{
}

} // verus!
