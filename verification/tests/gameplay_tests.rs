use my_magic_adventure::block::Block;
use my_magic_adventure::breaking::{AimOutcome, BreakTracker};
use my_magic_adventure::chunk::BlockPos;
use my_magic_adventure::creatures::{axis_move, AnimalKind, AxisMove, HumanoidRace};
use my_magic_adventure::flow::{step_render_distance, transition, GameState, OptionsFrom, UiEvent};
use my_magic_adventure::race::{Race, RaceVitals};
use my_magic_adventure::ray::{aimed_block, placement_cell, Sample};
use my_magic_adventure::spells::{ProjectileKind, SpellBar, SpellId};
use my_magic_adventure::terraform::{eruption_cells, nova_cells, rooting_cells, spike_cells};

fn pos(x: i32, y: i32, z: i32) -> BlockPos {
    BlockPos { x, y, z }
}

#[test]
fn racial_ability_names() {
    assert_eq!(Race::Sylvaris.ability_name(), "Enracinement");
    assert_eq!(Race::Ignaar.ability_name(), "Eruption");
    assert_eq!(Race::Aethyn.ability_name(), "Bourrasque");
    assert_eq!(Race::Vorkai.ability_name(), "Voile d'Ombre");
    assert_eq!(Race::Crysthari.ability_name(), "Eclat Prismatique");
    assert_eq!(Race::default(), Race::Sylvaris);
}

#[test]
fn rolls_pick_races_and_creatures() {
    assert_eq!(Race::from_roll(0), Race::Sylvaris);
    assert_eq!(Race::from_roll(3), Race::Vorkai);
    assert_eq!(Race::from_roll(4), Race::Crysthari);
    assert_eq!(Race::from_roll(99), Race::Crysthari);
    assert_eq!(HumanoidRace::from_roll(1), HumanoidRace::Ignaar);
    assert_eq!(HumanoidRace::from_roll(7), HumanoidRace::Crysthari);
    assert_eq!(AnimalKind::from_roll(0), AnimalKind::Cow);
    assert_eq!(AnimalKind::from_roll(1), AnimalKind::Chicken);
    assert_eq!(AnimalKind::from_roll(2), AnimalKind::Pig);
}

#[test]
fn random_picks_reach_every_kind() {
    let mut races = Vec::new();
    let mut animals = Vec::new();
    let mut humanoids = Vec::new();
    for _ in 0..400 {
        let r = Race::random();
        if !races.contains(&r) {
            races.push(r);
        }
        let a = AnimalKind::random();
        if !animals.contains(&a) {
            animals.push(a);
        }
        let h = HumanoidRace::random();
        if !humanoids.contains(&h) {
            humanoids.push(h);
        }
    }
    assert_eq!(races.len(), 5);
    assert_eq!(animals.len(), 3);
    assert_eq!(humanoids.len(), 5);
}

#[test]
fn walking_past_obstacles() {
    assert_eq!(axis_move(true, false, false, false, false), AxisMove::Advance);
    assert_eq!(axis_move(true, false, true, false, false), AxisMove::StepUp);
    assert_eq!(axis_move(true, false, true, false, true), AxisMove::TurnBack);
    assert_eq!(axis_move(false, true, true, false, true), AxisMove::Advance);
    assert_eq!(axis_move(false, false, true, false, false), AxisMove::TurnBack);
    assert_eq!(axis_move(true, false, false, true, false), AxisMove::TurnBack);
}

#[test]
fn spell_names_and_digging() {
    assert_eq!(SpellId::Fireball.name(), "Boule de Feu");
    assert_eq!(SpellId::EarthSpike.name(), "Pic de Pierre");
    assert_eq!(SpellId::ShadowCloak.name(), "Voile d'Ombre");
    assert_eq!(SpellId::WindBlade.key_label(), "");
    assert!(ProjectileKind::Fire.digs());
    assert!(ProjectileKind::Wind.digs());
    assert!(!ProjectileKind::Light.digs());
}

#[test]
fn loadouts_per_race() {
    assert_eq!(
        SpellId::default_loadout(&Race::Ignaar),
        [
            Some(SpellId::Fireball),
            Some(SpellId::EarthWall),
            Some(SpellId::LightHeal),
            Some(SpellId::ShadowDrain),
            Some(SpellId::WindDash)
        ]
    );
    assert_eq!(SpellId::default_loadout(&Race::Crysthari)[0], Some(SpellId::LightBlind));
    let mut bar = SpellBar::default();
    assert_eq!(bar.slots[0], Some(SpellId::Fireball));
    assert_eq!(bar.slots[4], Some(SpellId::EarthWall));
    bar.selected = 3;
    bar.reset_for_race(&Race::Vorkai);
    assert_eq!(bar.selected, 0);
    assert_eq!(bar.selected_spell(), Some(SpellId::ShadowCloak));
}

#[test]
fn spell_selection_wraps_both_ways() {
    let mut bar = SpellBar::default();
    bar.select_prev();
    assert_eq!(bar.selected, 4);
    bar.select_next();
    assert_eq!(bar.selected, 0);
    bar.select_next();
    bar.select_next();
    assert_eq!(bar.selected, 2);
    assert_eq!(bar.selected_spell(), Some(SpellId::LightHeal));
}

#[test]
fn assigning_an_equipped_spell_swaps_slots() {
    let mut bar = SpellBar::default();
    bar.assign(0, SpellId::LightHeal);
    assert_eq!(bar.slots[0], Some(SpellId::LightHeal));
    assert_eq!(bar.slots[2], Some(SpellId::Fireball));
    bar.assign(1, SpellId::FireNova);
    assert_eq!(bar.slots[1], Some(SpellId::FireNova));
    assert_eq!(bar.slots[0], Some(SpellId::LightHeal));
    bar.slots[3] = None;
    bar.assign(3, SpellId::FireNova);
    assert_eq!(bar.slots[3], Some(SpellId::FireNova));
    assert_eq!(bar.slots[1], None);
}

fn brute_crater(c: BlockPos, dy_lo: i32, dy_hi: i32, rr: i32) -> Vec<BlockPos> {
    let mut out = Vec::new();
    for dx in -3..=3i32 {
        for dy in dy_lo..=dy_hi {
            for dz in -3..=3i32 {
                if dx * dx + dy * dy + dz * dz <= rr {
                    out.push(pos(c.x + dx, c.y + dy, c.z + dz));
                }
            }
        }
    }
    out
}

#[test]
fn craters_are_balls() {
    let c = pos(10, 30, -7);
    let nova = nova_cells(c);
    assert_eq!(nova, brute_crater(c, -3, 3, 6));
    assert_eq!(nova.len(), 81);
    let e = eruption_cells(c);
    assert_eq!(e, brute_crater(c, -1, 2, 11));
    assert!(e.contains(&pos(13, 31, -6)));
    assert!(!e.contains(&pos(13, 32, -4)));
}

#[test]
fn rooting_and_spike_cells() {
    let r = rooting_cells(pos(0, 10, 0));
    assert_eq!(r.len(), 9);
    assert_eq!(r[0], pos(-1, 9, -1));
    assert_eq!(r[4], pos(0, 9, 0));
    assert_eq!(r[8], pos(1, 9, 1));
    assert_eq!(
        spike_cells(pos(4, 7, -2)),
        vec![pos(4, 7, -2), pos(4, 8, -2), pos(4, 9, -2), pos(4, 10, -2)]
    );
}

#[test]
fn line_of_sight() {
    let cells = vec![pos(0, -1, 0), pos(0, 0, 0), pos(1, 0, 0), pos(2, 0, 0), pos(3, 0, 0)];
    let samples = vec![
        Sample::OutOfWorld,
        Sample::Open,
        Sample::Unloaded,
        Sample::Solid(Block::Stone),
        Sample::Solid(Block::Dirt),
    ];
    assert_eq!(aimed_block(&cells, &samples), Some((pos(2, 0, 0), Block::Stone)));
    assert_eq!(placement_cell(&cells, &samples), Some(pos(1, 0, 0)));
    let none = vec![Sample::OutOfWorld, Sample::Open, Sample::Open, Sample::OutOfWorld, Sample::Open];
    assert_eq!(aimed_block(&cells, &none), None);
    assert_eq!(placement_cell(&cells, &none), Some(pos(3, 0, 0)));
    let blocked = vec![Sample::OutOfWorld, Sample::Solid(Block::Ice), Sample::Open, Sample::Open, Sample::Open];
    assert_eq!(placement_cell(&cells, &blocked), None);
}

#[test]
fn breaking_restarts_on_a_new_target() {
    let mut t = BreakTracker::new();
    assert_eq!(t.aim(Some((pos(1, 2, 3), Block::Stone))), AimOutcome::Restarted);
    assert_eq!(t.advance_stage(2), (1, 2));
    assert_eq!(t.aim(Some((pos(1, 2, 3), Block::Stone))), AimOutcome::Continued);
    assert_eq!(t.last_stage, 2);
    let (a, b) = t.advance_stage(2);
    assert!(a > b);
    assert_eq!(t.advance_stage(3), (3, 3));
    assert_eq!(t.aim(Some((pos(1, 2, 4), Block::Dirt))), AimOutcome::Restarted);
    assert_eq!(t.last_stage, 0);
    assert_eq!(t.block, Some(Block::Dirt));
    assert_eq!(t.aim(None), AimOutcome::Cleared);
    assert_eq!(t.target, None);
}

#[test]
fn screens_follow_each_other() {
    let m = OptionsFrom::MainMenu;
    assert_eq!(GameState::default(), GameState::MainMenu);
    assert_eq!(transition(GameState::MainMenu, m, UiEvent::NewGame).next, Some(GameState::RaceSelect));
    assert_eq!(transition(GameState::MainMenu, m, UiEvent::LoadGame).next, Some(GameState::SaveSelect));
    assert!(transition(GameState::MainMenu, m, UiEvent::Quit).quit);
    let t = transition(GameState::Paused, m, UiEvent::OpenOptions);
    assert_eq!(t.next, Some(GameState::Options));
    assert_eq!(t.options_from, OptionsFrom::Paused);
    assert_eq!(transition(GameState::Options, t.options_from, UiEvent::Back).next, Some(GameState::Paused));
    assert_eq!(transition(GameState::Options, m, UiEvent::Escape).next, Some(GameState::MainMenu));
    assert_eq!(transition(GameState::InGame, m, UiEvent::Escape).next, Some(GameState::Paused));
    assert_eq!(transition(GameState::InGame, m, UiEvent::InventoryKey).next, Some(GameState::Inventory));
    assert_eq!(transition(GameState::Inventory, m, UiEvent::Escape).next, Some(GameState::InGame));
    assert_eq!(transition(GameState::Loading, m, UiEvent::WorldReady).next, Some(GameState::InGame));
    assert_eq!(transition(GameState::Dead, m, UiEvent::Respawn).next, Some(GameState::InGame));
    assert_eq!(transition(GameState::SaveSelect, m, UiEvent::SlotDeleted).next, Some(GameState::MainMenu));
    assert_eq!(transition(GameState::RaceSelect, m, UiEvent::Escape).next, None);
}

#[test]
fn render_distance_steps_stay_in_range() {
    assert_eq!(step_render_distance(3, 1), 4);
    assert_eq!(step_render_distance(8, 1), 8);
    assert_eq!(step_render_distance(2, -1), 2);
    assert_eq!(step_render_distance(100, -1), 8);
}

#[test]
fn race_health_and_mana_pools() {
    assert_eq!(Race::Sylvaris.vitals(), RaceVitals { max_hp: 100, max_mana: 80 });
    assert_eq!(Race::Ignaar.vitals(), RaceVitals { max_hp: 130, max_mana: 60 });
    assert_eq!(Race::Aethyn.vitals(), RaceVitals { max_hp: 80, max_mana: 100 });
    assert_eq!(Race::Vorkai.vitals(), RaceVitals { max_hp: 90, max_mana: 90 });
    assert_eq!(Race::Crysthari.vitals(), RaceVitals { max_hp: 85, max_mana: 125 });
    for r in [Race::Sylvaris, Race::Ignaar, Race::Aethyn, Race::Vorkai] {
        assert!(r.vitals().max_mana < Race::Crysthari.vitals().max_mana);
    }
}
