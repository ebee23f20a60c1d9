//! The screens of the game and how player actions move between them:
//! main menu, save choice, race choice, loading, play, and the overlays
//! opened from play (pause, options, inventory, death).

use vstd::prelude::*;

verus! {

/// A screen of the game.
#[derive(Debug, Clone, Copy, PartialEq, Eq, Hash, Structural)]
pub enum GameState {
    MainMenu,
    SaveSelect,
    RaceSelect,
    Loading,
    InGame,
    Paused,
    Options,
    Inventory,
    Dead,
}

impl Default for GameState {
    fn default() -> (r: Self)
        ensures
            r == GameState::MainMenu,
    {
        GameState::MainMenu
    }
}

/// Where the options screen was opened from, to go back there.
#[derive(Debug, Clone, Copy, PartialEq, Eq, Structural)]
pub enum OptionsFrom {
    MainMenu,
    Paused,
}

/// Something the player did, or that happened, on a screen.
#[derive(Debug, Clone, Copy, PartialEq, Eq, Structural)]
pub enum UiEvent {
    /// The Escape key.
    Escape,
    /// The inventory key.
    InventoryKey,
    NewGame,
    LoadGame,
    OpenOptions,
    Quit,
    Resume,
    ToMainMenu,
    Back,
    /// A save slot was read and its game is loading.
    SlotLoaded,
    /// A save slot was deleted.
    SlotDeleted,
    /// A race was chosen.
    RaceConfirmed,
    /// Every chunk around the player is ready.
    WorldReady,
    /// The player's health fell to zero.
    Died,
    Respawn,
}

/// The outcome of an event: the next screen (none to stay), where the
/// options screen returns to, and whether the game quits.
#[derive(Debug, Clone, Copy, PartialEq, Eq, Structural)]
pub struct Transition {
    pub next: Option<GameState>,
    pub options_from: OptionsFrom,
    pub quit: bool,
}

pub open spec fn stay(from: OptionsFrom) -> Transition {
    Transition { next: None, options_from: from, quit: false }
}

pub open spec fn go(s: GameState, from: OptionsFrom) -> Transition {
    Transition { next: Some(s), options_from: from, quit: false }
}

/// How the screens follow one another.
pub open spec fn spec_transition(state: GameState, from: OptionsFrom, ev: UiEvent) -> Transition {
    match state {
        GameState::MainMenu => match ev {
            UiEvent::NewGame => go(GameState::RaceSelect, from),
            UiEvent::LoadGame => go(GameState::SaveSelect, from),
            UiEvent::OpenOptions => go(GameState::Options, OptionsFrom::MainMenu),
            UiEvent::Quit => Transition { next: None, options_from: from, quit: true },
            _ => stay(from),
        },
        GameState::SaveSelect => match ev {
            UiEvent::Escape | UiEvent::SlotDeleted | UiEvent::Back => go(GameState::MainMenu, from),
            UiEvent::SlotLoaded => go(GameState::Loading, from),
            UiEvent::NewGame => go(GameState::RaceSelect, from),
            _ => stay(from),
        },
        GameState::RaceSelect => match ev {
            UiEvent::RaceConfirmed => go(GameState::Loading, from),
            _ => stay(from),
        },
        GameState::Loading => match ev {
            UiEvent::WorldReady => go(GameState::InGame, from),
            _ => stay(from),
        },
        GameState::InGame => match ev {
            UiEvent::Escape => go(GameState::Paused, from),
            UiEvent::InventoryKey => go(GameState::Inventory, from),
            UiEvent::Died => go(GameState::Dead, from),
            _ => stay(from),
        },
        GameState::Paused => match ev {
            UiEvent::Escape | UiEvent::Resume => go(GameState::InGame, from),
            UiEvent::OpenOptions => go(GameState::Options, OptionsFrom::Paused),
            UiEvent::ToMainMenu => go(GameState::MainMenu, from),
            UiEvent::Quit => Transition { next: None, options_from: from, quit: true },
            _ => stay(from),
        },
        GameState::Options => match ev {
            UiEvent::Escape | UiEvent::Back => go(
                match from {
                    OptionsFrom::MainMenu => GameState::MainMenu,
                    OptionsFrom::Paused => GameState::Paused,
                },
                from,
            ),
            _ => stay(from),
        },
        GameState::Inventory => match ev {
            UiEvent::Escape | UiEvent::InventoryKey => go(GameState::InGame, from),
            _ => stay(from),
        },
        GameState::Dead => match ev {
            UiEvent::Respawn => go(GameState::InGame, from),
            UiEvent::ToMainMenu => go(GameState::MainMenu, from),
            _ => stay(from),
        },
    }
}

/// The screen that follows an event on the current screen.
pub fn transition(state: GameState, from: OptionsFrom, ev: UiEvent) -> (r: Transition)
    ensures
        r == spec_transition(state, from, ev),
{
    let stay = Transition { next: None, options_from: from, quit: false };
    match state {
        GameState::MainMenu => match ev {
            UiEvent::NewGame => Transition { next: Some(GameState::RaceSelect), options_from: from, quit: false },
            UiEvent::LoadGame => Transition { next: Some(GameState::SaveSelect), options_from: from, quit: false },
            UiEvent::OpenOptions => Transition {
                next: Some(GameState::Options),
                options_from: OptionsFrom::MainMenu,
                quit: false,
            },
            UiEvent::Quit => Transition { next: None, options_from: from, quit: true },
            _ => stay,
        },
        GameState::SaveSelect => match ev {
            UiEvent::Escape | UiEvent::SlotDeleted | UiEvent::Back => Transition {
                next: Some(GameState::MainMenu),
                options_from: from,
                quit: false,
            },
            UiEvent::SlotLoaded => Transition { next: Some(GameState::Loading), options_from: from, quit: false },
            UiEvent::NewGame => Transition { next: Some(GameState::RaceSelect), options_from: from, quit: false },
            _ => stay,
        },
        GameState::RaceSelect => match ev {
            UiEvent::RaceConfirmed => Transition { next: Some(GameState::Loading), options_from: from, quit: false },
            _ => stay,
        },
        GameState::Loading => match ev {
            UiEvent::WorldReady => Transition { next: Some(GameState::InGame), options_from: from, quit: false },
            _ => stay,
        },
        GameState::InGame => match ev {
            UiEvent::Escape => Transition { next: Some(GameState::Paused), options_from: from, quit: false },
            UiEvent::InventoryKey => Transition { next: Some(GameState::Inventory), options_from: from, quit: false },
            UiEvent::Died => Transition { next: Some(GameState::Dead), options_from: from, quit: false },
            _ => stay,
        },
        GameState::Paused => match ev {
            UiEvent::Escape | UiEvent::Resume => Transition {
                next: Some(GameState::InGame),
                options_from: from,
                quit: false,
            },
            UiEvent::OpenOptions => Transition {
                next: Some(GameState::Options),
                options_from: OptionsFrom::Paused,
                quit: false,
            },
            UiEvent::ToMainMenu => Transition { next: Some(GameState::MainMenu), options_from: from, quit: false },
            UiEvent::Quit => Transition { next: None, options_from: from, quit: true },
            _ => stay,
        },
        GameState::Options => match ev {
            UiEvent::Escape | UiEvent::Back => {
                let back = match from {
                    OptionsFrom::MainMenu => GameState::MainMenu,
                    OptionsFrom::Paused => GameState::Paused,
                };
                Transition { next: Some(back), options_from: from, quit: false }
            },
            _ => stay,
        },
        GameState::Inventory => match ev {
            UiEvent::Escape | UiEvent::InventoryKey => Transition {
                next: Some(GameState::InGame),
                options_from: from,
                quit: false,
            },
            _ => stay,
        },
        GameState::Dead => match ev {
            UiEvent::Respawn => Transition { next: Some(GameState::InGame), options_from: from, quit: false },
            UiEvent::ToMainMenu => Transition { next: Some(GameState::MainMenu), options_from: from, quit: false },
            _ => stay,
        },
    }
}

/// Closest render distance to `v` that the options allow.
pub open spec fn clamp_render_distance(v: int) -> int {
    if v < 2 {
        2
    } else if v > 8 {
        8
    } else {
        v
    }
}

/// The render distance after pressing a stepper button worth `delta`:
/// kept between 2 and 8 chunks.
pub fn step_render_distance(rd: i32, delta: i32) -> (r: i32)
    requires
        i32::MIN <= rd + delta <= i32::MAX,
    ensures
        r == clamp_render_distance(rd + delta),
{
    let v = rd + delta;
    if v < 2 {
        2
    } else if v > 8 {
        8
    } else {
        v
    }
}

/// Leaving the options screen returns to the screen it was opened from.
pub proof fn law_options_return(state: GameState, from: OptionsFrom)
    requires
        state == GameState::MainMenu || state == GameState::Paused,
    ensures
        ({
            let opened = spec_transition(state, from, UiEvent::OpenOptions);
            let back = spec_transition(GameState::Options, opened.options_from, UiEvent::Back);
            opened.next == Some(GameState::Options) && back.next == Some(state)
        }),
{
}

/// Escape pauses play, and Escape again resumes it.
pub proof fn law_pause_resume(from: OptionsFrom)
    ensures
        spec_transition(GameState::InGame, from, UiEvent::Escape).next == Some(GameState::Paused),
        spec_transition(GameState::Paused, from, UiEvent::Escape).next == Some(GameState::InGame),
{
}

/// The render distance never leaves 2 to 8 chunks.
pub proof fn law_render_distance_bounds(v: int)
    ensures
        2 <= clamp_render_distance(v) <= 8,
{
}

} // verus!
