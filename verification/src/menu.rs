//! The main menu's shootable buttons and the pause menu.

use vstd::prelude::*;
use crate::gamestate::{EntityId, InGameState};
use crate::level::LevelId;

verus! {

/// What a shootable menu button does.
#[allow(non_camel_case_types, clippy::upper_case_acronyms)]
#[derive(Clone, Copy, Debug, PartialEq, Eq, Structural)]
pub enum ButtonType {
    START,
    SETTINGS,
    EXIT,
}

impl Default for ButtonType {
    fn default() -> (b: Self)
        ensures
            b == ButtonType::START,
    {
        ButtonType::START
    }
}

/// What the game does after a menu button was shot.
#[derive(Clone, Copy, Debug, PartialEq, Eq, Structural)]
pub enum MenuCommand {
    /// Load the level.
    LoadLevel(LevelId),
    /// End the game as a defeat.
    Defeat,
}

/// The command of a button type; the settings button does nothing yet.
pub open spec fn button_command(button: ButtonType) -> Option<MenuCommand> {
    match button {
        ButtonType::START => Some(MenuCommand::LoadLevel(LevelId::Level1)),
        ButtonType::SETTINGS => None,
        ButtonType::EXIT => Some(MenuCommand::Defeat),
    }
}

/// The button hit in a collision: the first entity when the second is a
/// projectile, else the second when the first is a projectile.
pub open spec fn button_hit(
    first_is_projectile: bool,
    second_is_projectile: bool,
    first_button: Option<ButtonType>,
    second_button: Option<ButtonType>,
) -> Option<ButtonType> {
    if second_is_projectile {
        first_button
    } else if first_is_projectile {
        second_button
    } else {
        None
    }
}

/// Law: shooting the start button loads the first level, shooting the exit
/// button ends the game as a defeat, and the settings button does nothing; the
/// button hit is the entity that the projectile touched.
pub proof fn lemma_menu_buttons(
    first_is_projectile: bool,
    second_is_projectile: bool,
    first_button: Option<ButtonType>,
    second_button: Option<ButtonType>,
)
    ensures
        button_command(ButtonType::START) == Some(MenuCommand::LoadLevel(LevelId::Level1)),
        button_command(ButtonType::EXIT) == Some(MenuCommand::Defeat),
        button_command(ButtonType::SETTINGS) is None,
        second_is_projectile ==> button_hit(
            first_is_projectile,
            second_is_projectile,
            first_button,
            second_button,
        ) == first_button,
        first_is_projectile && !second_is_projectile ==> button_hit(
            first_is_projectile,
            second_is_projectile,
            first_button,
            second_button,
        ) == second_button,
        !first_is_projectile && !second_is_projectile ==> button_hit(
            first_is_projectile,
            second_is_projectile,
            first_button,
            second_button,
        ) is None,
{
}

/// Resolves a collision on the main menu: a projectile that hits a button
/// triggers the button's command.
pub fn handle_button_system(
    first_is_projectile: bool,
    second_is_projectile: bool,
    first_button: Option<ButtonType>,
    second_button: Option<ButtonType>,
) -> (command: Option<MenuCommand>)
    ensures
        command == match button_hit(
            first_is_projectile,
            second_is_projectile,
            first_button,
            second_button,
        ) {
            Some(b) => button_command(b),
            None => None,
        },
{
    let button = if second_is_projectile {
        first_button
    } else if first_is_projectile {
        second_button
    } else {
        None
    };
    match button {
        Some(ButtonType::START) => Some(MenuCommand::LoadLevel(LevelId::Level1)),
        Some(ButtonType::SETTINGS) => None,
        Some(ButtonType::EXIT) => Some(MenuCommand::Defeat),
        None => None,
    }
}

/// The buttons of the pause menu once its scene is in the tree.
pub struct MenuHandles {
    pub restart_button: Option<u64>,
    pub exit_button: Option<u64>,
    pub initialized: bool,
    pub signals_connected: bool,
}

impl Default for MenuHandles {
    fn default() -> (m: Self)
        ensures
            m.restart_button is None,
            m.exit_button is None,
            !m.initialized,
            !m.signals_connected,
    {
        MenuHandles {
            restart_button: None,
            exit_button: None,
            initialized: false,
            signals_connected: false,
        }
    }
}

impl MenuHandles {
    /// Forgets the menu: it must be found and connected again.
    pub fn reset_menu(&mut self)
        ensures
            final(self).restart_button is None,
            final(self).exit_button is None,
            !final(self).initialized,
            !final(self).signals_connected,
    {
        self.initialized = false;
        self.signals_connected = false;
        self.restart_button = None;
        self.exit_button = None;
    }

    /// The menu scene was found with its two buttons.
    pub fn init_menu(&mut self, restart_button: u64, exit_button: u64)
        ensures
            final(self).restart_button == Some(restart_button),
            final(self).exit_button == Some(exit_button),
            final(self).initialized,
            final(self).signals_connected == old(self).signals_connected,
    {
        self.restart_button = Some(restart_button);
        self.exit_button = Some(exit_button);
        self.initialized = true;
    }

    /// Marks the buttons as connected once both are known.
    pub fn connect_menu_buttons(&mut self)
        ensures
            final(self).signals_connected == (old(self).signals_connected || (
            old(self).restart_button is Some && old(self).exit_button is Some)),
            final(self).restart_button == old(self).restart_button,
            final(self).exit_button == old(self).exit_button,
            final(self).initialized == old(self).initialized,
    {
        if self.signals_connected {
            return;
        }
        if self.restart_button.is_some() && self.exit_button.is_some() {
            self.signals_connected = true;
        }
    }
}

/// What leaving the pause menu asks of the world.
#[derive(Clone, Copy, Debug, PartialEq, Eq, Structural)]
pub struct PauseExit {
    /// The pause menu scene to remove.
    pub despawn: Option<EntityId>,
    /// The in-game state to switch to.
    pub next_state: Option<InGameState>,
}

/// Leaving the pause menu. In the paused state, with exactly one pause menu
/// scene (`menu`) and the menu handles present, the menu scene is removed,
/// the game runs again and the handles are reset. Otherwise nothing changes.
pub fn exit_pause(
    state: InGameState,
    menu: Option<EntityId>,
    handles: &mut Option<MenuHandles>,
) -> (out: PauseExit)
    ensures
        state == InGameState::PAUSED && menu is Some && *old(handles) is Some ==> {
            &&& out == PauseExit { despawn: menu, next_state: Some(InGameState::RUNNING) }
            &&& *final(handles) matches Some(h) && h.restart_button is None
                && h.exit_button is None && !h.initialized && !h.signals_connected
        },
        !(state == InGameState::PAUSED && menu is Some && *old(handles) is Some) ==> {
            &&& out == PauseExit { despawn: None, next_state: None }
            &&& *final(handles) == *old(handles)
        },
{
    if state != InGameState::PAUSED || menu.is_none() {
        return PauseExit { despawn: None, next_state: None };
    }
    match handles {
        Some(h) => {
            h.reset_menu();
            PauseExit { despawn: menu, next_state: Some(InGameState::RUNNING) }
        },
        None => PauseExit { despawn: None, next_state: None },
    }
}

} // verus!
