//! The menu screen's state transitions. Drawing the menu and reading keys
//! belong to the surrounding application; only the state change is here.

use vstd::prelude::*;

verus! {

/// Which screen the application is on, or whether it is shutting down.
#[derive(Clone, Copy, PartialEq, Eq, Structural, Debug)]
pub enum RunningState {
    Menu,
    Game,
    Done,
}

/// What a menu key press asks for.
#[derive(Clone, Copy, PartialEq, Eq, Structural, Debug)]
pub enum MenuAction {
    StartGame,
    Quit,
}

/// The application's screen state.
pub struct Model {
    pub counter: u64,
    pub running_state: RunningState,
}

/// Applies one menu action to the model: starting moves to the game screen,
/// quitting moves to shutdown. No follow-up action is ever produced.
pub fn update(model: &mut Model, msg: MenuAction) -> (r: Option<MenuAction>)
    ensures
        r is None,
        final(model).counter == old(model).counter,
        final(model).running_state == (match msg {
            MenuAction::StartGame => RunningState::Game,
            MenuAction::Quit => RunningState::Done,
        }),
{
    match msg {
        MenuAction::StartGame => {
            model.running_state = RunningState::Game;
        },
        MenuAction::Quit => {
            model.running_state = RunningState::Done;
        },
    }
    None
}

} // verus!
