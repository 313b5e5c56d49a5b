use vstd::prelude::*;

verus! {

/// The screen the game is on.
#[derive(Debug, Clone, Copy, PartialEq, Eq, Structural, Default)]
pub enum GameState {
    MainMenu,
    #[default]
    Playing,
    ShowInventory,
    SelectSpell,
    GameOver,
}

} // verus!
