use vstd::prelude::*;

verus! {

/// What a key press asks the game to do.
#[derive(Debug, Clone, Copy, PartialEq, Eq, Structural)]
pub enum Action {
    /// Step the player by `(dx, dy)`.
    Move { dx: i32, dy: i32 },
    /// Leave the game.
    Quit,
    /// No effect.
    Nothing,
}

/// The keys the game tells apart; every other key is `Other`.
#[derive(Debug, Clone, Copy, PartialEq, Eq, Structural)]
pub enum Key {
    Up,
    Down,
    Left,
    Right,
    Esc,
    Char(char),
    Other,
}

/// Arrow keys and the vi keys `h`, `j`, `k`, `l` move one cell (up is
/// toward row 0); `q` and Escape quit; any other key does nothing.
pub open spec fn action_for(key: Key) -> Action {
    match key {
        Key::Up | Key::Char('k') => Action::Move { dx: 0, dy: -1i32 },
        Key::Down | Key::Char('j') => Action::Move { dx: 0, dy: 1 },
        Key::Left | Key::Char('h') => Action::Move { dx: -1i32, dy: 0 },
        Key::Right | Key::Char('l') => Action::Move { dx: 1, dy: 0 },
        Key::Esc | Key::Char('q') => Action::Quit,
        _ => Action::Nothing,
    }
}

/// The action a key press asks for.
pub fn handle_key(key: Key) -> (a: Action)
    ensures
        a == action_for(key),
{
    match key {
        Key::Up => Action::Move { dx: 0, dy: -1 },
        Key::Down => Action::Move { dx: 0, dy: 1 },
        Key::Left => Action::Move { dx: -1, dy: 0 },
        Key::Right => Action::Move { dx: 1, dy: 0 },
        Key::Char('h') => Action::Move { dx: -1, dy: 0 },
        Key::Char('j') => Action::Move { dx: 0, dy: 1 },
        Key::Char('k') => Action::Move { dx: 0, dy: -1 },
        Key::Char('l') => Action::Move { dx: 1, dy: 0 },
        Key::Char('q') => Action::Quit,
        Key::Esc => Action::Quit,
        _ => Action::Nothing,
    }
}

} // verus!
