use vstd::prelude::*;

pub mod config;
pub mod state;

use crate::entity::player::Player;
use crate::world::dungeon::{standard_params, walkable, Dungeon};
use crate::world::tile::TileType;
use config::MAX_DEPTH;
use state::GameState;

verus! {

/// A running game: the current level and the player in it.
pub struct Game {
    pub state: GameState,
    pub dungeon: Dungeon,
    pub player: Player,
    pub running: bool,
}

impl Game {
    /// Starts a game on a freshly generated first level, with the player at
    /// its start.
    pub fn new() -> (g: Self)
        ensures
            g.state == GameState::Playing,
            g.dungeon.is_generated(1, standard_params()),
            g.player.position == g.dungeon.player_start,
            g.running,
    {
        let dungeon = Dungeon::new_random(1);
        let player = Player::new(dungeon.player_start);
        Game { state: GameState::Playing, dungeon, player, running: true }
    }

    /// Moves the player by `(dx, dy)` when the cell there can be walked on;
    /// otherwise nothing changes.
    pub fn try_move_player(&mut self, dx: i32, dy: i32)
        requires
            i32::MIN <= old(self).player.position.x + dx <= i32::MAX,
            i32::MIN <= old(self).player.position.y + dy <= i32::MAX,
        ensures
            ({
                let x = old(self).player.position.x + dx;
                let y = old(self).player.position.y + dy;
                if walkable(old(self).dungeon.tiles@, x, y) {
                    final(self).player.position.x == x && final(self).player.position.y == y
                } else {
                    final(self).player.position == old(self).player.position
                }
            }),
            final(self).dungeon == old(self).dungeon,
            final(self).state == old(self).state,
            final(self).running == old(self).running,
    {
        let new_pos = self.player.position.translate(dx, dy);
        if self.dungeon.is_walkable(new_pos) {
            self.player.position = new_pos;
        }
    }

    /// Ends the game loop.
    pub fn quit(&mut self)
        ensures
            !final(self).running,
            final(self).state == old(self).state,
            final(self).dungeon == old(self).dungeon,
            final(self).player.position == old(self).player.position,
    {
        self.running = false;
    }

    /// When the player stands on the stairs and the level is above the
    /// deepest one, moves to a freshly generated level one deeper, with the
    /// player at its start; otherwise nothing changes.
    pub fn try_descend(&mut self)
        ensures
            ({
                let p = old(self).player.position;
                if old(self).dungeon.tile_at(p.x as int, p.y as int) == Some(TileType::StairsDown)
                    && old(self).dungeon.depth < MAX_DEPTH {
                    &&& final(self).dungeon.is_generated(
                        (old(self).dungeon.depth + 1) as u32,
                        standard_params(),
                    )
                    &&& final(self).player.position == final(self).dungeon.player_start
                } else {
                    &&& final(self).dungeon == old(self).dungeon
                    &&& final(self).player.position == old(self).player.position
                }
            }),
            final(self).state == old(self).state,
            final(self).running == old(self).running,
    {
        let on_stairs = match self.dungeon.get_tile(self.player.position) {
            Some(TileType::StairsDown) => true,
            _ => false,
        };
        if on_stairs && self.dungeon.depth < MAX_DEPTH {
            let new_depth = self.dungeon.depth + 1;
            self.dungeon = Dungeon::new_random(new_depth);
            self.player.position = self.dungeon.player_start;
        }
    }
}

impl Default for Game {
    fn default() -> (g: Self)
        ensures
            g.state == GameState::Playing,
            g.dungeon.is_generated(1, standard_params()),
            g.player.position == g.dungeon.player_start,
            g.running,
    {
        Self::new()
    }
}

} // verus!
