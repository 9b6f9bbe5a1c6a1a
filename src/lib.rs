//! Board logic of a sliding-tile merge puzzle on a 4 x 4 grid: shifts that
//! slide and merge tiles, spawning, scoring and the end of a game.

pub mod model;
pub mod proofs;
pub mod laws;
pub mod game_state;

pub use game_state::GameState;
pub use model::{Direction, Tile};
