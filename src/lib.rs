//! A minesweeper board engine: board generation, flood-fill reveal, flags
//! and the win rule, with the particle effects each move asks for.

pub mod board;
pub mod game;
pub mod generate;
pub mod grid;
pub mod laws;

pub use board::{MAX_SIDE, UNREVEALED};
pub use game::{Game, GameState};
pub use grid::{Effect, FlagOutcome, Grid, RevealOutcome};
