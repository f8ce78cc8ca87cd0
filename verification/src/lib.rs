//! Rules engine of a Minesweeper game: minefield generation, the tile state
//! machine with its flood-fill reveal, win and loss detection, and the
//! messages that a controlling peer exchanges with the peer that owns the board.

use vstd::prelude::*;

pub mod board;
pub mod grid;
pub mod input;
pub mod laws;
pub mod minefield;
pub mod protocol;
pub mod random;
pub mod region;
pub mod sweep;
pub mod tile;

verus! {

/// Edge of one tile in pixels; a tile's position is its column and row times this.
pub const TILE_SIZE: u32 = 20;

/// Where a session stands. Only `InGame` accepts reveal and flag actions;
/// `Won` and `GameOver` end the session.
#[derive(Clone, Copy, Debug, PartialEq, Eq, Structural)]
pub enum GameState {
    Menu,
    InGame,
    Won,
    GameOver,
}

/// Why the library refuses what it was given.
#[derive(Clone, Copy, Debug, PartialEq, Eq, Structural)]
pub enum GameError {
    /// A board was asked for that cannot be built: with more bombs than tiles,
    /// or with so many rows or columns that tile positions leave 32 bits.
    InvalidPrecondition,
    /// A message could not be decoded, or what it holds has the wrong shape.
    ProtocolDecode,
}

} // verus!
