//! One cell of the minefield: what the player sees of it and what lies under it.

use vstd::prelude::*;

verus! {

/// What the player sees of a tile.
#[derive(Clone, Copy, Debug, PartialEq, Eq, Structural)]
pub enum TileState {
    Hidden,
    Revealed,
    Flagged,
}

impl TileState {
    /// The state after a flag is toggled: a hidden tile gets one, a flagged tile
    /// loses it, a revealed tile stays as it is.
    pub open spec fn toggled(self) -> TileState {
        match self {
            TileState::Hidden => TileState::Flagged,
            TileState::Revealed => TileState::Revealed,
            TileState::Flagged => TileState::Hidden,
        }
    }
}

/// What lies under a tile: a bomb, or the number of bombs among its neighbours.
#[derive(Clone, Copy, Debug, PartialEq, Eq, Structural)]
pub enum TileValue {
    Bomb,
    Adjacent(u32),
}

/// A tile as contracts speak of it.
pub ghost struct TileView {
    pub state: TileState,
    pub x: i32,
    pub y: i32,
    pub value: TileValue,
}

/// A tile of the board. Its position never changes; its value is fixed once the
/// minefield is built; its state follows the player's actions.
#[derive(Debug)]
pub struct Tile {
    state: TileState,
    x: i32,
    y: i32,
    value: TileValue,
}

impl View for Tile {
    type V = TileView;

    closed spec fn view(&self) -> TileView {
        TileView { state: self.state, x: self.x, y: self.y, value: self.value }
    }
}

impl Tile {
    /// A hidden tile at `(x, y)` with no bomb under it and none counted around it.
    pub fn new_blank(x: i32, y: i32) -> (tile: Self)
        ensures
            tile@ == (TileView { state: TileState::Hidden, x, y, value: TileValue::Adjacent(0) }),
    {
        Tile { state: TileState::Hidden, x: x, y: y, value: TileValue::Adjacent(0) }
    }

    /// Puts a bomb under the tile.
    pub fn set_bomb(&mut self)
        ensures
            final(self)@ == (TileView { value: TileValue::Bomb, ..old(self)@ }),
    {
        self.value = TileValue::Bomb;
    }

    /// Whether a bomb lies under the tile.
    pub fn is_bomb(&self) -> (bomb: bool)
        ensures
            bomb == (self@.value is Bomb),
    {
        match self.value {
            TileValue::Bomb => true,
            TileValue::Adjacent(_) => false,
        }
    }

    /// What lies under the tile.
    pub fn value(&self) -> (value: TileValue)
        ensures
            value == self@.value,
    {
        self.value
    }

    /// Puts `val` under the tile.
    pub fn set_value(&mut self, val: TileValue)
        ensures
            final(self)@ == (TileView { value: val, ..old(self)@ }),
    {
        self.value = val;
    }

    /// What the player sees of the tile.
    pub fn state(&self) -> (state: TileState)
        ensures
            state == self@.state,
    {
        self.state
    }

    /// Puts the tile in state `state`.
    pub fn set_state(&mut self, state: TileState)
        ensures
            final(self)@ == (TileView { state: state, ..old(self)@ }),
    {
        self.state = state;
    }

    /// Horizontal position in pixels.
    pub fn x(&self) -> (x: i32)
        ensures
            x == self@.x,
    {
        self.x
    }

    /// Vertical position in pixels.
    pub fn y(&self) -> (y: i32)
        ensures
            y == self@.y,
    {
        self.y
    }
}

} // verus!
