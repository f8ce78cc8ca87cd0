//! What two peers say to each other: the parameters of a board, and the moves
//! that the controlling peer asks of the peer that owns the board.

use vstd::prelude::*;
use crate::board::Board;
use crate::grid::{all_hidden, cleared, flag_toggled, in_grid, Grid};
use crate::minefield::on_lattice;
use crate::region::{click_detonates, clicked};
use crate::sweep::click_result;
use crate::{GameError, GameState, TILE_SIZE};

verus! {

/// One move, as it goes over the wire.
#[derive(Clone, Copy, Debug, PartialEq, Eq, Structural)]
pub enum Action {
    /// Click the tile in this row and column.
    Reveal(u32, u32),
    /// Toggle the flag on the tile in this row and column.
    ToggleFlag(u32, u32),
    /// The controlling peer holds the game to be won.
    Won,
    /// The session ends.
    Quit,
}

/// The parameters of a board as `(tile size, rows, columns, bombs)`.
pub type Setup = (u32, u32, u32, u32);

/// `serde_json::Error`, what the JSON reader and writer fail with. Nothing is
/// known of what it holds.
#[verifier::external_type_specification]
#[verifier::external_body]
pub struct ExJsonError(serde_json::Error);

/// What `serde_json::from_str` makes of `text` when asked for four unsigned
/// 32-bit numbers: the numbers, or nothing where the text does not hold them.
pub uninterp spec fn setup_in_text(text: Seq<char>) -> Option<(u32, u32, u32, u32)>;

/// The JSON text that `serde_json::to_string` writes for four unsigned 32-bit
/// numbers, or nothing where it fails.
pub uninterp spec fn text_of_setup(setup: (u32, u32, u32, u32)) -> Option<Seq<char>>;

/// `serde_json::from_str`, asked for four unsigned 32-bit numbers. The outcome
/// depends on the text alone and goes by the name `setup_in_text`.
#[verifier::external_body]
fn setup_from_json(text: &str) -> (parsed: Result<Setup, serde_json::Error>)
    ensures
        parsed is Ok <==> setup_in_text(text@) is Some,
        parsed matches Ok(setup) ==> setup_in_text(text@) == Some(setup),
{
    serde_json::from_str(text)
}

/// `serde_json::to_string` on four unsigned 32-bit numbers. The outcome depends
/// on the numbers alone and goes by the name `text_of_setup`.
#[verifier::external_body]
fn setup_to_json(setup: &Setup) -> (written: Result<String, serde_json::Error>)
    ensures
        written is Ok <==> text_of_setup(*setup) is Some,
        written matches Ok(text) ==> text_of_setup(*setup) == Some(text@),
{
    serde_json::to_string(setup)
}

/// Reads the parameters of a board from the text of a message. Text that does
/// not hold them is refused.
pub fn decode_setup(text: &str) -> (decoded: Result<Setup, GameError>)
    ensures
        decoded == (match setup_in_text(text@) {
            Some(setup) => Ok::<Setup, GameError>(setup),
            None => Err(GameError::ProtocolDecode),
        }),
{
    match setup_from_json(text) {
        Ok(setup) => Ok(setup),
        Err(_) => Err(GameError::ProtocolDecode),
    }
}

/// Writes the parameters of a board as the text of a message; `None` where the
/// encoder fails.
pub fn encode_setup(setup: Setup) -> (encoded: Option<String>)
    ensures
        encoded is Some <==> text_of_setup(setup) is Some,
        encoded matches Some(text) ==> text_of_setup(setup) == Some(text@),
{
    match setup_to_json(&setup) {
        Ok(text) => Some(text),
        Err(_) => None,
    }
}

/// A board with these parameters can be built: it has no more bombs than
/// tiles, and the positions of its tiles fit in 32 bits.
pub open spec fn buildable(setup: Setup) -> bool {
    &&& setup.3 <= setup.1 * setup.2
    &&& setup.1 * TILE_SIZE <= i32::MAX
    &&& setup.2 * TILE_SIZE <= i32::MAX
}

/// Whether a board with these parameters can be built.
pub fn check_setup(setup: Setup) -> (ok: bool)
    ensures
        ok == buildable(setup),
{
    let limit: u64 = (i32::MAX as u32 / TILE_SIZE) as u64;
    let rows = setup.1 as u64;
    let columns = setup.2 as u64;
    if rows > limit || columns > limit {
        return false;
    }
    assert(limit == 107_374_182);
    assert(rows * columns <= 107_374_182 * 107_374_182) by (nonlinear_arith)
        requires
            0 <= rows <= 107_374_182,
            0 <= columns <= 107_374_182,
    ;
    setup.3 as u64 <= rows * columns
}

/// Builds the board that a peer asked for, with bombs placed at random. The
/// tile size that the peer sent is not used: tiles lie on this library's own
/// lattice. Parameters that no board can be built from are refused at once.
pub fn open_board(setup: Setup) -> (board: Result<Board, GameError>)
    ensures
        board is Ok <==> buildable(setup),
        board matches Ok(b) ==> {
            &&& b.consistent()
            &&& b.rows() == setup.1
            &&& b.columns() == setup.2
            &&& b.bombs() == setup.3
            &&& all_hidden(b@)
            &&& on_lattice(b@)
        },
        board matches Err(e) ==> e == GameError::InvalidPrecondition,
{
    if check_setup(setup) {
        Ok(Board::new(setup.1, setup.2, setup.3))
    } else {
        Err(GameError::InvalidPrecondition)
    }
}

/// Whether the peer that owns the board takes `action` in state `state`: a
/// click or a flag only in a running game and on a tile of the board; a claim
/// that the game is won only where every tile without a bomb is revealed and
/// the game is running or won already; an end of the session always.
pub open spec fn accepts(g: Grid, state: GameState, action: Action) -> bool {
    match action {
        Action::Reveal(row, col) => state is InGame && in_grid(g, row as int, col as int),
        Action::ToggleFlag(row, col) => state is InGame && in_grid(g, row as int, col as int),
        Action::Won => (state is InGame || state is Won) && cleared(g),
        Action::Quit => true,
    }
}

/// The state of a running game after a move that met no bomb.
pub open spec fn state_of(g: Grid) -> GameState {
    if cleared(g) {
        GameState::Won
    } else {
        GameState::InGame
    }
}

/// Applies one move of the controlling peer to the board and the state of the
/// session, and tells whether the move was taken. A move that is not taken
/// changes nothing.
///
/// A click reveals as `Board::resolve_click` does; a bomb ends the game, else
/// the game is won once every tile without a bomb is revealed. A flag is
/// toggled as `Board::resolve_flag` does. A claim that the game is won is taken
/// if the board bears it out. An end of the session leaves the board as it is
/// and the state at `Menu`.
pub fn apply_action(board: &mut Board, state: &mut GameState, action: Action) -> (accepted: bool)
    requires
        old(board).wf(),
    ensures
        final(board).wf(),
        final(board).rows() == old(board).rows(),
        final(board).columns() == old(board).columns(),
        final(board).bombs() == old(board).bombs(),
        old(board).consistent() ==> final(board).consistent(),
        accepted == accepts(old(board)@, *old(state), action),
        !accepted ==> final(board)@ == old(board)@ && *final(state) == *old(state),
        accepted ==> (match action {
            Action::Reveal(row, col) => {
                &&& final(board)@ == click_result(old(board)@, row as int, col as int)
                &&& clicked(old(board)@, final(board)@, row as int, col as int)
                &&& *final(state) == (if click_detonates(old(board)@, row as int, col as int) {
                    GameState::GameOver
                } else {
                    state_of(final(board)@)
                })
            },
            Action::ToggleFlag(row, col) => {
                &&& final(board)@ == flag_toggled(old(board)@, row as int, col as int)
                &&& *final(state) == state_of(final(board)@)
            },
            Action::Won => final(board)@ == old(board)@ && *final(state) == GameState::Won,
            Action::Quit => final(board)@ == old(board)@ && *final(state) == GameState::Menu,
        }),
{
    match action {
        Action::Reveal(row, col) => {
            if !in_game(*state) || !board.holds(row, col) {
                return false;
            }
            board.resolve_click(state, row as usize, col as usize);
            if in_game(*state) {
                *state = board.check_game_state();
            }
            true
        },
        Action::ToggleFlag(row, col) => {
            if !in_game(*state) || !board.holds(row, col) {
                return false;
            }
            board.resolve_flag(row as usize, col as usize);
            *state = board.check_game_state();
            true
        },
        Action::Won => {
            let running = match *state {
                GameState::InGame | GameState::Won => true,
                GameState::Menu | GameState::GameOver => false,
            };
            if !running {
                return false;
            }
            match board.check_game_state() {
                GameState::Won => {
                    *state = GameState::Won;
                    true
                },
                _ => false,
            }
        },
        Action::Quit => {
            *state = GameState::Menu;
            true
        },
    }
}

/// Whether a game is running.
fn in_game(state: GameState) -> (running: bool)
    ensures
        running == (state is InGame),
{
    match state {
        GameState::InGame => true,
        GameState::Menu | GameState::Won | GameState::GameOver => false,
    }
}

} // verus!
