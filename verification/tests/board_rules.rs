use minesweeper::board::{Board, BombTriggered};
use minesweeper::minefield::{blank_minefield, number_minefield, place_bomb};
use minesweeper::tile::{TileState, TileValue};
use minesweeper::{GameError, GameState};

fn board_with(rows: u32, cols: u32, bombs: &[(usize, usize)]) -> Board {
    let mut field = blank_minefield(rows, cols);
    for &(i, j) in bombs {
        assert!(place_bomb(&mut field, i, j));
    }
    number_minefield(&mut field);
    Board::from_parts(field, rows, cols, bombs.len() as u32).unwrap()
}

fn states(board: &Board) -> Vec<Vec<TileState>> {
    board.iter_field().map(|row| row.iter().map(|tile| tile.state()).collect()).collect()
}

fn values(board: &Board) -> Vec<Vec<TileValue>> {
    board.iter_field().map(|row| row.iter().map(|tile| tile.value()).collect()).collect()
}

const H: TileState = TileState::Hidden;
const R: TileState = TileState::Revealed;
const F: TileState = TileState::Flagged;

#[test]
fn adjacency_of_two_corner_bombs() {
    let board = board_with(3, 3, &[(0, 0), (2, 2)]);
    let v = values(&board);
    assert_eq!(v[1][1], TileValue::Adjacent(2));
    assert_eq!(v[0][1], TileValue::Adjacent(1));
    assert_eq!(v[1][2], TileValue::Adjacent(1));
    assert_eq!(v[0][0], TileValue::Bomb);
    assert_eq!(v[2][2], TileValue::Bomb);
    assert_eq!(v[0][2], TileValue::Adjacent(0));
    assert_eq!(v[2][0], TileValue::Adjacent(0));
    assert_eq!(v[1][0], TileValue::Adjacent(1));
    assert_eq!(v[2][1], TileValue::Adjacent(1));
}

#[test]
fn adjacency_counts_all_eight_neighbours() {
    let bombs = [(0, 0), (0, 1), (0, 2), (1, 0), (1, 2), (2, 0), (2, 1), (2, 2)];
    let board = board_with(3, 3, &bombs);
    assert_eq!(values(&board)[1][1], TileValue::Adjacent(8));
}

#[test]
fn flag_cycles_between_hidden_and_flagged() {
    let mut board = board_with(2, 2, &[(0, 0)]);
    board.resolve_flag(1, 1);
    assert_eq!(states(&board)[1][1], F);
    board.resolve_flag(1, 1);
    assert_eq!(states(&board)[1][1], H);
}

#[test]
fn flag_leaves_a_revealed_tile_alone() {
    let mut board = board_with(2, 2, &[(0, 0)]);
    let mut state = GameState::InGame;
    board.resolve_click(&mut state, 1, 1);
    assert_eq!(states(&board)[1][1], R);
    board.resolve_flag(1, 1);
    assert_eq!(states(&board)[1][1], R);
    board.resolve_flag(1, 1);
    assert_eq!(states(&board)[1][1], R);
}

#[test]
fn click_on_a_number_reveals_that_tile_only() {
    let mut board = board_with(3, 3, &[(0, 0)]);
    let mut state = GameState::InGame;
    board.resolve_click(&mut state, 1, 1);
    assert_eq!(state, GameState::InGame);
    assert_eq!(states(&board), vec![vec![H, H, H], vec![H, R, H], vec![H, H, H]]);
}

#[test]
fn click_on_a_zero_opens_its_region_and_the_border() {
    let mut board = board_with(4, 4, &[(0, 0)]);
    let mut state = GameState::InGame;
    board.resolve_click(&mut state, 3, 3);
    assert_eq!(state, GameState::InGame);
    assert_eq!(
        states(&board),
        vec![vec![H, R, R, R], vec![R, R, R, R], vec![R, R, R, R], vec![R, R, R, R]]
    );
    assert_eq!(board.check_game_state(), GameState::Won);
}

#[test]
fn cascade_stops_at_the_numbers() {
    // A wall of bombs in column 2 parts the field.
    let mut board = board_with(3, 5, &[(0, 2), (1, 2), (2, 2)]);
    let mut state = GameState::InGame;
    board.resolve_click(&mut state, 1, 0);
    assert_eq!(state, GameState::InGame);
    assert_eq!(
        states(&board),
        vec![vec![R, R, H, H, H], vec![R, R, H, H, H], vec![R, R, H, H, H]]
    );
    assert_eq!(board.check_game_state(), GameState::InGame);
}

#[test]
fn cascade_does_not_cross_a_flag() {
    let mut board = board_with(1, 5, &[]);
    board.resolve_flag(0, 2);
    let mut state = GameState::InGame;
    board.resolve_click(&mut state, 0, 0);
    // (0, 1) has a flag beside it, so it is shown and passes nothing on.
    assert_eq!(states(&board), vec![vec![R, R, F, H, H]]);
    assert_eq!(state, GameState::InGame);
}

#[test]
fn zero_with_a_flag_beside_it_does_not_cascade() {
    let mut board = board_with(1, 3, &[]);
    board.resolve_flag(0, 1);
    let mut state = GameState::InGame;
    board.resolve_click(&mut state, 0, 0);
    assert_eq!(states(&board), vec![vec![R, F, H]]);
}

#[test]
fn click_on_a_flag_does_nothing() {
    let mut board = board_with(2, 2, &[(0, 0)]);
    board.resolve_flag(0, 0);
    let mut state = GameState::InGame;
    board.resolve_click(&mut state, 0, 0);
    assert_eq!(state, GameState::InGame);
    assert_eq!(states(&board), vec![vec![F, H], vec![H, H]]);
}

#[test]
fn chord_with_matching_flags_opens_the_neighbours() {
    let mut board = board_with(3, 3, &[(0, 0)]);
    let mut state = GameState::InGame;
    board.resolve_click(&mut state, 1, 1);
    board.resolve_flag(0, 0);
    board.resolve_click(&mut state, 1, 1);
    assert_eq!(state, GameState::InGame);
    assert_eq!(states(&board), vec![vec![F, R, R], vec![R, R, R], vec![R, R, R]]);
    assert_eq!(board.check_game_state(), GameState::Won);
}

#[test]
fn chord_with_one_flag_too_few_does_nothing() {
    let mut board = board_with(3, 3, &[(0, 0), (0, 2)]);
    let mut state = GameState::InGame;
    board.resolve_click(&mut state, 1, 1);
    board.resolve_flag(0, 0);
    let before = states(&board);
    board.resolve_click(&mut state, 1, 1);
    assert_eq!(state, GameState::InGame);
    assert_eq!(states(&board), before);
    assert_eq!(before, vec![vec![F, H, H], vec![H, R, H], vec![H, H, H]]);
}

#[test]
fn chord_with_one_flag_too_many_does_nothing() {
    let mut board = board_with(3, 3, &[(0, 0)]);
    let mut state = GameState::InGame;
    board.resolve_click(&mut state, 1, 1);
    board.resolve_flag(0, 0);
    board.resolve_flag(2, 2);
    let before = states(&board);
    board.resolve_click(&mut state, 1, 1);
    assert_eq!(state, GameState::InGame);
    assert_eq!(states(&board), before);
}

#[test]
fn chord_with_a_misplaced_flag_hits_the_bomb() {
    let mut board = board_with(3, 3, &[(2, 2)]);
    let mut state = GameState::InGame;
    board.resolve_click(&mut state, 1, 1);
    board.resolve_flag(0, 0);
    board.resolve_click(&mut state, 1, 1);
    assert_eq!(state, GameState::GameOver);
    // The bomb was the first neighbour dealt with: nothing else was shown.
    assert_eq!(states(&board), vec![vec![F, H, H], vec![H, R, H], vec![H, H, H]]);
}

#[test]
fn tiles_shown_before_the_bomb_stay_shown() {
    let mut board = board_with(3, 3, &[(0, 0)]);
    let mut state = GameState::InGame;
    board.resolve_click(&mut state, 1, 1);
    board.resolve_flag(0, 1);
    board.resolve_click(&mut state, 1, 1);
    assert_eq!(state, GameState::GameOver);
    assert_eq!(states(&board), vec![vec![H, F, R], vec![R, R, R], vec![R, R, R]]);
}

#[test]
fn click_on_a_bomb_ends_the_game_and_leaves_the_tile_hidden() {
    let mut board = board_with(2, 2, &[(0, 0)]);
    let mut state = GameState::InGame;
    board.resolve_click(&mut state, 0, 0);
    assert_eq!(state, GameState::GameOver);
    assert_eq!(states(&board), vec![vec![H, H], vec![H, H]]);
}

#[test]
fn reveal_at_reports_the_bomb() {
    let mut board = board_with(2, 2, &[(0, 0)]);
    assert_eq!(board.reveal_at(0, 0, false), Err(BombTriggered));
    assert_eq!(board.reveal_at(0, 0, true), Err(BombTriggered));
    assert_eq!(states(&board), vec![vec![H, H], vec![H, H]]);
    assert_eq!(board.reveal_at(1, 1, false), Ok(()));
    assert_eq!(states(&board), vec![vec![H, H], vec![H, R]]);
    assert_eq!(BombTriggered.message(), "Bomb was triggered while revealing");
}

#[test]
fn reveal_at_as_a_chain_spreads_from_a_hidden_number() {
    let mut board = board_with(3, 3, &[(0, 0)]);
    board.resolve_flag(0, 0);
    assert_eq!(board.reveal_at(1, 1, true), Ok(()));
    assert_eq!(states(&board), vec![vec![F, R, R], vec![R, R, R], vec![R, R, R]]);
}

#[test]
fn game_is_won_once_all_safe_tiles_are_revealed() {
    let mut board = board_with(2, 2, &[(0, 0)]);
    assert_eq!(board.check_game_state(), GameState::InGame);
    let mut state = GameState::InGame;
    board.resolve_click(&mut state, 0, 1);
    board.resolve_click(&mut state, 1, 0);
    assert_eq!(board.check_game_state(), GameState::InGame);
    board.resolve_click(&mut state, 1, 1);
    assert_eq!(board.check_game_state(), GameState::Won);
    assert_eq!(state, GameState::InGame);
}

#[test]
fn flags_on_bombs_do_not_matter_for_winning() {
    let mut board = board_with(1, 2, &[(0, 0)]);
    let mut state = GameState::InGame;
    board.resolve_click(&mut state, 0, 1);
    assert_eq!(board.check_game_state(), GameState::Won);
    board.resolve_flag(0, 0);
    assert_eq!(board.check_game_state(), GameState::Won);
}

#[test]
fn a_flag_on_a_safe_tile_keeps_the_game_running() {
    let mut board = board_with(1, 3, &[(0, 0)]);
    let mut state = GameState::InGame;
    board.resolve_click(&mut state, 0, 1);
    board.resolve_flag(0, 2);
    assert_eq!(board.check_game_state(), GameState::InGame);
}

#[test]
fn a_board_of_bombs_only_is_won() {
    let board = board_with(1, 1, &[(0, 0)]);
    assert_eq!(board.check_game_state(), GameState::Won);
}

#[test]
fn parts_round_trip() {
    let mut board = board_with(3, 4, &[(0, 0), (2, 3)]);
    let mut state = GameState::InGame;
    board.resolve_click(&mut state, 1, 1);
    board.resolve_flag(0, 0);
    let (s, v) = (states(&board), values(&board));
    let places: Vec<Vec<(i32, i32)>> =
        board.iter_field().map(|row| row.iter().map(|t| (t.x(), t.y())).collect()).collect();
    let (field, rows, cols, bombs) = board.into_parts();
    assert_eq!((rows, cols, bombs), (3, 4, 2));
    let again = Board::from_parts(field, rows, cols, bombs).unwrap();
    assert_eq!(states(&again), s);
    assert_eq!(values(&again), v);
    assert_eq!(again.tile_rows, 3);
    assert_eq!(again.tile_columns, 4);
    assert_eq!(again.bomb_count(), 2);
    let places_again: Vec<Vec<(i32, i32)>> =
        again.iter_field().map(|row| row.iter().map(|t| (t.x(), t.y())).collect()).collect();
    assert_eq!(places_again, places);
    assert_eq!(places[2][3], (60, 40));
}

#[test]
fn parts_of_the_wrong_shape_are_refused() {
    let field = blank_minefield(2, 3);
    assert_eq!(Board::from_parts(field, 3, 3, 0).err(), Some(GameError::ProtocolDecode));
    let field = blank_minefield(2, 3);
    assert_eq!(Board::from_parts(field, 2, 2, 0).err(), Some(GameError::ProtocolDecode));
    let mut field = blank_minefield(2, 3);
    field[1].pop();
    assert_eq!(Board::from_parts(field, 2, 3, 0).err(), Some(GameError::ProtocolDecode));
    let field = blank_minefield(2, 3);
    assert!(Board::from_parts(field, 2, 3, 7).is_ok());
}

#[test]
fn holds_tells_tiles_from_places_beyond_the_edge() {
    let board = board_with(2, 3, &[]);
    assert!(board.holds(1, 2));
    assert!(!board.holds(2, 0));
    assert!(!board.holds(0, 3));
}

#[test]
fn well_formed_holds_the_dimensions_against_the_tiles() {
    let mut board = board_with(2, 3, &[(0, 0)]);
    assert!(board.well_formed());
    board.tile_rows = 3;
    assert!(!board.well_formed());
    board.tile_rows = 2;
    board.tile_columns = 2;
    assert!(!board.well_formed());
    board.tile_columns = 3;
    assert!(board.well_formed());
}
