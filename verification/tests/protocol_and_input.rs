use minesweeper::board::Board;
use minesweeper::input::{clean_input, input_in_range, input_to_number};
use minesweeper::minefield::{blank_minefield, number_minefield, place_bomb};
use minesweeper::protocol::{
    apply_action, check_setup, decode_setup, encode_setup, open_board, Action,
};
use minesweeper::tile::TileState;
use minesweeper::{GameError, GameState};

fn board_with(rows: u32, cols: u32, bombs: &[(usize, usize)]) -> Board {
    let mut field = blank_minefield(rows, cols);
    for &(i, j) in bombs {
        assert!(place_bomb(&mut field, i, j));
    }
    number_minefield(&mut field);
    Board::from_parts(field, rows, cols, bombs.len() as u32).unwrap()
}

fn states(board: &Board) -> Vec<Vec<TileState>> {
    board.iter_field().map(|row| row.iter().map(|tile| tile.state()).collect()).collect()
}

const H: TileState = TileState::Hidden;
const R: TileState = TileState::Revealed;
const F: TileState = TileState::Flagged;

#[test]
fn clean_input_keeps_digits_only() {
    assert_eq!(clean_input("Width: 30"), "30");
    assert_eq!(clean_input("a1b2c3"), "123");
    assert_eq!(clean_input(""), "");
    assert_eq!(clean_input("no digits"), "");
    assert_eq!(clean_input("007"), "007");
    assert_eq!(clean_input("١٢٣ 4/:"), "4");
}

#[test]
fn input_to_number_reads_the_digits() {
    assert_eq!(input_to_number("Width: 30"), 30);
    assert_eq!(input_to_number("Height: 16"), 16);
    assert_eq!(input_to_number("Bombs: 99"), 99);
    assert_eq!(input_to_number(""), 0);
    assert_eq!(input_to_number("abc"), 0);
    assert_eq!(input_to_number("1a2b3"), 123);
    assert_eq!(input_to_number("0042"), 42);
    assert_eq!(input_to_number("4294967295"), u32::MAX);
}

#[test]
fn input_in_range_tells_what_fits() {
    assert!(input_in_range("4294967295"));
    assert!(!input_in_range("4294967296"));
    assert!(!input_in_range("99999999999"));
    assert!(input_in_range("00000000000001"));
    assert!(input_in_range("Bombs: 99"));
    assert!(input_in_range(""));
}

#[test]
fn setup_is_decoded_from_json() {
    assert_eq!(decode_setup("[20,9,9,10]"), Ok((20, 9, 9, 10)));
    assert_eq!(decode_setup(" [ 20 , 16 , 30 , 99 ] "), Ok((20, 16, 30, 99)));
}

#[test]
fn malformed_setup_is_refused() {
    for text in ["", "[20,9,9", "[20,9,9]", "[20,9,9,10,1]", "[20,9,9,-1]", "[20,9,9,4294967296]", "{}", "20 9 9 10", "[20,9,9,\"10\"]"] {
        assert_eq!(decode_setup(text), Err(GameError::ProtocolDecode));
    }
}

#[test]
fn setup_is_encoded_as_json() {
    assert_eq!(encode_setup((20, 9, 9, 10)), Some("[20,9,9,10]".to_string()));
    let text = encode_setup((20, 16, 30, 99)).unwrap();
    assert_eq!(decode_setup(&text), Ok((20, 16, 30, 99)));
}

#[test]
fn setup_is_checked_before_a_board_is_built() {
    assert!(check_setup((20, 9, 9, 81)));
    assert!(!check_setup((20, 9, 9, 82)));
    assert!(check_setup((20, 0, 0, 0)));
    assert!(!check_setup((20, 0, 5, 1)));
    assert!(check_setup((20, 107_374_182, 0, 0)));
    assert!(!check_setup((20, 107_374_183, 0, 0)));
    assert!(!check_setup((20, 1, 107_374_183, 0)));
    assert!(!check_setup((20, u32::MAX, u32::MAX, 0)));
}

#[test]
fn open_board_builds_or_fails_at_once() {
    let board = open_board((20, 9, 9, 10)).unwrap();
    assert_eq!((board.tile_rows, board.tile_columns, board.bomb_count()), (9, 9, 10));
    let bombs: usize =
        board.iter_field().map(|row| row.iter().filter(|t| t.is_bomb()).count()).sum();
    assert_eq!(bombs, 10);
    assert_eq!(open_board((20, 3, 3, 10)).err(), Some(GameError::InvalidPrecondition));
    assert_eq!(open_board((20, u32::MAX, 2, 1)).err(), Some(GameError::InvalidPrecondition));
    // The tile size that the peer names is not used.
    let board = open_board((7, 2, 2, 0)).unwrap();
    assert_eq!(board.iter_field().nth(1).unwrap()[1].x(), 20);
}

#[test]
fn reveal_action_is_applied() {
    let mut board = board_with(3, 3, &[(0, 0)]);
    let mut state = GameState::InGame;
    assert!(apply_action(&mut board, &mut state, Action::Reveal(1, 1)));
    assert_eq!(state, GameState::InGame);
    assert_eq!(states(&board), vec![vec![H, H, H], vec![H, R, H], vec![H, H, H]]);
    assert!(apply_action(&mut board, &mut state, Action::Reveal(2, 2)));
    assert_eq!(state, GameState::Won);
    assert_eq!(states(&board), vec![vec![H, R, R], vec![R, R, R], vec![R, R, R]]);
}

#[test]
fn reveal_action_on_a_bomb_ends_the_game() {
    let mut board = board_with(2, 2, &[(1, 1)]);
    let mut state = GameState::InGame;
    assert!(apply_action(&mut board, &mut state, Action::Reveal(1, 1)));
    assert_eq!(state, GameState::GameOver);
    assert_eq!(states(&board), vec![vec![H, H], vec![H, H]]);
    // The game is over: nothing more is taken.
    assert!(!apply_action(&mut board, &mut state, Action::Reveal(0, 0)));
    assert!(!apply_action(&mut board, &mut state, Action::ToggleFlag(0, 0)));
    assert!(!apply_action(&mut board, &mut state, Action::Won));
    assert_eq!(state, GameState::GameOver);
    assert_eq!(states(&board), vec![vec![H, H], vec![H, H]]);
}

#[test]
fn flag_action_is_applied() {
    let mut board = board_with(2, 2, &[(1, 1)]);
    let mut state = GameState::InGame;
    assert!(apply_action(&mut board, &mut state, Action::ToggleFlag(1, 1)));
    assert_eq!(states(&board), vec![vec![H, H], vec![H, F]]);
    assert_eq!(state, GameState::InGame);
    assert!(apply_action(&mut board, &mut state, Action::Reveal(1, 1)));
    assert_eq!(states(&board), vec![vec![H, H], vec![H, F]]);
    assert_eq!(state, GameState::InGame);
    assert!(apply_action(&mut board, &mut state, Action::ToggleFlag(1, 1)));
    assert_eq!(states(&board), vec![vec![H, H], vec![H, H]]);
}

#[test]
fn actions_beyond_the_edge_are_refused() {
    let mut board = board_with(2, 3, &[(1, 1)]);
    let mut state = GameState::InGame;
    for action in [
        Action::Reveal(2, 0),
        Action::Reveal(0, 3),
        Action::ToggleFlag(2, 2),
        Action::ToggleFlag(u32::MAX, u32::MAX),
        Action::Reveal(u32::MAX, 0),
    ] {
        assert!(!apply_action(&mut board, &mut state, action));
        assert_eq!(state, GameState::InGame);
        assert_eq!(states(&board), vec![vec![H, H, H], vec![H, H, H]]);
    }
}

#[test]
fn actions_outside_a_running_game_are_refused() {
    for start in [GameState::Menu, GameState::Won, GameState::GameOver] {
        let mut board = board_with(2, 2, &[(1, 1)]);
        let mut state = start;
        assert!(!apply_action(&mut board, &mut state, Action::Reveal(0, 0)));
        assert!(!apply_action(&mut board, &mut state, Action::ToggleFlag(0, 0)));
        assert_eq!(state, start);
        assert_eq!(states(&board), vec![vec![H, H], vec![H, H]]);
    }
}

#[test]
fn win_claim_is_held_against_the_board() {
    let mut board = board_with(1, 2, &[(0, 0)]);
    let mut state = GameState::InGame;
    assert!(!apply_action(&mut board, &mut state, Action::Won));
    assert_eq!(state, GameState::InGame);
    let mut none = GameState::InGame;
    board.resolve_click(&mut none, 0, 1);
    assert!(apply_action(&mut board, &mut state, Action::Won));
    assert_eq!(state, GameState::Won);
    assert!(apply_action(&mut board, &mut state, Action::Won));
    assert_eq!(state, GameState::Won);
    let mut menu = GameState::Menu;
    assert!(!apply_action(&mut board, &mut menu, Action::Won));
    assert_eq!(menu, GameState::Menu);
}

#[test]
fn quit_ends_the_session() {
    for start in [GameState::Menu, GameState::InGame, GameState::Won, GameState::GameOver] {
        let mut board = board_with(2, 2, &[(1, 1)]);
        let mut state = start;
        assert!(apply_action(&mut board, &mut state, Action::Quit));
        assert_eq!(state, GameState::Menu);
        assert_eq!(states(&board), vec![vec![H, H], vec![H, H]]);
    }
}
