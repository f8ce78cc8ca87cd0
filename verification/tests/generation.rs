use minesweeper::board::Board;
use minesweeper::minefield::{
    blank_minefield, build_minefield, number_minefield, place_bomb, place_bomb_at_free,
};
use minesweeper::tile::{Tile, TileState, TileValue};
use minesweeper::{GameState, TILE_SIZE};

fn count_bombs(field: &Vec<Vec<Tile>>) -> u32 {
    field.iter().map(|row| row.iter().filter(|t| t.is_bomb()).count() as u32).sum()
}

fn bombs_around(field: &Vec<Vec<Tile>>, i: usize, j: usize) -> u32 {
    let mut count = 0;
    for di in -1i64..=1 {
        for dj in -1i64..=1 {
            let (k, l) = (i as i64 + di, j as i64 + dj);
            if (di, dj) != (0, 0)
                && k >= 0
                && l >= 0
                && (k as usize) < field.len()
                && (l as usize) < field[k as usize].len()
                && field[k as usize][l as usize].is_bomb()
            {
                count += 1;
            }
        }
    }
    count
}

fn check_field(field: &Vec<Vec<Tile>>, rows: u32, cols: u32, bombs: u32) {
    assert_eq!(field.len(), rows as usize);
    assert_eq!(count_bombs(field), bombs);
    for (i, row) in field.iter().enumerate() {
        assert_eq!(row.len(), cols as usize);
        for (j, tile) in row.iter().enumerate() {
            assert_eq!(tile.state(), TileState::Hidden);
            assert_eq!(tile.x(), (j as u32 * TILE_SIZE) as i32);
            assert_eq!(tile.y(), (i as u32 * TILE_SIZE) as i32);
            if !tile.is_bomb() {
                assert_eq!(tile.value(), TileValue::Adjacent(bombs_around(field, i, j)));
            }
        }
    }
}

#[test]
fn generated_field_holds_the_bombs_asked_for() {
    for &(rows, cols, bombs) in &[(9u32, 9u32, 10u32), (16, 30, 99), (5, 5, 1), (1, 1, 1), (4, 7, 13)] {
        let field = build_minefield(rows, cols, bombs);
        check_field(&field, rows, cols, bombs);
    }
}

#[test]
fn generated_field_without_bombs_holds_none() {
    let field = build_minefield(6, 4, 0);
    check_field(&field, 6, 4, 0);
    for row in field.iter() {
        for tile in row.iter() {
            assert_eq!(tile.value(), TileValue::Adjacent(0));
        }
    }
}

#[test]
fn generated_field_can_be_all_bombs() {
    let field = build_minefield(8, 8, 64);
    check_field(&field, 8, 8, 64);
    let field = build_minefield(8, 8, 63);
    check_field(&field, 8, 8, 63);
}

#[test]
fn empty_fields_are_built() {
    assert_eq!(build_minefield(0, 0, 0).len(), 0);
    assert_eq!(build_minefield(0, 5, 0).len(), 0);
    let field = build_minefield(3, 0, 0);
    assert_eq!(field.len(), 3);
    assert!(field.iter().all(|row| row.is_empty()));
}

#[test]
fn generated_fields_differ() {
    // 30 draws of one bomb among 400 tiles all landing on one tile would be an
    // event of probability 400^-29.
    let place = |field: &Vec<Vec<Tile>>| -> (usize, usize) {
        for (i, row) in field.iter().enumerate() {
            for (j, tile) in row.iter().enumerate() {
                if tile.is_bomb() {
                    return (i, j);
                }
            }
        }
        unreachable!()
    };
    let first = place(&build_minefield(20, 20, 1));
    let mut differs = false;
    for _ in 0..29 {
        if place(&build_minefield(20, 20, 1)) != first {
            differs = true;
        }
    }
    assert!(differs);
}

#[test]
fn new_board_is_hidden_and_sized() {
    let board = Board::new(16, 30, 99);
    assert_eq!(board.tile_rows, 16);
    assert_eq!(board.tile_columns, 30);
    assert_eq!(board.bomb_count(), 99);
    assert_eq!(board.iter_field().count(), 16);
    let mut bombs = 0;
    for row in board.iter_field() {
        assert_eq!(row.len(), 30);
        for tile in row.iter() {
            assert_eq!(tile.state(), TileState::Hidden);
            if tile.is_bomb() {
                bombs += 1;
            }
        }
    }
    assert_eq!(bombs, 99);
    assert_eq!(board.check_game_state(), GameState::InGame);
}

#[test]
fn blank_field_lies_on_the_lattice() {
    let field = blank_minefield(2, 3);
    check_field(&field, 2, 3, 0);
    assert_eq!(field[1][2].x(), 40);
    assert_eq!(field[1][2].y(), 20);
    assert_eq!(field[1][2].value(), TileValue::Adjacent(0));
}

#[test]
fn place_bomb_refuses_a_tile_that_holds_one() {
    let mut field = blank_minefield(2, 2);
    assert!(place_bomb(&mut field, 1, 0));
    assert!(field[1][0].is_bomb());
    assert!(!place_bomb(&mut field, 1, 0));
    assert_eq!(count_bombs(&field), 1);
}

#[test]
fn place_bomb_at_free_counts_free_tiles_row_by_row() {
    let mut field = blank_minefield(2, 3);
    assert!(place_bomb(&mut field, 0, 1));
    // Free tiles in order: (0,0) (0,2) (1,0) (1,1) (1,2).
    place_bomb_at_free(&mut field, 1);
    assert!(field[0][2].is_bomb());
    place_bomb_at_free(&mut field, 3);
    assert!(field[1][2].is_bomb());
    place_bomb_at_free(&mut field, 0);
    assert!(field[0][0].is_bomb());
    assert_eq!(count_bombs(&field), 4);
    place_bomb_at_free(&mut field, 1);
    place_bomb_at_free(&mut field, 0);
    assert_eq!(count_bombs(&field), 6);
}

#[test]
fn numbering_keeps_bombs_and_states() {
    let mut field = blank_minefield(2, 2);
    place_bomb(&mut field, 0, 0);
    field[1][1].set_state(TileState::Flagged);
    field[0][1].set_value(TileValue::Adjacent(7));
    number_minefield(&mut field);
    assert!(field[0][0].is_bomb());
    assert_eq!(field[1][1].state(), TileState::Flagged);
    assert_eq!(field[0][1].value(), TileValue::Adjacent(1));
    assert_eq!(field[1][0].value(), TileValue::Adjacent(1));
    assert_eq!(field[1][1].value(), TileValue::Adjacent(1));
}

#[test]
fn tile_setters_and_getters() {
    let mut tile = Tile::new_blank(40, 60);
    assert_eq!(tile.state(), TileState::Hidden);
    assert_eq!(tile.value(), TileValue::Adjacent(0));
    assert!(!tile.is_bomb());
    assert_eq!((tile.x(), tile.y()), (40, 60));
    tile.set_value(TileValue::Adjacent(3));
    assert_eq!(tile.value(), TileValue::Adjacent(3));
    tile.set_bomb();
    assert!(tile.is_bomb());
    assert_eq!(tile.value(), TileValue::Bomb);
    tile.set_state(TileState::Revealed);
    assert_eq!(tile.state(), TileState::Revealed);
    assert_eq!((tile.x(), tile.y()), (40, 60));
}
