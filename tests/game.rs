use orthomagnet::board::{Board, Team};
use orthomagnet::game::{try_put_stone, IllegalMove, Tile};

#[test]
fn test_put_stone_basic() {
    let mut _board = Board::new(5, 5);
    let mut board = _board.board;
    board[1][2] = Team::Black;
    let mut current_turn = Team::White;
    let _ = try_put_stone(&mut current_turn, &mut board, Tile::new(3, 2));
    assert_eq!(current_turn, Team::Black);
    assert_eq!(board[1][2], Team::Empty);
    assert_eq!(board[2][2], Team::White);
    assert_eq!(board[3][2], Team::White);
}

#[test]
fn test_put_stone_toroid() {
    let mut _board = Board::new(5, 5);
    let mut board = _board.board;
    board[1][2] = Team::Black;
    let mut current_turn = Team::White;
    let _ = try_put_stone(&mut current_turn, &mut board, Tile::new(4, 2));
    assert_eq!(current_turn, Team::Black);
    assert_eq!(board[1][2], Team::Empty);
    assert_eq!(board[0][2], Team::White);
    assert_eq!(board[4][2], Team::White);
}

#[test]
fn test_can_not_put_stone() {
    let mut _board = Board::new(5, 5);
    let mut board = _board.board;
    board[1][2] = Team::Black;
    let mut current_turn = Team::White;
    let _ = try_put_stone(&mut current_turn, &mut board, Tile::new(1, 2));
    assert_eq!(current_turn, Team::White);
    assert_eq!(board[1][2], Team::Black);
}

fn grid_with_black_at(x: usize, y: usize) -> Vec<Vec<Team>> {
    let mut board = Board::new(5, 5).board;
    board[x][y] = Team::Black;
    board
}

#[test]
fn occupied_cell_is_illegal_and_changes_nothing() {
    let mut board = grid_with_black_at(1, 2);
    let before = board.clone();
    let mut turn = Team::White;
    assert_eq!(try_put_stone(&mut turn, &mut board, Tile::new(1, 2)), Err(IllegalMove));
    assert_eq!(board, before);
    assert_eq!(turn, Team::White);
}

#[test]
fn placement_without_capture_still_passes_the_turn() {
    let mut board = Board::new(5, 5).board;
    let mut turn = Team::White;
    assert_eq!(try_put_stone(&mut turn, &mut board, Tile::new(2, 2)), Ok(()));
    assert_eq!(turn, Team::Black);
    let mut stones = 0;
    for column in &board {
        for t in column {
            if *t != Team::Empty {
                stones += 1;
            }
        }
    }
    assert_eq!(stones, 1);
    assert_eq!(board[2][2], Team::White);
}

#[test]
fn occupied_neighbour_blocks_the_pull() {
    let mut board = grid_with_black_at(1, 2);
    board[2][2] = Team::Black;
    board[4][2] = Team::White;
    let mut turn = Team::White;
    assert_eq!(try_put_stone(&mut turn, &mut board, Tile::new(3, 2)), Ok(()));
    assert_eq!(board[1][2], Team::Black);
    assert_eq!(board[2][2], Team::Black);
    assert_eq!(board[3][2], Team::White);
    assert_eq!(board[4][2], Team::White);
    assert_eq!(turn, Team::Black);
}

#[test]
fn own_stone_blocks_the_pull() {
    let mut board = grid_with_black_at(0, 2);
    board[1][2] = Team::White;
    board[4][2] = Team::White;
    let mut turn = Team::White;
    let _ = try_put_stone(&mut turn, &mut board, Tile::new(3, 2));
    assert_eq!(board[0][2], Team::Black);
    assert_eq!(board[1][2], Team::White);
    assert_eq!(board[2][2], Team::Empty);
}

#[test]
fn vertical_pull_wraps_across_rows() {
    let mut board = Board::new(5, 5).board;
    board[2][1] = Team::White;
    let mut turn = Team::Black;
    let _ = try_put_stone(&mut turn, &mut board, Tile::new(2, 4));
    assert_eq!(board[2][1], Team::Empty);
    assert_eq!(board[2][0], Team::Black);
    assert_eq!(board[2][4], Team::Black);
    assert_eq!(board[2][3], Team::Empty);
    assert_eq!(turn, Team::White);
}

#[test]
fn lone_stone_is_pulled_once_from_the_nearer_side() {
    let mut board = grid_with_black_at(0, 2);
    board[4][4] = Team::Black;
    let mut turn = Team::White;
    let _ = try_put_stone(&mut turn, &mut board, Tile::new(2, 2));
    assert_eq!(board[0][2], Team::Empty);
    assert_eq!(board[1][2], Team::White);
    assert_eq!(board[3][2], Team::Empty);
    assert_eq!(board[4][4], Team::Black);
}

#[test]
fn pulls_along_both_axes_in_one_move() {
    let mut board = Board::new(7, 7).board;
    board[1][3] = Team::Black;
    board[3][5] = Team::Black;
    let mut turn = Team::White;
    let _ = try_put_stone(&mut turn, &mut board, Tile::new(3, 3));
    assert_eq!(board[1][3], Team::Empty);
    assert_eq!(board[3][5], Team::Empty);
    assert_eq!(board[2][3], Team::White);
    assert_eq!(board[3][4], Team::White);
    assert_eq!(board[3][3], Team::White);
    let whites: usize = board.iter().map(|c| c.iter().filter(|t| **t == Team::White).count()).sum();
    let blacks: usize = board.iter().map(|c| c.iter().filter(|t| **t == Team::Black).count()).sum();
    assert_eq!((whites, blacks), (3, 0));
}

#[test]
fn small_board_never_pulls() {
    let mut board = Board::new(2, 2).board;
    board[0][0] = Team::Black;
    let mut turn = Team::White;
    let _ = try_put_stone(&mut turn, &mut board, Tile::new(1, 1));
    assert_eq!(board[0][0], Team::Black);
    assert_eq!(board[1][1], Team::White);
}
