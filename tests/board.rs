use orthomagnet::board::{compute_score, get_team, new_board, set_team, Board, SizeClicks, Team};
use orthomagnet::game::{put_stone_as, IllegalMove, Tile};
use orthomagnet::menu::Player;

#[test]
fn new_board_is_empty_white_to_move() {
    let b = Board::new(4, 6);
    assert_eq!(b.size(), (4, 6));
    assert_eq!(b.board.len(), 6);
    assert!(b.board.iter().all(|c| c.len() == 4 && c.iter().all(|t| *t == Team::Empty)));
    assert_eq!(b.turn, Team::White);
    assert!(b.board_history.is_empty());
    assert_eq!(b.score(), (0, 0));
}

#[test]
fn default_size_is_seven_rows_five_columns() {
    assert_eq!(Board::new_default_size().size(), (7, 5));
}

#[test]
fn toggle_and_select() {
    assert_eq!(Team::White.toggle(), Team::Black);
    assert_eq!(Team::Black.toggle(), Team::White);
    assert_eq!(Team::Empty.select(0, 1, 2), 0);
    assert_eq!(Team::White.select(0, 1, 2), 1);
    assert_eq!(Team::Black.select(0, 1, 2), 2);
}

#[test]
fn toroidal_addressing_wraps_negative_and_large_coordinates() {
    let mut b = Board::new(5, 5);
    b.board[4][0] = Team::Black;
    assert_eq!(get_team(&b.board, -1, 0), Team::Black);
    assert_eq!(get_team(&b.board, 9, 5), Team::Black);
    assert_eq!(get_team(&b.board, -6, -10), Team::Black);
    assert_eq!(get_team(&b.board, 0, 0), Team::Empty);
}

#[test]
fn score_counts_each_side() {
    let mut b = Board::new(5, 5);
    b.put_stone(Tile::new(0, 0)).unwrap();
    b.put_stone(Tile::new(2, 2)).unwrap();
    b.put_stone(Tile::new(4, 4)).unwrap();
    assert_eq!(b.score(), (2, 1));
}

#[test]
fn undo_restores_grid_and_turn() {
    let mut b = Board::new(5, 5);
    b.board[1][2] = Team::Black;
    let start = b.board.clone();
    b.put_stone(Tile::new(3, 2)).unwrap();
    let after_one = b.board.clone();
    b.put_stone(Tile::new(0, 0)).unwrap();
    assert_eq!(b.board_history.len(), 2);
    assert!(b.pop_history());
    assert_eq!(b.board, after_one);
    assert_eq!(b.turn, Team::Black);
    assert!(b.pop_history());
    assert_eq!(b.board, start);
    assert_eq!(b.turn, Team::White);
    assert!(!b.pop_history());
    assert_eq!(b.board, start);
    assert_eq!(b.turn, Team::White);
}

#[test]
fn illegal_move_saves_no_history() {
    let mut b = Board::new(5, 5);
    b.put_stone(Tile::new(1, 1)).unwrap();
    assert_eq!(b.put_stone(Tile::new(1, 1)), Err(IllegalMove));
    assert_eq!(b.board_history.len(), 1);
    assert_eq!(b.turn, Team::Black);
}

#[test]
fn reset_clears_board_and_history() {
    let mut b = Board::new(3, 4);
    b.put_stone(Tile::new(1, 1)).unwrap();
    b.reset();
    assert_eq!(b.size(), (3, 4));
    assert_eq!(b.score(), (0, 0));
    assert!(b.board_history.is_empty());
    assert_eq!(b.turn, Team::White);
}

#[test]
fn size_buttons_resize_and_clear() {
    let mut b = Board::new(5, 5);
    b.put_stone(Tile::new(1, 1)).unwrap();
    let clicks = SizeClicks {
        rows_increase: true,
        rows_decrease: false,
        columns_increase: false,
        columns_decrease: true,
    };
    assert_eq!(b.maybe_change_size(clicks), (true, true));
    assert_eq!(b.size(), (6, 4));
    assert_eq!(b.board.len(), 4);
    assert_eq!(b.board[0].len(), 6);
    assert_eq!(b.score(), (0, 0));
    assert!(b.board_history.is_empty());
}

#[test]
fn size_never_drops_below_one() {
    let mut b = Board::new(1, 1);
    let clicks = SizeClicks {
        rows_increase: false,
        rows_decrease: true,
        columns_increase: false,
        columns_decrease: true,
    };
    assert_eq!(b.maybe_change_size(clicks), (true, true));
    assert_eq!(b.size(), (1, 1));
}

#[test]
fn no_click_keeps_everything() {
    let mut b = Board::new(5, 5);
    b.put_stone(Tile::new(1, 1)).unwrap();
    let clicks = SizeClicks {
        rows_increase: false,
        rows_decrease: false,
        columns_increase: false,
        columns_decrease: false,
    };
    assert_eq!(b.maybe_change_size(clicks), (false, false));
    assert_eq!(b.board_history.len(), 1);
    assert_eq!(b.board[1][1], Team::White);
}

#[test]
fn networked_player_places_only_on_its_turn() {
    let mut b = Board::new(5, 5);
    let black = Player::Client.local_team();
    assert_eq!(black, Team::Black);
    assert!(!put_stone_as(&mut b, black, Tile::new(0, 0)));
    assert_eq!(b.board[0][0], Team::Empty);
    let white = Player::Server.local_team();
    assert!(put_stone_as(&mut b, white, Tile::new(0, 0)));
    assert!(put_stone_as(&mut b, black, Tile::new(1, 0)));
    assert_eq!(b.turn, Team::White);
    assert_eq!(Player::Local.local_team(), Team::White);
}

#[test]
fn new_board_and_compute_score() {
    let mut g = new_board(3, 2);
    assert_eq!(g, vec![vec![Team::Empty; 3]; 2]);
    set_team(&mut g, -1, 4, Team::Black);
    assert_eq!(g[1][1], Team::Black);
    g[0][0] = Team::White;
    g[0][2] = Team::White;
    assert_eq!(compute_score(&g), (2, 1));
}
