use tttt::common::Location;
use tttt::logic::computer_player::{eval, evaluate, next};
use tttt::logic::lines::LineTable;
use tttt::logic::{Board, Player};

#[test]
fn with_a_one_step_look_ahead_ai_should_win_if_possible() {
    let mut board = Board::new();
    board.place(Player::A, Location::new(0, 0, 0)).unwrap();
    board.place(Player::A, Location::new(1, 0, 0)).unwrap();
    board.place(Player::A, Location::new(2, 0, 0)).unwrap();

    let next_move = next(Player::A, &board, 1);
    assert_eq!(next_move, Some(Location::new(3, 0, 0)));
}

#[test]
fn should_block_move_if_opponent_would_win() {
    let mut board = Board::new();
    board.place(Player::A, Location::new(0, 0, 0)).unwrap();
    board.place(Player::A, Location::new(1, 0, 0)).unwrap();
    board.place(Player::A, Location::new(2, 0, 0)).unwrap();

    let next_move = next(Player::B, &board, 2);
    assert_eq!(next_move, Some(Location::new(3, 0, 0)));
}

#[test]
fn board_with_line_blocked_should_be_worse_than_unblocked() {
    let mut good_board = Board::new();
    good_board.place(Player::A, Location::new(0, 0, 0)).unwrap();
    good_board.place(Player::A, Location::new(3, 0, 0)).unwrap();
    good_board.place(Player::B, Location::new(0, 2, 0)).unwrap();

    let mut bad_board = Board::new();
    bad_board.place(Player::A, Location::new(0, 0, 0)).unwrap();
    bad_board.place(Player::A, Location::new(3, 0, 0)).unwrap();
    bad_board.place(Player::B, Location::new(2, 0, 0)).unwrap();

    assert!(eval(&good_board) > eval(&bad_board));
}

#[test]
fn blocked_and_unblocked_boards_score_exactly() {
    let mut good_board = Board::new();
    good_board.place(Player::A, Location::new(0, 0, 0)).unwrap();
    good_board.place(Player::A, Location::new(3, 0, 0)).unwrap();
    good_board.place(Player::B, Location::new(0, 2, 0)).unwrap();

    let mut bad_board = Board::new();
    bad_board.place(Player::A, Location::new(0, 0, 0)).unwrap();
    bad_board.place(Player::A, Location::new(3, 0, 0)).unwrap();
    bad_board.place(Player::B, Location::new(2, 0, 0)).unwrap();

    assert_eq!(eval(&good_board), 20);
    assert_eq!(eval(&bad_board), 18);
}

#[test]
fn empty_board_is_even() {
    let board = Board::new();
    assert_eq!(eval(&board), 0);
    let table = LineTable::new();
    assert_eq!(evaluate(&table, Player::A, &board), 0);
    assert_eq!(evaluate(&table, Player::B, &board), 0);
}

#[test]
fn one_corner_piece_scores_its_seven_lines() {
    let mut board = Board::new();
    board.place(Player::A, Location::new(0, 0, 0)).unwrap();
    // seven lines through the corner: A scores 76 + 7, B loses those 7
    assert_eq!(eval(&board), 14);
    let table = LineTable::new();
    assert_eq!(evaluate(&table, Player::A, &board), 14);
    assert_eq!(evaluate(&table, Player::B, &board), -14);
}

#[test]
fn pieces_on_more_open_lines_evaluate_higher() {
    let mut spread = Board::new();
    for l in [(0, 0, 0), (3, 3, 0), (0, 3, 3), (3, 0, 3)] {
        spread.place(Player::A, l.into()).unwrap();
    }
    let mut bunched = Board::new();
    for l in [(0, 0, 0), (1, 0, 0), (0, 1, 0), (1, 1, 0)] {
        bunched.place(Player::A, l.into()).unwrap();
    }
    assert_eq!(eval(&spread), 56);
    assert_eq!(eval(&bunched), 38);
    assert!(eval(&spread) > eval(&bunched));
}

#[test]
fn zero_look_ahead_picks_no_move() {
    let board = Board::new();
    assert_eq!(next(Player::A, &board, 0), None);
}

#[test]
fn full_board_has_no_move() {
    let pattern = "ABBAABAABABBBBABABBBBBAABAAABABABAAABABBABBABABBAABBBAAABBABAABB";
    let mut board = Board::new();
    for (i, c) in pattern.chars().enumerate() {
        let player = if c == 'A' { Player::A } else { Player::B };
        board.place(player, Location::new(i % 4, (i / 4) % 4, i / 16)).unwrap();
    }
    assert_eq!(next(Player::A, &board, 1), None);
    assert_eq!(next(Player::B, &board, 2), None);
}

#[test]
fn one_ply_search_on_empty_board_takes_the_first_corner() {
    let board = Board::new();
    assert_eq!(next(Player::A, &board, 1), Some(Location::new(0, 0, 0)));
}

#[test]
fn search_takes_the_win_for_player_b() {
    let mut board = Board::new();
    board.place(Player::B, Location::new(1, 1, 1)).unwrap();
    board.place(Player::B, Location::new(2, 2, 2)).unwrap();
    board.place(Player::B, Location::new(3, 3, 3)).unwrap();
    board.place(Player::A, Location::new(0, 1, 2)).unwrap();
    assert_eq!(next(Player::B, &board, 1), Some(Location::new(0, 0, 0)));
    assert_eq!(next(Player::B, &board, 2), Some(Location::new(0, 0, 0)));
}
