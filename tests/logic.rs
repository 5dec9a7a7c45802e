use tttt::common::Location;
use tttt::logic::{Board, GamePlayStatus, PlaceErr, PlaceResult, Player, TTTTState};

#[test]
fn placing_on_an_empty_board_is_successful() {
    let mut board = Board::new();
    let result = board.place(Player::A, Location { x: 0, y: 1, z: 2 });
    assert_eq!(result, Ok(PlaceResult::Continue));
}

#[test]
fn cannot_place_on_the_same_spot_twice() {
    let mut board = Board::new();
    let loc = (0, 1, 2).into();
    board.place(Player::A, loc).unwrap();
    let result = board.place(Player::A, loc);
    assert_eq!(result, Err(PlaceErr::Occupied));
}

#[test]
fn placing_on_a_second_empty_spot_is_valid() {
    let mut board = Board::new();
    board.place(Player::A, Location::new(0, 1, 2)).unwrap();
    let result = board.place(Player::A, Location::new(1, 2, 3));
    assert_eq!(result, Ok(PlaceResult::Continue));
}

#[test]
fn the_game_is_over_when_4_are_placed_in_a_line() {
    let mut board = Board::new();
    board.place(Player::A, Location::new(0, 0, 0)).unwrap();
    board.place(Player::A, Location::new(1, 0, 0)).unwrap();
    board.place(Player::A, Location::new(2, 0, 0)).unwrap();
    let result = board.place(Player::A, Location::new(3, 0, 0));
    assert_eq!(result, Ok(PlaceResult::GameOver));
}

#[test]
fn the_game_continues_when_4_are_not_placed_in_a_line() {
    let mut board = Board::new();
    board.place(Player::A, Location::new(0, 0, 0)).unwrap();
    board.place(Player::A, Location::new(1, 0, 0)).unwrap();
    board.place(Player::A, Location::new(2, 0, 0)).unwrap();
    let result = board.place(Player::A, Location::new(0, 1, 0));
    assert_eq!(result, Ok(PlaceResult::Continue));
}

#[test]
fn the_game_continues_when_4_in_a_row_arent_the_same_player() {
    let mut board = Board::new();
    board.place(Player::A, Location::new(0, 0, 0)).unwrap();
    board.place(Player::A, Location::new(1, 0, 0)).unwrap();
    board.place(Player::A, Location::new(2, 0, 0)).unwrap();
    let result = board.place(Player::B, Location::new(3, 0, 0));
    assert_eq!(result, Ok(PlaceResult::Continue));
}

#[test]
fn other_player_swaps_and_returns() {
    assert_eq!(Player::A.other_player(), Player::B);
    assert_eq!(Player::B.other_player(), Player::A);
    assert_eq!(Player::A.other_player().other_player(), Player::A);
}

#[test]
fn location_from_tuple_keeps_coordinates() {
    let loc: Location = (3, 1, 2).into();
    assert_eq!(loc, Location::new(3, 1, 2));
    assert_eq!(loc.x, 3);
    assert_eq!(loc.y, 1);
    assert_eq!(loc.z, 2);
}

#[test]
fn new_board_is_empty() {
    let board = Board::new();
    for z in 0..4 {
        for y in 0..4 {
            for x in 0..4 {
                assert_eq!(board.at(Location::new(x, y, z)), None);
            }
        }
    }
    let default_board = Board::default();
    assert_eq!(default_board.at(Location::new(3, 3, 3)), None);
}

#[test]
fn failed_placement_keeps_the_occupant() {
    let mut board = Board::new();
    let loc = Location::new(2, 3, 1);
    assert_eq!(board.place(Player::B, loc), Ok(PlaceResult::Continue));
    assert_eq!(board.at(loc), Some(Player::B));
    assert_eq!(board.place(Player::A, loc), Err(PlaceErr::Occupied));
    assert_eq!(board.at(loc), Some(Player::B));
    assert_eq!(board.place(Player::B, loc), Err(PlaceErr::Occupied));
    assert_eq!(board.at(loc), Some(Player::B));
}

#[test]
fn every_cell_accepts_exactly_one_placement() {
    for z in 0..4 {
        for y in 0..4 {
            for x in 0..4 {
                let mut board = Board::new();
                let loc = Location::new(x, y, z);
                assert!(board.place(Player::A, loc).is_ok());
                assert_eq!(board.place(Player::B, loc), Err(PlaceErr::Occupied));
                assert_eq!(board.at(loc), Some(Player::A));
            }
        }
    }
}

#[test]
fn space_diagonal_wins() {
    let mut board = Board::new();
    for i in 0..3 {
        assert_eq!(board.place(Player::B, Location::new(i, 3 - i, i)), Ok(PlaceResult::Continue));
    }
    assert_eq!(board.place(Player::B, Location::new(3, 0, 3)), Ok(PlaceResult::GameOver));
}

#[test]
fn face_diagonal_wins() {
    let mut board = Board::new();
    for i in 0..3 {
        assert_eq!(board.place(Player::A, Location::new(2, i, 3 - i)), Ok(PlaceResult::Continue));
    }
    assert_eq!(board.place(Player::A, Location::new(2, 3, 0)), Ok(PlaceResult::GameOver));
}

#[test]
fn new_game_starts_with_player_a() {
    let game = TTTTState::new();
    assert_eq!(game.status, GamePlayStatus::Playing(Player::A));
    assert_eq!(game.players, vec![Player::A, Player::B]);
    assert_eq!(game.turn(), 0);
}

#[test]
fn play_alternates_players_and_counts_turns() {
    let mut game = TTTTState::new();
    assert!(game.play(Location::new(0, 0, 0)));
    assert_eq!(game.status, GamePlayStatus::Playing(Player::B));
    assert_eq!(game.turn(), 1);
    assert!(game.play(Location::new(1, 2, 3)));
    assert_eq!(game.status, GamePlayStatus::Playing(Player::A));
    assert_eq!(game.turn(), 2);
    assert_eq!(game.board.at(Location::new(0, 0, 0)), Some(Player::A));
    assert_eq!(game.board.at(Location::new(1, 2, 3)), Some(Player::B));
}

#[test]
fn play_on_a_taken_cell_is_refused() {
    let mut game = TTTTState::new();
    assert!(game.play(Location::new(1, 1, 1)));
    assert!(!game.play(Location::new(1, 1, 1)));
    assert_eq!(game.status, GamePlayStatus::Playing(Player::B));
    assert_eq!(game.turn(), 1);
    assert_eq!(game.board.at(Location::new(1, 1, 1)), Some(Player::A));
}

#[test]
fn game_is_won_by_the_player_who_completes_a_line() {
    let mut board = Board::new();
    assert_eq!(board.place(Player::A, Location::new(0, 0, 0)), Ok(PlaceResult::Continue));
    assert_eq!(board.place(Player::A, Location::new(1, 0, 0)), Ok(PlaceResult::Continue));
    assert_eq!(board.place(Player::A, Location::new(2, 0, 0)), Ok(PlaceResult::Continue));
    let mut game = TTTTState {
        board,
        status: GamePlayStatus::Playing(Player::A),
        players: vec![Player::A, Player::B],
    };
    assert!(game.play(Location::new(3, 0, 0)));
    assert_eq!(game.status, GamePlayStatus::Win(Player::A));
    assert_eq!(game.turn(), 4);
    assert!(!game.play(Location::new(0, 1, 0)));
    assert_eq!(game.status, GamePlayStatus::Win(Player::A));
    assert_eq!(game.turn(), 4);
}

#[test]
fn alternating_game_is_won_by_player_a() {
    let mut game = TTTTState::new();
    let moves = [(0, 0, 0), (0, 3, 3), (1, 0, 0), (1, 3, 3), (2, 0, 0), (2, 3, 3), (3, 0, 0)];
    for (n, m) in moves.iter().enumerate() {
        assert_eq!(game.status, if n % 2 == 0 {
            GamePlayStatus::Playing(Player::A)
        } else {
            GamePlayStatus::Playing(Player::B)
        });
        assert!(game.play((*m).into()));
        assert_eq!(game.turn(), n + 1);
    }
    assert_eq!(game.status, GamePlayStatus::Win(Player::A));
}

#[test]
fn full_board_without_a_line_is_a_draw() {
    // cell owners in sweep order (x fastest, then y, then z); no line is one colour
    let pattern = "ABBAABAABABBBBABABBBBBAABAAABABABAAABABBABBABABBAABBBAAABBABAABB";
    let mut owner = [[[Player::A; 4]; 4]; 4];
    for (i, c) in pattern.chars().enumerate() {
        owner[i / 16][(i / 4) % 4][i % 4] = if c == 'A' { Player::A } else { Player::B };
    }
    let mut board = Board::new();
    let mut last = Location::new(0, 0, 0);
    let mut last_owner = Player::A;
    for z in 0..4 {
        for y in 0..4 {
            for x in 0..4 {
                if x == 3 && y == 3 && z == 3 {
                    last = Location::new(x, y, z);
                    last_owner = owner[z][y][x];
                } else {
                    let r = board.place(owner[z][y][x], Location::new(x, y, z));
                    assert_eq!(r, Ok(PlaceResult::Continue));
                }
            }
        }
    }
    let mut game = TTTTState {
        board,
        status: GamePlayStatus::Playing(last_owner),
        players: vec![Player::A, Player::B],
    };
    assert!(game.play(last));
    assert_eq!(game.status, GamePlayStatus::Draw);
    assert_eq!(game.turn(), 64);
    assert!(!game.play(Location::new(0, 0, 0)));
}

#[test]
fn player_labels() {
    assert_eq!(Player::A.label(), "Player A");
    assert_eq!(Player::B.label(), "Player B");
}
