use tttt::logic::lines::{LineTable, LINE_COUNT};
use tttt::logic::{Board, PlaceResult, Player};

#[test]
fn line_table_has_seventy_six_lines() {
    let table = LineTable::new();
    assert_eq!(table.lines.len(), 76);
    assert_eq!(LINE_COUNT, 76);
}

#[test]
fn line_points_are_distinct_and_inside_the_cube() {
    let table = LineTable::new();
    for line in &table.lines {
        for a in 0..4 {
            assert!(line[a].x < 4 && line[a].y < 4 && line[a].z < 4);
            for b in (a + 1)..4 {
                assert_ne!(line[a], line[b]);
            }
        }
    }
}

#[test]
fn no_line_repeats_in_either_direction() {
    let table = LineTable::new();
    for i in 0..table.lines.len() {
        for j in (i + 1)..table.lines.len() {
            let mut reversed = table.lines[j];
            reversed.reverse();
            assert_ne!(table.lines[i], table.lines[j]);
            assert_ne!(table.lines[i], reversed);
        }
    }
}

#[test]
fn line_table_is_the_same_each_time() {
    let first = LineTable::new();
    let second = LineTable::new();
    assert_eq!(first.lines, second.lines);
}

#[test]
fn line_table_holds_each_kind_of_line() {
    let table = LineTable::new();
    let mut axis = 0;
    let mut face = 0;
    let mut space = 0;
    for line in &table.lines {
        let moving = [line[0].x != line[3].x, line[0].y != line[3].y, line[0].z != line[3].z]
            .iter()
            .filter(|m| **m)
            .count();
        match moving {
            1 => axis += 1,
            2 => face += 1,
            3 => space += 1,
            _ => panic!("a line moves along at least one axis"),
        }
    }
    assert_eq!(axis, 48);
    assert_eq!(face, 24);
    assert_eq!(space, 4);
}

#[test]
fn fourth_piece_of_one_player_wins_on_every_line() {
    let table = LineTable::new();
    for line in &table.lines {
        for player in [Player::A, Player::B] {
            let mut board = Board::new();
            for a in 0..3 {
                assert_eq!(board.place(player, line[a]), Ok(PlaceResult::Continue));
            }
            assert_eq!(board.place(player, line[3]), Ok(PlaceResult::GameOver));
        }
    }
}

#[test]
fn mixed_players_on_a_line_never_win() {
    let table = LineTable::new();
    for line in &table.lines {
        for mask in 1..15u32 {
            let mut board = Board::new();
            for a in 0..4 {
                let player = if mask & (1 << a) != 0 { Player::B } else { Player::A };
                assert_eq!(board.place(player, line[a]), Ok(PlaceResult::Continue));
            }
        }
    }
}
