use vstd::prelude::*;
use crate::common::Location;
use super::lines::{LineTable, LINE_COUNT, line_table, lemma_line_table};
use super::{
    Board, CELLS, Player, PlaceResult, full, has_line, occupant, placed, location_of,
    lemma_location_index,
};

verus! {

/// `2^n`.
pub open spec fn weight(n: nat) -> nat
    decreases n,
{
    if n == 0 {
        1
    } else {
        2 * weight((n - 1) as nat)
    }
}

/// The weights of zero to four held points.
proof fn lemma_weights()
    ensures
        weight(0) == 1,
        weight(1) == 2,
        weight(2) == 4,
        weight(3) == 8,
        weight(4) == 16,
{
    reveal_with_fuel(weight, 5);
}

/// How many of the first `n` points of `line` hold `p`.
pub open spec fn held(cells: Seq<Option<Player>>, line: Seq<Location>, p: Player, n: nat) -> nat
    decreases n,
{
    if n == 0 {
        0
    } else {
        held(cells, line, p, (n - 1) as nat) + if occupant(cells, line[n - 1]) == Some(p) {
            1nat
        } else {
            0nat
        }
    }
}

/// Whether the opponent of `p` holds one of the first `n` points of `line`.
pub open spec fn blocked(cells: Seq<Option<Player>>, line: Seq<Location>, p: Player, n: nat) -> bool {
    exists|a: int| 0 <= a < n && #[trigger] occupant(cells, line[a]) == Some(p.other())
}

/// What one line is worth to `p`: nothing once the opponent holds a point of
/// it, else two to the number of points that `p` holds.
pub open spec fn line_score(cells: Seq<Option<Player>>, line: Seq<Location>, p: Player) -> nat {
    if blocked(cells, line, p, 4) {
        0
    } else {
        weight(held(cells, line, p, 4))
    }
}

/// Sum of the line scores of the first `n` lines of the table.
pub open spec fn threat_prefix(cells: Seq<Option<Player>>, p: Player, n: nat) -> nat
    decreases n,
{
    if n == 0 {
        0
    } else {
        threat_prefix(cells, p, (n - 1) as nat) + line_score(cells, line_table()[n - 1], p)
    }
}

/// The threat potential of `p`: the line scores summed over the whole table.
pub open spec fn threat(cells: Seq<Option<Player>>, p: Player) -> nat {
    threat_prefix(cells, p, LINE_COUNT as nat)
}

/// The static evaluation of a position for the player `p` to move.
pub open spec fn evaluation(cells: Seq<Option<Player>>, p: Player) -> int {
    threat(cells, p) - threat(cells, p.other())
}

/// Score of one line for `player`.
fn line_value(board: &Board, line: &[Location; 4], player: Player) -> (r: i64)
    requires
        forall|a: int| 0 <= a < 4 ==> (#[trigger] line@[a]).in_bounds(),
    ensures
        r == line_score(board@, line@, player),
        0 <= r <= 16,
{
    let mut score: i64 = 1;
    let mut a: usize = 0;
    while a < 4
        invariant
            a <= 4,
            forall|a: int| 0 <= a < 4 ==> (#[trigger] line@[a]).in_bounds(),
            !blocked(board@, line@, player, a as nat),
            score == weight(held(board@, line@, player, a as nat)),
            held(board@, line@, player, a as nat) <= a,
            score <= 16,
        decreases 4 - a,
    {
        proof {
            lemma_weights();
        }
        match board.at(line[a]) {
            Some(q) => {
                if q != player {
                    assert(blocked(board@, line@, player, 4));
                    return 0;
                }
                score = score * 2;
            },
            None => {},
        }
        proof {
            assert forall|b: int| 0 <= b < a + 1 implies #[trigger] occupant(board@, line@[b])
                != Some(player.other()) by {
                if b < a {
                    assert(!blocked(board@, line@, player, a as nat));
                }
            }
        }
        a += 1;
    }
    score
}

/// The threat potential of `player`.
fn eval_sub(table: &LineTable, player: Player, board: &Board) -> (r: i64)
    requires
        table.wf(),
    ensures
        r == threat(board@, player),
        0 <= r <= 16 * LINE_COUNT,
{
    proof {
        lemma_line_table();
    }
    let mut sum: i64 = 0;
    let mut j: usize = 0;
    while j < table.lines.len()
        invariant
            table.wf(),
            table.lines@.len() == LINE_COUNT,
            j <= LINE_COUNT,
            sum == threat_prefix(board@, player, j as nat),
            0 <= sum <= 16 * j,
        decreases LINE_COUNT - j,
    {
        proof {
            lemma_line_table();
            assert(table.lines@[j as int]@ == line_table()[j as int]);
            assert forall|a: int| 0 <= a < 4 implies (
            #[trigger] table.lines@[j as int]@[a]).in_bounds() by {
                assert(line_table()[j as int][a].in_bounds());
            }
        }
        let v = line_value(board, &table.lines[j], player);
        sum = sum + v;
        j += 1;
    }
    proof {
        lemma_line_table();
    }
    sum
}

/// The static evaluation of `board` for `player` to move: its threat
/// potential minus that of the opponent.
pub fn evaluate(table: &LineTable, player: Player, board: &Board) -> (r: i64)
    requires
        table.wf(),
    ensures
        r == evaluation(board@, player),
        -16 * LINE_COUNT <= r <= 16 * LINE_COUNT,
{
    eval_sub(table, player, board) - eval_sub(table, player.other_player(), board)
}

/// The static evaluation of `board` from the side of player A.
pub fn eval(board: &Board) -> (r: i64)
    ensures
        r == evaluation(board@, Player::A),
{
    let table = LineTable::new();
    evaluate(&table, Player::A, board)
}

/// Score of a move that completes a line, before the remaining depth is added:
/// larger than any static evaluation.
pub const WIN_SCORE: i64 = 1000000;

/// Score of a move that completes a line with `depth` plies of look-ahead left;
/// sooner wins score higher.
pub open spec fn win_value(depth: nat) -> int {
    WIN_SCORE + depth
}

/// Value for `p` to move of the position `cells`, searched `depth` plies deep.
pub open spec fn value(cells: Seq<Option<Player>>, p: Player, depth: nat) -> int
    decreases depth, CELLS + 1,
{
    if depth == 0 {
        evaluation(cells, p)
    } else {
        match best(cells, p, depth, CELLS as nat) {
            Some(m) => m.1,
            None => 0,
        }
    }
}

/// Value for `p` of moving to cell `i` (in sweep order), searched `depth` plies deep.
pub open spec fn move_value(cells: Seq<Option<Player>>, p: Player, depth: nat, i: int) -> int
    decreases depth, 0nat,
{
    if depth == 0 {
        0
    } else {
        let next = placed(cells, p, location_of(i));
        if has_line(next, p) {
            win_value(depth)
        } else {
            -value(next, p.other(), (depth - 1) as nat)
        }
    }
}

/// The best move among the first `n` cells in sweep order, as its cell and its
/// value: the first empty cell of greatest value.
pub open spec fn best(cells: Seq<Option<Player>>, p: Player, depth: nat, n: nat) -> Option<
    (int, int),
>
    decreases depth, n,
{
    if n == 0 || depth == 0 {
        None
    } else {
        let prev = best(cells, p, depth, (n - 1) as nat);
        if cells[n - 1].is_some() {
            prev
        } else {
            let v = move_value(cells, p, depth, n - 1);
            match prev {
                Some(m) => if v > m.1 {
                    Some((n - 1, v))
                } else {
                    prev
                },
                None => Some((n - 1, v)),
            }
        }
    }
}

/// Every searched value lies within the win scores.
pub proof fn lemma_value_bounds(cells: Seq<Option<Player>>, p: Player, depth: nat)
    requires
        cells.len() == CELLS,
    ensures
        -win_value(depth) <= value(cells, p, depth) <= win_value(depth),
    decreases depth, CELLS + 1,
{
    if depth == 0 {
        lemma_evaluation_bounds(cells, p);
    } else {
        lemma_best_bounds(cells, p, depth, CELLS as nat);
    }
}

/// A chosen move is an empty cell among the first `n`, and its value lies
/// within the win scores; one is chosen exactly when such a cell is empty.
pub proof fn lemma_best_bounds(cells: Seq<Option<Player>>, p: Player, depth: nat, n: nat)
    requires
        cells.len() == CELLS,
        depth > 0,
        n <= CELLS,
    ensures
        best(cells, p, depth, n) is Some <==> exists|i: int|
            0 <= i < n && (#[trigger] cells[i]).is_none(),
        best(cells, p, depth, n) matches Some(m) ==> 0 <= m.0 < n && cells[m.0].is_none()
            && -win_value(depth) <= m.1 <= win_value(depth),
    decreases depth, n,
{
    if n > 0 {
        lemma_best_bounds(cells, p, depth, (n - 1) as nat);
        if cells[n - 1].is_none() {
            lemma_move_value_bounds(cells, p, depth, n - 1);
        }
    }
}

/// A move's value lies within the win scores.
pub proof fn lemma_move_value_bounds(cells: Seq<Option<Player>>, p: Player, depth: nat, i: int)
    requires
        cells.len() == CELLS,
        depth > 0,
        0 <= i < CELLS,
    ensures
        -win_value(depth) <= move_value(cells, p, depth, i) <= win_value(depth),
        !has_line(placed(cells, p, location_of(i)), p) ==> move_value(cells, p, depth, i)
            < win_value(depth),
    decreases depth, 0nat,
{
    let next = placed(cells, p, location_of(i));
    if !has_line(next, p) {
        lemma_value_bounds(next, p.other(), (depth - 1) as nat);
    }
}

/// The static evaluation is far below the win scores.
pub proof fn lemma_evaluation_bounds(cells: Seq<Option<Player>>, p: Player)
    ensures
        -16 * LINE_COUNT <= evaluation(cells, p) <= 16 * LINE_COUNT,
{
    lemma_threat_bounds(cells, p, LINE_COUNT as nat);
    lemma_threat_bounds(cells, p.other(), LINE_COUNT as nat);
}

/// Each line scores at most 16.
pub proof fn lemma_threat_bounds(cells: Seq<Option<Player>>, p: Player, n: nat)
    ensures
        threat_prefix(cells, p, n) <= 16 * n,
    decreases n,
{
    if n > 0 {
        lemma_threat_bounds(cells, p, (n - 1) as nat);
        let line = line_table()[n - 1];
        lemma_held_bound(cells, line, p, 4);
        lemma_weights();
    }
}

/// At most `n` of the first `n` points are held.
proof fn lemma_held_bound(cells: Seq<Option<Player>>, line: Seq<Location>, p: Player, n: nat)
    ensures
        held(cells, line, p, n) <= n,
    decreases n,
{
    if n > 0 {
        lemma_held_bound(cells, line, p, (n - 1) as nat);
    }
}

/// Whether `p` completes a line by moving to the empty cell `i` (in sweep order).
pub open spec fn wins_at(cells: Seq<Option<Player>>, p: Player, i: int) -> bool {
    cells[i].is_none() && has_line(placed(cells, p, location_of(i)), p)
}

/// Among the first `n` cells, the best move completes a line, at the win score,
/// whenever some cell does; otherwise it scores below that.
proof fn lemma_best_win(cells: Seq<Option<Player>>, p: Player, depth: nat, n: nat)
    requires
        cells.len() == CELLS,
        depth > 0,
        n <= CELLS,
    ensures
        (exists|i: int| 0 <= i < n && #[trigger] wins_at(cells, p, i)) ==> (best(
            cells,
            p,
            depth,
            n,
        ) matches Some(m) && wins_at(cells, p, m.0) && m.1 == win_value(depth)),
        !(exists|i: int| 0 <= i < n && #[trigger] wins_at(cells, p, i)) ==> (best(
            cells,
            p,
            depth,
            n,
        ) matches Some(m) ==> m.1 < win_value(depth)),
    decreases n,
{
    if n > 0 {
        lemma_best_win(cells, p, depth, (n - 1) as nat);
        if cells[n - 1].is_none() {
            lemma_move_value_bounds(cells, p, depth, n - 1);
        }
        if exists|i: int| 0 <= i < n && #[trigger] wins_at(cells, p, i) {
            if !(exists|i: int| 0 <= i < n - 1 && #[trigger] wins_at(cells, p, i)) {
                let i = choose|i: int| 0 <= i < n && #[trigger] wins_at(cells, p, i);
                assert(i == n - 1);
            }
        } else {
            assert(!wins_at(cells, p, n - 1));
            assert forall|i: int| 0 <= i < n - 1 implies !#[trigger] wins_at(cells, p, i) by {
                assert(!(0 <= i < n && wins_at(cells, p, i)));
            }
        }
    }
}

/// With at least one ply of look-ahead, when some empty cell completes a line
/// for the player to move, the best move is such a cell.
pub proof fn lemma_takes_immediate_win(cells: Seq<Option<Player>>, p: Player, depth: nat)
    requires
        cells.len() == CELLS,
        depth > 0,
        exists|i: int| 0 <= i < CELLS && #[trigger] wins_at(cells, p, i),
    ensures
        best(cells, p, depth, CELLS as nat) matches Some(m) && wins_at(cells, p, m.0),
{
    lemma_best_win(cells, p, depth, CELLS as nat);
}

/// Whether a found move agrees with the model of the best move.
pub open spec fn agrees(found: Option<(Location, i64)>, model: Option<(int, int)>) -> bool {
    match found {
        Some(f) => model == Some((f.0.index(), f.1 as int)) && f.0.in_bounds(),
        None => model is None,
    }
}

/// The value of `board` for `player` to move, searched `depth` plies deep.
fn negamax(table: &LineTable, board: &Board, player: Player, depth: u8) -> (r: i64)
    requires
        table.wf(),
    ensures
        r == value(board@, player, depth as nat),
    decreases depth, 1nat,
{
    if depth == 0 {
        evaluate(table, player, board)
    } else {
        match search_moves(table, board, player, depth) {
            Some(m) => m.1,
            None => 0,
        }
    }
}

/// The first empty cell of greatest value for `player`, searched `depth` plies
/// deep, with its value; `None` on a full board.
fn search_moves(table: &LineTable, board: &Board, player: Player, depth: u8) -> (r: Option<
    (Location, i64),
>)
    requires
        table.wf(),
        depth > 0,
    ensures
        agrees(r, best(board@, player, depth as nat, CELLS as nat)),
    decreases depth, 0nat,
{
    let mut found: Option<(Location, i64)> = None;
    let mut i: usize = 0;
    while i < CELLS
        invariant
            table.wf(),
            depth > 0,
            i <= CELLS,
            agrees(found, best(board@, player, depth as nat, i as nat)),
        decreases CELLS - i,
    {
        proof {
            lemma_location_index(location_of(i as int), i as int);
        }
        let loc = Location::new(i % 4, (i / 4) % 4, i / 16);
        assert(loc == location_of(i as int));
        if board.at(loc).is_none() {
            let mut next = *board;
            let outcome = next.place_with(table, player, loc);
            let v: i64 = match outcome {
                Ok(PlaceResult::GameOver) => WIN_SCORE + depth as i64,
                _ => {
                    let w = negamax(table, &next, player.other_player(), depth - 1);
                    proof {
                        lemma_value_bounds(next@, player.other(), (depth - 1) as nat);
                    }
                    -w
                },
            };
            assert(v == move_value(board@, player, depth as nat, i as int));
            match found {
                Some(m) => {
                    if v > m.1 {
                        found = Some((loc, v));
                    }
                },
                None => {
                    found = Some((loc, v));
                },
            }
        }
        i += 1;
    }
    found
}

/// The move that the search picks for `player` on `board`, looking
/// `look_ahead` plies deep; `None` when the look-ahead is zero or no cell is
/// empty.
pub fn next(player: Player, board: &Board, look_ahead: u8) -> (r: Option<Location>)
    ensures
        look_ahead == 0 ==> r is None,
        look_ahead > 0 ==> r == match best(board@, player, look_ahead as nat, CELLS as nat) {
            Some(m) => Some(location_of(m.0)),
            None => None,
        },
        r is None <==> (look_ahead == 0 || full(board@)),
        r matches Some(l) ==> l.in_bounds() && occupant(board@, l).is_none(),
        look_ahead > 0 && (exists|i: int| 0 <= i < CELLS && #[trigger] wins_at(board@, player, i))
            ==> (r matches Some(l) && wins_at(board@, player, l.index())),
{
    if look_ahead == 0 {
        return None;
    }
    let table = LineTable::new();
    let found = search_moves(&table, board, player, look_ahead);
    proof {
        lemma_best_bounds(board@, player, look_ahead as nat, CELLS as nat);
        if exists|i: int| 0 <= i < CELLS && #[trigger] wins_at(board@, player, i) {
            lemma_takes_immediate_win(board@, player, look_ahead as nat);
        }
    }
    match found {
        Some(m) => {
            proof {
                lemma_location_index(m.0, 0);
            }
            Some(m.0)
        },
        None => None,
    }
}

} // verus!
