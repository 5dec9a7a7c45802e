use vstd::prelude::*;
use crate::common::{Location, SIZE};
use self::lines::{
    LineTable, LINE_COUNT, CANDIDATES, candidate, degenerate, is_line, line_table, lemma_line_table,
    listed,
};

pub mod computer_player;
pub mod lines;

verus! {

/// Number of cells in the cube.
pub const CELLS: usize = 64;

/// One of the two sides.
#[derive(Debug, PartialEq, Eq, Structural, Clone, Copy)]
pub enum Player {
    A,
    B,
}

impl Player {
    /// The opponent of `self`.
    pub open spec fn other(self) -> Player {
        match self {
            Player::A => Player::B,
            Player::B => Player::A,
        }
    }

    /// The name shown for this player.
    pub fn label(&self) -> (r: &'static str)
        ensures
            r@ == match *self {
                Player::A => "Player A"@,
                Player::B => "Player B"@,
            },
    {
        match self {
            Player::A => "Player A",
            Player::B => "Player B",
        }
    }

    pub fn other_player(&self) -> (r: Self)
        ensures
            r == self.other(),
            r != *self,
            r.other() == *self,
    {
        if *self == Player::A {
            Player::B
        } else {
            Player::A
        }
    }
}

/// The location at position `i` of the sweep order.
pub open spec fn location_of(i: int) -> Location {
    Location { x: (i % 4) as usize, y: ((i / 4) % 4) as usize, z: (i / 16) as usize }
}

/// Sweep positions and in-bounds locations correspond one to one.
pub proof fn lemma_location_index(l: Location, i: int)
    ensures
        l.in_bounds() ==> 0 <= l.index() < CELLS && location_of(l.index()) == l,
        0 <= i < CELLS ==> location_of(i).in_bounds() && location_of(i).index() == i,
{
    if l.in_bounds() {
        let (x, y, z) = (l.x as int, l.y as int, l.z as int);
        assert((x + 4 * y + 16 * z) % 4 == x && ((x + 4 * y + 16 * z) / 4) % 4 == y && (x + 4 * y
            + 16 * z) / 16 == z) by (nonlinear_arith)
            requires
                0 <= x < 4,
                0 <= y < 4,
                0 <= z < 4,
        ;
    }
    if 0 <= i < CELLS {
        assert(i % 4 + 4 * ((i / 4) % 4) + 16 * (i / 16) == i && 0 <= i % 4 < 4 && 0 <= (i / 4) % 4
            < 4 && 0 <= i / 16 < 4) by (nonlinear_arith)
            requires
                0 <= i < 64,
        ;
    }
}

/// The occupant of location `l` in a board model.
pub open spec fn occupant(cells: Seq<Option<Player>>, l: Location) -> Option<Player> {
    cells[l.index()]
}

/// Whether every point of `line` holds `p`.
pub open spec fn completes(cells: Seq<Option<Player>>, line: Seq<Location>, p: Player) -> bool {
    forall|a: int| 0 <= a < line.len() ==> #[trigger] occupant(cells, line[a]) == Some(p)
}

/// Whether `p` holds every cell of some straight line through the cube.
pub open spec fn has_line(cells: Seq<Option<Player>>, p: Player) -> bool {
    exists|k: int|
        0 <= k < CANDIDATES && !degenerate(k) && #[trigger] completes(cells, candidate(k), p)
}

/// The board model after `p` takes location `l`.
pub open spec fn placed(cells: Seq<Option<Player>>, p: Player, l: Location) -> Seq<Option<Player>> {
    cells.update(l.index(), Some(p))
}

/// What placing `p` at `l` reports.
pub open spec fn place_outcome(cells: Seq<Option<Player>>, p: Player, l: Location) -> Result<
    PlaceResult,
    PlaceErr,
> {
    if occupant(cells, l).is_some() {
        Err(PlaceErr::Occupied)
    } else if has_line(placed(cells, p, l), p) {
        Ok(PlaceResult::GameOver)
    } else {
        Ok(PlaceResult::Continue)
    }
}

/// The board model after an attempt to place `p` at `l`.
pub open spec fn after_place(cells: Seq<Option<Player>>, p: Player, l: Location) -> Seq<
    Option<Player>,
> {
    if occupant(cells, l).is_some() {
        cells
    } else {
        placed(cells, p, l)
    }
}

/// The 4×4×4 grid, indexed `spots[z][y][x]`.
#[derive(Debug, Clone, Copy)]
pub struct Board {
    pub spots: [[[Option<Player>; SIZE]; SIZE]; SIZE],
}

impl View for Board {
    type V = Seq<Option<Player>>;

    /// The cells in sweep order: x fastest, then y, then z.
    open spec fn view(&self) -> Seq<Option<Player>> {
        Seq::new(CELLS as nat, |i: int| self.spots[i / 16][(i / 4) % 4][i % 4])
    }
}

/// A line is completed in one direction exactly when it is in the other.
pub proof fn lemma_completes_reverse(cells: Seq<Option<Player>>, line: Seq<Location>, p: Player)
    ensures
        completes(cells, line.reverse(), p) == completes(cells, line, p),
{
    if completes(cells, line, p) {
        assert forall|a: int| 0 <= a < line.len() implies #[trigger] occupant(
            cells,
            line.reverse()[a],
        ) == Some(p) by {
            assert(line.reverse()[a] == line[line.len() - 1 - a]);
        }
    }
    if completes(cells, line.reverse(), p) {
        assert forall|a: int| 0 <= a < line.len() implies #[trigger] occupant(cells, line[a]) == Some(
            p,
        ) by {
            assert(line.reverse()[line.len() - 1 - a] == line[a]);
        }
    }
}

impl Board {
    /// An empty board.
    pub fn new() -> (r: Self)
        ensures
            forall|i: int| 0 <= i < CELLS ==> (#[trigger] r@[i]).is_none(),
    {
        Self { spots: [[[None;SIZE];SIZE];SIZE] }
    }

    /// Who holds `loc`.
    pub fn at(&self, loc: Location) -> (r: Option<Player>)
        requires
            loc.in_bounds(),
        ensures
            r == occupant(self@, loc),
    {
        proof {
            lemma_location_index(loc, 0);
        }
        self.spots[loc.z][loc.y][loc.x]
    }

    /// Whether `player` holds all four points of `line`.
    fn line_complete(&self, line: &[Location; 4], player: Player) -> (r: bool)
        requires
            forall|a: int| 0 <= a < 4 ==> (#[trigger] line@[a]).in_bounds(),
        ensures
            r == completes(self@, line@, player),
    {
        let mut a: usize = 0;
        while a < 4
            invariant
                a <= 4,
                forall|a: int| 0 <= a < 4 ==> (#[trigger] line@[a]).in_bounds(),
                forall|b: int| 0 <= b < a ==> #[trigger] occupant(self@, line@[b]) == Some(player),
            decreases 4 - a,
        {
            match self.at(line[a]) {
                Some(q) => {
                    if q != player {
                        return false;
                    }
                },
                None => {
                    return false;
                },
            }
            a += 1;
        }
        true
    }

    /// Whether `player` holds every cell of some line of `table`.
    fn has_line_on(&self, table: &LineTable, player: Player) -> (r: bool)
        requires
            table.wf(),
        ensures
            r == has_line(self@, player),
    {
        proof {
            lemma_line_table();
        }
        let mut j: usize = 0;
        while j < table.lines.len()
            invariant
                table.wf(),
                j <= table.lines@.len(),
                table.lines@.len() == LINE_COUNT,
                forall|i: int| 0 <= i < j ==> !completes(self@, #[trigger] line_table()[i], player),
            decreases table.lines@.len() - j,
        {
            proof {
                lemma_line_table();
                assert(table.lines@[j as int]@ == line_table()[j as int]);
                assert(is_line(line_table()[j as int]));
                assert forall|a: int| 0 <= a < 4 implies (
                #[trigger] table.lines@[j as int]@[a]).in_bounds() by {
                    assert(line_table()[j as int][a].in_bounds());
                }
            }
            if self.line_complete(&table.lines[j], player) {
                proof {
                    let k = choose|k: int|
                        0 <= k < CANDIDATES && !degenerate(k) && line_table()[j as int]
                            == #[trigger] candidate(k);
                    assert(completes(self@, candidate(k), player));
                }
                return true;
            }
            j += 1;
        }
        proof {
            assert forall|k: int|
                0 <= k < CANDIDATES && !degenerate(k) implies !#[trigger] completes(
                self@,
                candidate(k),
                player,
            ) by {
                assert(listed(k));
                let i = choose|i: int|
                    0 <= i < line_table().len() && (line_table()[i] == candidate(k)
                        || line_table()[i] == candidate(k).reverse());
                lemma_completes_reverse(self@, candidate(k), player);
            }
        }
        false
    }

    /// Places `player` at `loc` and reports whether that completed a line,
    /// checking the lines of `table`.
    pub fn place_with(&mut self, table: &LineTable, player: Player, loc: Location) -> (r: Result<
        PlaceResult,
        PlaceErr,
    >)
        requires
            table.wf(),
            loc.in_bounds(),
        ensures
            final(self)@ == after_place(old(self)@, player, loc),
            r == place_outcome(old(self)@, player, loc),
    {
        proof {
            lemma_location_index(loc, 0);
        }
        if self.spots[loc.z][loc.y][loc.x].is_some() {
            return Err(PlaceErr::Occupied);
        }
        self.spots[loc.z][loc.y][loc.x] = Some(player);
        proof {
            assert forall|i: int| 0 <= i < CELLS implies #[trigger] self@[i] == placed(
                old(self)@,
                player,
                loc,
            )[i] by {
                lemma_location_index(loc, i);
            }
            assert(self@ =~= placed(old(self)@, player, loc));
        }
        if self.has_line_on(table, player) {
            Ok(PlaceResult::GameOver)
        } else {
            Ok(PlaceResult::Continue)
        }
    }

    /// Places `player` at `loc` and reports whether that completed a line.
    pub fn place(&mut self, player: Player, loc: Location) -> (r: Result<PlaceResult, PlaceErr>)
        requires
            loc.in_bounds(),
        ensures
            final(self)@ == after_place(old(self)@, player, loc),
            r == place_outcome(old(self)@, player, loc),
    {
        let table = LineTable::new();
        self.place_with(&table, player, loc)
    }
}

impl Default for Board {
    fn default() -> (r: Self)
        ensures
            forall|i: int| 0 <= i < CELLS ==> (#[trigger] r@[i]).is_none(),
    {
        Self::new()
    }
}

/// Outcome of an accepted placement.
#[derive(Debug, PartialEq, Eq, Structural)]
pub enum PlaceResult {
    Continue,
    GameOver,
}

/// Why a placement was refused.
#[derive(Debug, PartialEq, Eq, Structural)]
pub enum PlaceErr {
    Occupied,
}

} // verus!

verus! {

/// Number of occupied cells among the first `n` of a board model.
pub open spec fn count_occupied(cells: Seq<Option<Player>>, n: nat) -> nat
    decreases n,
{
    if n == 0 {
        0
    } else {
        count_occupied(cells, (n - 1) as nat) + if cells[n - 1].is_some() {
            1nat
        } else {
            0nat
        }
    }
}

/// Number of occupied cells of a board model.
pub open spec fn occupied(cells: Seq<Option<Player>>) -> nat {
    count_occupied(cells, CELLS as nat)
}

/// Whether every cell of a board model is occupied.
pub open spec fn full(cells: Seq<Option<Player>>) -> bool {
    forall|i: int| 0 <= i < CELLS ==> (#[trigger] cells[i]).is_some()
}

/// Taking an empty cell adds one to the count of every prefix that holds it.
pub proof fn lemma_count_placed(cells: Seq<Option<Player>>, p: Player, l: Location, n: nat)
    requires
        l.in_bounds(),
        cells.len() == CELLS,
        n <= CELLS,
        occupant(cells, l).is_none(),
    ensures
        count_occupied(placed(cells, p, l), n) == count_occupied(cells, n) + if l.index() < n {
            1nat
        } else {
            0nat
        },
    decreases n,
{
    lemma_location_index(l, 0);
    if n > 0 {
        lemma_count_placed(cells, p, l, (n - 1) as nat);
    }
}

/// An empty board model has no occupied cell.
pub proof fn lemma_count_empty(cells: Seq<Option<Player>>, n: nat)
    requires
        n <= cells.len(),
        forall|i: int| 0 <= i < cells.len() ==> (#[trigger] cells[i]).is_none(),
    ensures
        count_occupied(cells, n) == 0,
    decreases n,
{
    if n > 0 {
        lemma_count_empty(cells, (n - 1) as nat);
    }
}

/// Whether the game in `status` accepts a move at `l` on a board model.
pub open spec fn accepts(status: GamePlayStatus, cells: Seq<Option<Player>>, l: Location) -> bool {
    match status {
        GamePlayStatus::Playing(_) => occupant(cells, l).is_none(),
        _ => false,
    }
}

/// Status and board model after a play at `l`.
pub open spec fn play_step(status: GamePlayStatus, cells: Seq<Option<Player>>, l: Location) -> (
    GamePlayStatus,
    Seq<Option<Player>>,
) {
    match status {
        GamePlayStatus::Playing(p) => if occupant(cells, l).is_some() {
            (status, cells)
        } else {
            let next = placed(cells, p, l);
            if has_line(next, p) {
                (GamePlayStatus::Win(p), next)
            } else if full(next) {
                (GamePlayStatus::Draw, next)
            } else {
                (GamePlayStatus::Playing(p.other()), next)
            }
        },
        _ => (status, cells),
    }
}

/// Status and board model after the plays `locs`, in order.
pub open spec fn replay(status: GamePlayStatus, cells: Seq<Option<Player>>, locs: Seq<Location>) -> (
    GamePlayStatus,
    Seq<Option<Player>>,
)
    decreases locs.len(),
{
    if locs.len() == 0 {
        (status, cells)
    } else {
        let (s, c) = play_step(status, cells, locs[0]);
        replay(s, c, locs.drop_first())
    }
}

/// How many of the plays `locs` are accepted.
pub open spec fn accepted_plays(
    status: GamePlayStatus,
    cells: Seq<Option<Player>>,
    locs: Seq<Location>,
) -> nat
    decreases locs.len(),
{
    if locs.len() == 0 {
        0
    } else {
        let (s, c) = play_step(status, cells, locs[0]);
        (if accepts(status, cells, locs[0]) {
            1nat
        } else {
            0nat
        }) + accepted_plays(s, c, locs.drop_first())
    }
}

/// Over any sequence of plays, the number of occupied cells grows by exactly
/// the number of accepted plays; from a new game the turn number is therefore
/// the number of accepted plays.
pub proof fn lemma_turn_counts_plays(
    status: GamePlayStatus,
    cells: Seq<Option<Player>>,
    locs: Seq<Location>,
)
    requires
        cells.len() == CELLS,
        forall|i: int| 0 <= i < locs.len() ==> (#[trigger] locs[i]).in_bounds(),
    ensures
        occupied(replay(status, cells, locs).1) == occupied(cells) + accepted_plays(
            status,
            cells,
            locs,
        ),
    decreases locs.len(),
{
    if locs.len() > 0 {
        let (s, c) = play_step(status, cells, locs[0]);
        if accepts(status, cells, locs[0]) {
            let p = status->Playing_0;
            lemma_count_placed(cells, p, locs[0], CELLS as nat);
            lemma_location_index(locs[0], 0);
        }
        assert(c.len() == CELLS);
        assert forall|i: int| 0 <= i < locs.drop_first().len() implies (
        #[trigger] locs.drop_first()[i]).in_bounds() by {
            assert(locs.drop_first()[i] == locs[i + 1]);
        }
        lemma_turn_counts_plays(s, c, locs.drop_first());
    }
}

/// Turn and outcome of a game.
#[derive(Debug, Clone, Copy, PartialEq, Eq, Structural)]
pub enum GamePlayStatus {
    Playing(Player),
    Draw,
    Win(Player),
}

/// A game: the board, whose turn it is or how it ended, and the players in
/// turn order.
#[derive(Debug, Clone)]
pub struct TTTTState {
    pub board: Board,
    pub status: GamePlayStatus,
    pub players: Vec<Player>,
}

impl Board {
    /// Whether every cell is occupied.
    fn is_full(&self) -> (r: bool)
        ensures
            r == full(self@),
    {
        let mut i: usize = 0;
        while i < CELLS
            invariant
                i <= CELLS,
                forall|j: int| 0 <= j < i ==> (#[trigger] self@[j]).is_some(),
            decreases CELLS - i,
        {
            proof {
                lemma_location_index(location_of(i as int), i as int);
            }
            let loc = Location::new(i % 4, (i / 4) % 4, i / 16);
            if self.at(loc).is_none() {
                return false;
            }
            i += 1;
        }
        true
    }

    /// Number of occupied cells.
    fn count(&self) -> (r: usize)
        ensures
            r == occupied(self@),
    {
        let mut n: usize = 0;
        let mut i: usize = 0;
        while i < CELLS
            invariant
                i <= CELLS,
                n == count_occupied(self@, i as nat),
                n <= i,
            decreases CELLS - i,
        {
            proof {
                lemma_location_index(location_of(i as int), i as int);
            }
            let loc = Location::new(i % 4, (i / 4) % 4, i / 16);
            if self.at(loc).is_some() {
                n += 1;
            }
            i += 1;
        }
        n
    }
}

impl TTTTState {
    /// A new game: empty board, player A to move.
    pub fn new() -> (r: Self)
        ensures
            forall|i: int| 0 <= i < CELLS ==> (#[trigger] r.board@[i]).is_none(),
            occupied(r.board@) == 0,
            r.status == GamePlayStatus::Playing(Player::A),
            r.players@ == seq![Player::A, Player::B],
    {
        let board = Board::new();
        proof {
            lemma_count_empty(board@, CELLS as nat);
        }
        let r = TTTTState {
            board,
            status: GamePlayStatus::Playing(Player::A),
            players: vec![Player::A, Player::B],
        };
        assert(r.players@ =~= seq![Player::A, Player::B]);
        r
    }

    /// Plays the move of the player whose turn it is at `loc`. Returns whether
    /// the move was accepted: it is refused, and nothing changes, when the cell
    /// is taken or the game is over.
    pub fn play(&mut self, loc: Location) -> (r: bool)
        requires
            loc.in_bounds(),
        ensures
            r == accepts(old(self).status, old(self).board@, loc),
            (final(self).status, final(self).board@) == play_step(
                old(self).status,
                old(self).board@,
                loc,
            ),
            final(self).players == old(self).players,
            occupied(final(self).board@) == occupied(old(self).board@) + if r {
                1nat
            } else {
                0nat
            },
    {
        match self.status {
            GamePlayStatus::Playing(player) => {
                let outcome = self.board.place(player, loc);
                proof {
                    if outcome.is_ok() {
                        lemma_count_placed(old(self).board@, player, loc, CELLS as nat);
                        lemma_location_index(loc, 0);
                    }
                }
                match outcome {
                    Ok(PlaceResult::Continue) => {
                        if self.board.is_full() {
                            self.status = GamePlayStatus::Draw;
                        } else {
                            self.status = GamePlayStatus::Playing(player.other_player());
                        }
                        true
                    },
                    Ok(PlaceResult::GameOver) => {
                        self.status = GamePlayStatus::Win(player);
                        true
                    },
                    Err(PlaceErr::Occupied) => false,
                }
            },
            GamePlayStatus::Draw => false,
            GamePlayStatus::Win(_) => false,
        }
    }

    /// The number of moves made so far: the occupied cells of the board.
    pub fn turn(&self) -> (r: usize)
        ensures
            r == occupied(self.board@),
    {
        self.board.count()
    }
}

} // verus!

verus! {

/// Whether every cell of a board model is empty.
pub open spec fn empty_board(cells: Seq<Option<Player>>) -> bool {
    cells.len() == CELLS && forall|i: int| 0 <= i < CELLS ==> (#[trigger] cells[i]).is_none()
}

/// Placing on an empty cell is accepted and leaves `p` there; a second
/// placement on that cell, by either player, is refused with `Occupied` and
/// changes nothing.
pub proof fn lemma_place_twice(cells: Seq<Option<Player>>, p: Player, q: Player, l: Location)
    requires
        cells.len() == CELLS,
        l.in_bounds(),
        occupant(cells, l).is_none(),
    ensures
        place_outcome(cells, p, l) is Ok,
        occupant(after_place(cells, p, l), l) == Some(p),
        place_outcome(after_place(cells, p, l), q, l) == Err::<PlaceResult, PlaceErr>(
            PlaceErr::Occupied,
        ),
        after_place(after_place(cells, p, l), q, l) == after_place(cells, p, l),
{
    lemma_location_index(l, 0);
}

/// No line is complete for `p` when `p` holds no cell but `a`, `b` and `c`.
pub proof fn lemma_three_cells_no_line(
    cells: Seq<Option<Player>>,
    p: Player,
    a: Location,
    b: Location,
    c: Location,
)
    requires
        forall|l: Location|
            l.in_bounds() && #[trigger] occupant(cells, l) == Some(p) ==> l == a || l == b || l
                == c,
    ensures
        !has_line(cells, p),
{
    assert forall|k: int| 0 <= k < CANDIDATES && !degenerate(k) implies !#[trigger] completes(
        cells,
        candidate(k),
        p,
    ) by {
        lines::lemma_candidate_distinct(k);
        let s = candidate(k);
        if completes(cells, s, p) {
            assert(occupant(cells, s[0]) == Some(p));
            assert(occupant(cells, s[1]) == Some(p));
            assert(occupant(cells, s[2]) == Some(p));
            assert(occupant(cells, s[3]) == Some(p));
            assert(s[0].in_bounds() && s[1].in_bounds() && s[2].in_bounds() && s[3].in_bounds());
        }
    }
}

/// The cells that `p` holds after placements are those it held, and `l` if
/// the placement was its own.
proof fn lemma_placed_occupant(cells: Seq<Option<Player>>, p: Player, l: Location, m: Location)
    requires
        cells.len() == CELLS,
        l.in_bounds(),
        m.in_bounds(),
    ensures
        occupant(placed(cells, p, l), m) == if m == l {
            Some(p)
        } else {
            occupant(cells, m)
        },
{
    lemma_location_index(l, 0);
    lemma_location_index(m, 0);
    if m != l {
        assert(location_of(m.index()) != location_of(l.index()));
    }
}

/// The board model after `p0`, `p1`, `p2` and `p3` take the points of line
/// `i` of the table, in order, starting from `cells`; `n` says how many of the
/// four placements have been made.
pub open spec fn fill_line(
    cells: Seq<Option<Player>>,
    i: int,
    players: Seq<Player>,
    n: nat,
) -> Seq<Option<Player>>
    decreases n,
{
    if n == 0 {
        cells
    } else {
        let prev = fill_line(cells, i, players, (n - 1) as nat);
        after_place(prev, players[n - 1], line_table()[i][n - 1])
    }
}

/// The points of line `i` of the table: four distinct cells of a straight line.
proof fn lemma_line_points(i: int)
    requires
        0 <= i < LINE_COUNT,
    ensures
        line_table()[i].len() == 4,
        is_line(line_table()[i]),
        forall|a: int| 0 <= a < 4 ==> (#[trigger] line_table()[i][a]).in_bounds(),
        forall|a: int, b: int|
            0 <= a < b < 4 ==> #[trigger] line_table()[i][a] != #[trigger] line_table()[i][b],
{
    lemma_line_table();
}

/// Who holds each cell after the first `n` placements along line `i` from an
/// empty board.
proof fn lemma_fill_line(cells: Seq<Option<Player>>, i: int, players: Seq<Player>, n: nat)
    requires
        empty_board(cells),
        0 <= i < LINE_COUNT,
        n <= 4,
        players.len() == 4,
    ensures
        fill_line(cells, i, players, n).len() == CELLS,
        forall|j: int|
            0 <= j < n ==> occupant(fill_line(cells, i, players, n), #[trigger] line_table()[i][j])
                == Some(players[j]),
        forall|m: Location|
            m.in_bounds() && (forall|j: int| 0 <= j < n ==> line_table()[i][j] != m) ==> (
            #[trigger] occupant(fill_line(cells, i, players, n), m)).is_none(),
    decreases n,
{
    lemma_line_points(i);
    if n == 0 {
        assert forall|m: Location| m.in_bounds() implies (#[trigger] occupant(cells, m)).is_none() by {
            lemma_location_index(m, 0);
        }
    } else {
        lemma_fill_line(cells, i, players, (n - 1) as nat);
        let prev = fill_line(cells, i, players, (n - 1) as nat);
        let l = line_table()[i][n - 1];
        let next = fill_line(cells, i, players, n);
        lemma_location_index(l, 0);
        assert(occupant(prev, l).is_none());
        assert(next == placed(prev, players[n - 1], l));
        assert forall|j: int| 0 <= j < n implies occupant(next, #[trigger] line_table()[i][j])
            == Some(players[j]) by {
            lemma_placed_occupant(prev, players[n - 1], l, line_table()[i][j]);
        }
        assert forall|m: Location|
            m.in_bounds() && (forall|j: int| 0 <= j < n ==> line_table()[i][j] != m) implies (
            #[trigger] occupant(next, m)).is_none() by {
            lemma_placed_occupant(prev, players[n - 1], l, m);
        }
    }
}

/// Four placements by the same player.
pub open spec fn four_of(p: Player) -> Seq<Player> {
    seq![p, p, p, p]
}

/// Each placement along a line of the table from an empty board lands on an
/// empty cell.
proof fn lemma_fill_step(cells: Seq<Option<Player>>, i: int, players: Seq<Player>, n: nat)
    requires
        empty_board(cells),
        0 <= i < LINE_COUNT,
        n < 4,
        players.len() == 4,
    ensures
        occupant(fill_line(cells, i, players, n), line_table()[i][n as int]).is_none(),
        placed(fill_line(cells, i, players, n), players[n as int], line_table()[i][n as int])
            == fill_line(cells, i, players, n + 1),
        line_table()[i][n as int].in_bounds(),
{
    lemma_line_points(i);
    lemma_fill_line(cells, i, players, n);
    let l = line_table()[i][n as int];
    assert forall|j: int| 0 <= j < n implies line_table()[i][j] != l by {
        assert(line_table()[i][j] != line_table()[i][n as int]);
    }
}

/// From an empty board, one player placing on the four points of a line of the
/// table, in order, is told `Continue` three times and `GameOver` on the fourth.
pub proof fn lemma_fourth_piece_wins(cells: Seq<Option<Player>>, i: int, p: Player)
    requires
        empty_board(cells),
        0 <= i < LINE_COUNT,
    ensures
        forall|n: nat|
            n < 3 ==> place_outcome(
                #[trigger] fill_line(cells, i, four_of(p), n),
                p,
                line_table()[i][n as int],
            ) == Ok::<PlaceResult, PlaceErr>(PlaceResult::Continue),
        place_outcome(fill_line(cells, i, four_of(p), 3), p, line_table()[i][3])
            == Ok::<PlaceResult, PlaceErr>(PlaceResult::GameOver),
{
    let players = four_of(p);
    lemma_line_points(i);
    let line = line_table()[i];
    assert forall|n: nat| n < 3 implies place_outcome(
        #[trigger] fill_line(cells, i, players, n),
        p,
        line_table()[i][n as int],
    ) == Ok::<PlaceResult, PlaceErr>(PlaceResult::Continue) by {
        lemma_fill_step(cells, i, players, n);
        lemma_fill_line(cells, i, players, n + 1);
        lemma_three_cells_no_line(fill_line(cells, i, players, n + 1), p, line[0], line[1], line[2]);
    }
    lemma_fill_step(cells, i, players, 3);
    lemma_fill_line(cells, i, players, 4);
    let done = fill_line(cells, i, players, 4);
    assert forall|a: int| 0 <= a < line.len() implies #[trigger] occupant(done, line[a]) == Some(p) by {
        assert(occupant(done, line_table()[i][a]) == Some(players[a]));
    }
    assert(is_line(line));
    let k = choose|k: int| 0 <= k < CANDIDATES && !degenerate(k) && line == #[trigger] candidate(k);
    assert(completes(done, candidate(k), p));
}

/// One step of placements along a line with players that are not all the same.
proof fn lemma_mixed_step(cells: Seq<Option<Player>>, i: int, players: Seq<Player>, n: nat)
    requires
        empty_board(cells),
        0 <= i < LINE_COUNT,
        players.len() == 4,
        !(players[0] == players[1] && players[1] == players[2] && players[2] == players[3]),
        n < 4,
    ensures
        place_outcome(fill_line(cells, i, players, n), players[n as int], line_table()[i][n as int])
            == Ok::<PlaceResult, PlaceErr>(PlaceResult::Continue),
{
    lemma_line_points(i);
    let line = line_table()[i];
    let q = players[n as int];
    lemma_fill_step(cells, i, players, n);
    lemma_fill_line(cells, i, players, n + 1);
    let next = fill_line(cells, i, players, n + 1);
    // the three points other than one that `q` does not hold
    let skip: int = if n < 3 {
        3
    } else if players[0] != q {
        0
    } else if players[1] != q {
        1
    } else {
        2
    };
    let others = if skip == 0 {
        (line[1], line[2], line[3])
    } else if skip == 1 {
        (line[0], line[2], line[3])
    } else if skip == 2 {
        (line[0], line[1], line[3])
    } else {
        (line[0], line[1], line[2])
    };
    assert forall|m: Location| m.in_bounds() && #[trigger] occupant(next, m) == Some(q) implies m
        == others.0 || m == others.1 || m == others.2 by {
        if forall|j: int| 0 <= j < n + 1 ==> line_table()[i][j] != m {
        } else {
            let j = choose|j: int| 0 <= j < n + 1 && line_table()[i][j] == m;
            assert(occupant(next, line_table()[i][j]) == Some(players[j]));
        }
    }
    lemma_three_cells_no_line(next, q, others.0, others.1, others.2);
}

/// From an empty board, placing on the four points of a line of the table
/// with players that are not all the same is told `Continue` every time.
pub proof fn lemma_mixed_line_continues(cells: Seq<Option<Player>>, i: int, players: Seq<Player>)
    requires
        empty_board(cells),
        0 <= i < LINE_COUNT,
        players.len() == 4,
        !(players[0] == players[1] && players[1] == players[2] && players[2] == players[3]),
    ensures
        forall|n: nat|
            n < 4 ==> place_outcome(
                #[trigger] fill_line(cells, i, players, n),
                players[n as int],
                line_table()[i][n as int],
            ) == Ok::<PlaceResult, PlaceErr>(PlaceResult::Continue),
{
    assert forall|n: nat| n < 4 implies place_outcome(
        #[trigger] fill_line(cells, i, players, n),
        players[n as int],
        line_table()[i][n as int],
    ) == Ok::<PlaceResult, PlaceErr>(PlaceResult::Continue) by {
        lemma_mixed_step(cells, i, players, n);
    }
}

} // verus!
