use vstd::prelude::*;
use crate::common::{Location, SIZE};

verus! {

/// Number of ways one coordinate can move along a line: the four constants,
/// forward (`i`) and backward (`3 - i`).
pub const AXIS_FUNCTIONS: usize = 6;

/// Number of candidate lines: one axis function for each of the three coordinates.
pub const CANDIDATES: usize = 216;

/// Number of distinct winning lines in the cube.
pub const LINE_COUNT: usize = 76;

/// Four cells in traversal order.
pub type Line = [Location; 4];

/// The coordinate that axis function `f` gives at step `i`.
pub open spec fn axis_spec(f: int, i: int) -> int {
    if f < 4 {
        f
    } else if f == 4 {
        i
    } else {
        3 - i
    }
}

/// The axis function that visits the same coordinates in the opposite order.
pub open spec fn reverse_axis(f: int) -> int {
    if f == 4 {
        5
    } else if f == 5 {
        4
    } else {
        f
    }
}

/// Axis function of candidate `k` for x.
pub open spec fn fn_x(k: int) -> int {
    k / 36
}

/// Axis function of candidate `k` for y.
pub open spec fn fn_y(k: int) -> int {
    (k / 6) % 6
}

/// Axis function of candidate `k` for z.
pub open spec fn fn_z(k: int) -> int {
    k % 6
}

/// The index of the candidate built from the three given axis functions.
pub open spec fn candidate_index(a: int, b: int, c: int) -> int {
    36 * a + 6 * b + c
}

/// Point `i` of candidate `k`.
pub open spec fn candidate_point(k: int, i: int) -> Location {
    Location {
        x: axis_spec(fn_x(k), i) as usize,
        y: axis_spec(fn_y(k), i) as usize,
        z: axis_spec(fn_z(k), i) as usize,
    }
}

/// The four points of candidate `k`.
pub open spec fn candidate(k: int) -> Seq<Location> {
    Seq::new(4, |i: int| candidate_point(k, i))
}

/// A candidate all of whose axis functions are constant: one point four times.
pub open spec fn degenerate(k: int) -> bool {
    fn_x(k) < 4 && fn_y(k) < 4 && fn_z(k) < 4
}

/// The candidate that traverses candidate `k` backwards.
pub open spec fn reverse_candidate(k: int) -> int {
    candidate_index(reverse_axis(fn_x(k)), reverse_axis(fn_y(k)), reverse_axis(fn_z(k)))
}

/// Whether the construction keeps candidate `k`: it is a real line, and its
/// reverse comes later in the enumeration.
pub open spec fn kept(k: int) -> bool {
    !degenerate(k) && k < reverse_candidate(k)
}

/// Indices of the kept candidates among the first `n`, in enumeration order.
pub open spec fn kept_candidates(n: nat) -> Seq<int>
    decreases n,
{
    if n == 0 {
        seq![]
    } else if kept(n - 1) {
        kept_candidates((n - 1) as nat).push(n - 1)
    } else {
        kept_candidates((n - 1) as nat)
    }
}

/// Lines kept among the first `n` candidates.
pub open spec fn table_prefix(n: nat) -> Seq<Seq<Location>> {
    kept_candidates(n).map_values(|k: int| candidate(k))
}

/// The table of winning lines.
pub open spec fn line_table() -> Seq<Seq<Location>> {
    table_prefix(CANDIDATES as nat)
}

/// Whether `s` is a straight line of four distinct cells through the cube.
pub open spec fn is_line(s: Seq<Location>) -> bool {
    exists|k: int| 0 <= k < CANDIDATES && !degenerate(k) && s == #[trigger] candidate(k)
}

/// Splits a candidate index into its three axis functions.
pub proof fn lemma_candidate_split(k: int)
    requires
        0 <= k < CANDIDATES,
    ensures
        0 <= fn_x(k) < 6,
        0 <= fn_y(k) < 6,
        0 <= fn_z(k) < 6,
        k == candidate_index(fn_x(k), fn_y(k), fn_z(k)),
{
}

/// Recovers the axis functions from a candidate index.
pub proof fn lemma_candidate_join(a: int, b: int, c: int)
    requires
        0 <= a < 6,
        0 <= b < 6,
        0 <= c < 6,
    ensures
        0 <= candidate_index(a, b, c) < CANDIDATES,
        fn_x(candidate_index(a, b, c)) == a,
        fn_y(candidate_index(a, b, c)) == b,
        fn_z(candidate_index(a, b, c)) == c,
{
}

/// Different candidates visit different point sequences.
pub proof fn lemma_candidate_injective(a: int, b: int)
    requires
        0 <= a < CANDIDATES,
        0 <= b < CANDIDATES,
        candidate(a) == candidate(b),
    ensures
        a == b,
{
    lemma_candidate_split(a);
    lemma_candidate_split(b);
    let first = (candidate_point(a, 0), candidate_point(b, 0));
    let last = (candidate_point(a, 3), candidate_point(b, 3));
    assert(candidate(a)[0] == first.0 && candidate(b)[0] == first.1);
    assert(candidate(a)[3] == last.0 && candidate(b)[3] == last.1);
    assert(first.0 == first.1 && last.0 == last.1);
    lemma_axis_determined(fn_x(a), fn_x(b));
    lemma_axis_determined(fn_y(a), fn_y(b));
    lemma_axis_determined(fn_z(a), fn_z(b));
}

/// An axis function is determined by its first and last coordinates.
proof fn lemma_axis_determined(f: int, g: int)
    requires
        0 <= f < 6,
        0 <= g < 6,
    ensures
        (axis_spec(f, 0) as usize == axis_spec(g, 0) as usize && axis_spec(f, 3) as usize
            == axis_spec(g, 3) as usize) ==> f == g,
{
}

/// Reversing the axis functions reverses the candidate.
pub proof fn lemma_reverse_candidate(k: int)
    requires
        0 <= k < CANDIDATES,
    ensures
        0 <= reverse_candidate(k) < CANDIDATES,
        candidate(reverse_candidate(k)) == candidate(k).reverse(),
        reverse_candidate(reverse_candidate(k)) == k,
        degenerate(reverse_candidate(k)) == degenerate(k),
        !degenerate(k) ==> reverse_candidate(k) != k,
{
    lemma_candidate_split(k);
    lemma_candidate_join(reverse_axis(fn_x(k)), reverse_axis(fn_y(k)), reverse_axis(fn_z(k)));
    let r = reverse_candidate(k);
    lemma_candidate_join(reverse_axis(fn_x(r)), reverse_axis(fn_y(r)), reverse_axis(fn_z(r)));
    assert(candidate(r) =~= candidate(k).reverse());
}

/// A candidate has four distinct points exactly when it is not degenerate.
pub proof fn lemma_candidate_distinct(k: int)
    requires
        0 <= k < CANDIDATES,
    ensures
        !degenerate(k) <==> (forall|i: int, j: int|
            0 <= i < j < 4 ==> candidate(k)[i] != candidate(k)[j]),
        forall|i: int| 0 <= i < 4 ==> (#[trigger] candidate(k)[i]).in_bounds(),
{
    lemma_candidate_split(k);
    if degenerate(k) {
        assert(candidate(k)[0] == candidate(k)[1]);
    }
}

/// Number of kept candidates among the first `n`.
pub open spec fn kept_count(n: nat) -> nat
    decreases n,
{
    if n == 0 {
        0
    } else {
        kept_count((n - 1) as nat) + if kept(n - 1) {
            1nat
        } else {
            0nat
        }
    }
}

/// The kept indices are increasing, each below `n`, and every kept index below
/// `n` is among them.
pub proof fn lemma_kept_candidates(n: nat)
    ensures
        kept_candidates(n).len() == kept_count(n),
        forall|j: int|
            0 <= j < kept_candidates(n).len() ==> 0 <= #[trigger] kept_candidates(n)[j] < n
                && kept(kept_candidates(n)[j]),
        forall|i: int, j: int|
            0 <= i < j < kept_candidates(n).len() ==> kept_candidates(n)[i]
                < kept_candidates(n)[j],
        forall|m: int| 0 <= m < n && #[trigger] kept(m) ==> kept_candidates(n).contains(m),
    decreases n,
{
    if n > 0 {
        lemma_kept_candidates((n - 1) as nat);
        let prev = kept_candidates((n - 1) as nat);
        assert forall|m: int| 0 <= m < n && #[trigger] kept(m) implies kept_candidates(
            n,
        ).contains(m) by {
            if m < n - 1 {
                let j = choose|j: int| 0 <= j < prev.len() && prev[j] == m;
                if kept(n - 1) {
                    assert(kept_candidates(n)[j] == m);
                } else {
                    assert(kept_candidates(n)[j] == m);
                }
            } else {
                assert(kept_candidates(n)[kept_candidates(n).len() - 1] == m);
            }
        }
    }
}

/// Exactly this many candidates are kept.
#[verifier::rlimit(100)]
#[verifier::spinoff_prover]
proof fn lemma_kept_count()
    ensures
        kept_count(CANDIDATES as nat) == LINE_COUNT,
{
    assert(kept_count(18) == 3) by {
        reveal_with_fuel(kept_count, 19);
    }
    assert(kept_count(36) == 10) by {
        reveal_with_fuel(kept_count, 19);
    }
    assert(kept_count(54) == 13) by {
        reveal_with_fuel(kept_count, 19);
    }
    assert(kept_count(72) == 20) by {
        reveal_with_fuel(kept_count, 19);
    }
    assert(kept_count(90) == 23) by {
        reveal_with_fuel(kept_count, 19);
    }
    assert(kept_count(108) == 30) by {
        reveal_with_fuel(kept_count, 19);
    }
    assert(kept_count(126) == 33) by {
        reveal_with_fuel(kept_count, 19);
    }
    assert(kept_count(144) == 40) by {
        reveal_with_fuel(kept_count, 19);
    }
    assert(kept_count(162) == 58) by {
        reveal_with_fuel(kept_count, 19);
    }
    assert(kept_count(180) == 76) by {
        reveal_with_fuel(kept_count, 19);
    }
    assert(kept_count(198) == 76) by {
        reveal_with_fuel(kept_count, 19);
    }
    assert(kept_count(216) == 76) by {
        reveal_with_fuel(kept_count, 19);
    }
}

/// Whether candidate `k` occurs in the line table in one of its two directions.
pub open spec fn listed(k: int) -> bool {
    exists|i: int|
        0 <= i < line_table().len() && (line_table()[i] == candidate(k) || line_table()[i]
            == candidate(k).reverse())
}

/// The line table has exactly 76 entries, each a straight line of four distinct
/// cells inside the cube; no line occurs twice, forwards or backwards; and every
/// straight line through the cube occurs in one of its two directions.
pub proof fn lemma_line_table()
    ensures
        line_table().len() == LINE_COUNT,
        forall|i: int|
            0 <= i < LINE_COUNT ==> (#[trigger] line_table()[i]).len() == 4 && is_line(
                line_table()[i],
            ),
        forall|i: int, a: int|
            0 <= i < LINE_COUNT && 0 <= a < 4 ==> (#[trigger] line_table()[i][a]).in_bounds(),
        forall|i: int, a: int, b: int|
            0 <= i < LINE_COUNT && 0 <= a < b < 4 ==> #[trigger] line_table()[i][a]
                != #[trigger] line_table()[i][b],
        forall|i: int, j: int|
            0 <= i < j < LINE_COUNT ==> #[trigger] line_table()[i] != #[trigger] line_table()[j]
                && line_table()[i] != line_table()[j].reverse(),
        forall|k: int| 0 <= k < CANDIDATES && !degenerate(k) ==> #[trigger] listed(k),
{
    let kc = kept_candidates(CANDIDATES as nat);
    let t = line_table();
    lemma_kept_candidates(CANDIDATES as nat);
    lemma_kept_count();
    assert forall|i: int| 0 <= i < LINE_COUNT implies (#[trigger] t[i]).len() == 4 && is_line(
        t[i],
    ) && (forall|a: int, b: int| 0 <= a < b < 4 ==> t[i][a] != t[i][b]) && (forall|a: int|
        0 <= a < 4 ==> t[i][a].in_bounds()) by {
        assert(t[i] == candidate(kc[i]));
        lemma_candidate_distinct(kc[i]);
    }
    assert forall|i: int, j: int| 0 <= i < j < LINE_COUNT implies #[trigger] t[i] != #[trigger] t[j]
        && t[i] != t[j].reverse() by {
        assert(t[i] == candidate(kc[i]));
        assert(t[j] == candidate(kc[j]));
        if t[i] == t[j] {
            lemma_candidate_injective(kc[i], kc[j]);
        }
        lemma_reverse_candidate(kc[j]);
        if t[i] == t[j].reverse() {
            lemma_candidate_injective(kc[i], reverse_candidate(kc[j]));
        }
    }
    assert forall|k: int| 0 <= k < CANDIDATES && !degenerate(k) implies #[trigger] listed(k) by {
        lemma_reverse_candidate(k);
        if kept(k) {
            assert(kc.contains(k));
            let i = choose|i: int| 0 <= i < kc.len() && kc[i] == k;
            assert(t[i] == candidate(k));
        } else {
            let r = reverse_candidate(k);
            assert(kept(r));
            assert(kc.contains(r));
            let i = choose|i: int| 0 <= i < kc.len() && kc[i] == r;
            assert(t[i] == candidate(k).reverse());
        }
    }
}

/// While the table is built, the reverse of a real line has been kept already
/// exactly when that line is not to be kept.
proof fn lemma_reverse_seen(k: int)
    requires
        0 <= k < CANDIDATES,
        !degenerate(k),
    ensures
        (exists|j: int|
            0 <= j < table_prefix(k as nat).len() && #[trigger] table_prefix(k as nat)[j]
                == candidate(k).reverse()) <==> !kept(k),
{
    let kc = kept_candidates(k as nat);
    let t = table_prefix(k as nat);
    let r = reverse_candidate(k);
    lemma_kept_candidates(k as nat);
    lemma_reverse_candidate(k);
    lemma_reverse_candidate(r);
    if kept(k) {
        assert forall|j: int| 0 <= j < t.len() implies #[trigger] t[j] != candidate(k).reverse() by {
            if t[j] == candidate(k).reverse() {
                lemma_candidate_injective(kc[j], r);
            }
        }
    } else {
        assert(r < k);
        assert(kept(r));
        assert(kc.contains(r));
        let j = choose|j: int| 0 <= j < kc.len() && kc[j] == r;
        assert(t[j] == candidate(k).reverse());
    }
}

/// The coordinate that axis function `f` gives at step `i`.
fn axis(f: usize, i: usize) -> (r: usize)
    requires
        f < AXIS_FUNCTIONS,
        i < SIZE,
    ensures
        r == axis_spec(f as int, i as int),
{
    if f < SIZE {
        f
    } else if f == SIZE {
        i
    } else {
        SIZE - 1 - i
    }
}

/// The four points of candidate `k`.
fn candidate_line(k: usize) -> (r: Line)
    requires
        k < CANDIDATES,
    ensures
        r@ == candidate(k as int),
{
    let fx = k / 36;
    let fy = (k / 6) % 6;
    let fz = k % 6;
    let r = [
        Location::new(axis(fx, 0), axis(fy, 0), axis(fz, 0)),
        Location::new(axis(fx, 1), axis(fy, 1), axis(fz, 1)),
        Location::new(axis(fx, 2), axis(fy, 2), axis(fz, 2)),
        Location::new(axis(fx, 3), axis(fy, 3), axis(fz, 3)),
    ];
    assert(r@ =~= candidate(k as int));
    r
}

/// Whether the four points of `l` are pairwise different.
fn points_distinct(l: &Line) -> (r: bool)
    ensures
        r == (forall|a: int, b: int| 0 <= a < b < 4 ==> l@[a] != l@[b]),
{
    let mut a: usize = 0;
    while a < 4
        invariant
            a <= 4,
            forall|i: int, j: int| 0 <= i < j < 4 && i < a ==> l@[i] != l@[j],
        decreases 4 - a,
    {
        let mut b: usize = a + 1;
        while b < 4
            invariant
                a < 4,
                a < b <= 4,
                forall|i: int, j: int| 0 <= i < j < 4 && i < a ==> l@[i] != l@[j],
                forall|j: int| a < j < b ==> l@[a as int] != l@[j],
            decreases 4 - b,
        {
            if l[a] == l[b] {
                return false;
            }
            b += 1;
        }
        a += 1;
    }
    true
}

/// Whether two lines visit the same points in the same order.
fn same_line(l: &Line, m: &Line) -> (r: bool)
    ensures
        r == (l@ == m@),
{
    let r = l[0] == m[0] && l[1] == m[1] && l[2] == m[2] && l[3] == m[3];
    if r {
        assert(l@ =~= m@);
    }
    r
}

/// Whether `l` occurs in `lines`.
fn contains_line(lines: &Vec<Line>, l: &Line) -> (r: bool)
    ensures
        r == (exists|j: int| 0 <= j < lines@.len() && #[trigger] lines@[j]@ == l@),
{
    let mut j: usize = 0;
    while j < lines.len()
        invariant
            j <= lines@.len(),
            forall|i: int| 0 <= i < j ==> #[trigger] lines@[i]@ != l@,
        decreases lines@.len() - j,
    {
        if same_line(&lines[j], l) {
            return true;
        }
        j += 1;
    }
    false
}

/// The winning lines, built once and shared by every board and search.
pub struct LineTable {
    pub lines: Vec<Line>,
}

impl LineTable {
    /// The table as sequences of points.
    pub open spec fn view_lines(&self) -> Seq<Seq<Location>> {
        self.lines@.map_values(|l: Line| l@)
    }

    /// The table holds exactly the constructed winning lines.
    pub open spec fn wf(&self) -> bool {
        self.view_lines() == line_table()
    }

    /// Builds the table: every choice of one axis function per coordinate gives a
    /// candidate; candidates with repeated points are dropped, and so is each
    /// candidate whose reverse is already in the table.
    pub fn new() -> (r: LineTable)
        ensures
            r.wf(),
    {
        let mut lines: Vec<Line> = Vec::new();
        let mut k: usize = 0;
        while k < CANDIDATES
            invariant
                k <= CANDIDATES,
                lines@.map_values(|l: Line| l@) == table_prefix(k as nat),
            decreases CANDIDATES - k,
        {
            let cand = candidate_line(k);
            let ghost before = lines@;
            proof {
                lemma_candidate_distinct(k as int);
            }
            if points_distinct(&cand) {
                let reversed: Line = [cand[3], cand[2], cand[1], cand[0]];
                assert(reversed@ =~= cand@.reverse());
                let seen = contains_line(&lines, &reversed);
                proof {
                    lemma_reverse_seen(k as int);
                    let t = table_prefix(k as nat);
                    if seen {
                        let j = choose|j: int| 0 <= j < lines@.len() && #[trigger] lines@[j]@ == reversed@;
                        assert(t[j] == candidate(k as int).reverse());
                    } else {
                        assert forall|j: int| 0 <= j < t.len() implies #[trigger] t[j]
                            != candidate(k as int).reverse() by {
                            assert(t[j] == lines@[j]@);
                        }
                    }
                }
                if !seen {
                    lines.push(cand);
                }
            }
            proof {
                let kc = kept_candidates(k as nat);
                if kept(k as int) {
                    assert(kept_candidates((k + 1) as nat) == kc.push(k as int));
                    assert(lines@ == before.push(cand));
                    let t0 = table_prefix(k as nat);
                    let t1 = table_prefix((k + 1) as nat);
                    let v = lines@.map_values(|l: Line| l@);
                    assert(t1.len() == t0.len() + 1);
                    assert forall|j: int| 0 <= j < t1.len() implies v[j] == t1[j] by {
                        if j < t0.len() {
                            assert(v[j] == before[j]@);
                            assert(t0[j] == candidate(kc[j]));
                        }
                    }
                    assert(v =~= t1);
                } else {
                    assert(kept_candidates((k + 1) as nat) == kc);
                    assert(lines@ == before);
                }
            }
            k += 1;
        }
        LineTable { lines }
    }
}

} // verus!
