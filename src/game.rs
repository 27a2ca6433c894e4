use crate::topology::{
    lemma_units_partition, in_unit, is_peer, lemma_index_square, lemma_peer_unit, lemma_pos_in_unit, lemma_square_index,
    lemma_unit_of, lemma_unit_square, pos_in_unit, sq_index, sq_valid, square_at, unit_of,
    unit_square, GameSetup, SudokuSquare,
};
use vstd::prelude::*;
use vstd::string::StrSliceExecFns;

verus! {

/// The one way a board state can fail: a square or a unit has no place left
/// for a digit.
#[derive(Debug, Clone, Copy, PartialEq, Eq, Structural)]
pub enum SudokuError {
    NoRemainingValues,
}

/// Where a digit can still go inside a unit.
pub enum SudokuResult {
    /// Exactly one square of the unit admits the digit.
    OneCandidate(SudokuSquare),
    /// Two or more squares admit it; they are listed in unit order.
    MultipleCandidates(Vec<SudokuSquare>),
}

/// The candidate digits of one square: entry `k` stands for the digit `k + 1`.
pub type Candidates = [bool; 9];

/// Number of candidates among the first `i` entries.
pub open spec fn cnt(a: Seq<bool>, i: int) -> nat
    decreases i,
{
    if i <= 0 {
        0
    } else {
        cnt(a, i - 1) + if a[i - 1] {
            1nat
        } else {
            0nat
        }
    }
}

/// Number of candidates left on the first `n` squares.
pub open spec fn total(m: Seq<Candidates>, n: int) -> nat
    decreases n,
{
    if n <= 0 {
        0
    } else {
        total(m, n - 1) + cnt(m[n - 1]@, 9)
    }
}

/// The digit index that the character `c` names.
pub open spec fn digit_of(c: char) -> int {
    c as int - '1' as int
}

pub open spec fn is_digit(c: char) -> bool {
    '1' <= c <= '9'
}

/// Every square of the board still has a candidate.
pub open spec fn board_ok(m: Seq<Candidates>) -> bool {
    &&& m.len() == 81
    &&& forall|n: int| 0 <= n < 81 ==> cnt(#[trigger] m[n]@, 9) > 0
}

/// No square of `m2` has a candidate that it lacks in `m1`.
pub open spec fn shrinks(m2: Seq<Candidates>, m1: Seq<Candidates>) -> bool {
    &&& m2.len() == m1.len()
    &&& forall|n: int, k: int| 0 <= n < m1.len() && 0 <= k < 9 && #[trigger] m2[n]@[k] ==> m1[n]@[k]
}

/// A filled grid, as digit indices in row-major order, that fits the candidates.
pub open spec fn within(g: Seq<int>, m: Seq<Candidates>) -> bool {
    &&& g.len() == 81
    &&& m.len() == 81
    &&& forall|n: int| 0 <= n < 81 ==> 0 <= #[trigger] g[n] < 9 && m[n]@[g[n]]
}

/// A filled grid in which every unit holds each digit exactly once.
pub open spec fn valid_grid(g: Seq<int>) -> bool {
    &&& g.len() == 81
    &&& forall|n: int| 0 <= n < 81 ==> 0 <= #[trigger] g[n] < 9
    &&& forall|u: int, i: int, j: int|
        0 <= u < 27 && 0 <= i < 9 && 0 <= j < 9 && i != j ==> #[trigger] g[sq_index(unit_square(u, i))]
            != #[trigger] g[sq_index(unit_square(u, j))]
    &&& forall|u: int, k: int|
        0 <= u < 27 && 0 <= k < 9 ==> #[trigger] unit_has_digit(g, u, k)
}

pub open spec fn unit_has_digit(g: Seq<int>, u: int, k: int) -> bool {
    exists|i: int| 0 <= i < 9 && g[sq_index(unit_square(u, i))] == k
}

/// A candidate of each square: on a board where every square has exactly
/// one, the grid that those candidates spell.
pub open spec fn solution_of(m: Seq<Candidates>) -> Seq<int> {
    Seq::new(81, |n: int| choose|k: int| 0 <= k < 9 && m[n]@[k])
}

/// Every square has exactly one candidate and these form a valid grid.
pub open spec fn solved(m: Seq<Candidates>) -> bool {
    &&& m.len() == 81
    &&& forall|n: int| 0 <= n < 81 ==> cnt(#[trigger] m[n]@, 9) == 1
    &&& valid_grid(solution_of(m))
}

pub proof fn lemma_cnt_zero(a: Seq<bool>, i: int)
    requires
        0 <= i <= a.len(),
    ensures
        cnt(a, i) == 0 <==> forall|x: int| 0 <= x < i ==> !a[x],
    decreases i,
{
    if i > 0 {
        lemma_cnt_zero(a, i - 1);
    }
}

pub proof fn lemma_cnt_one(a: Seq<bool>, i: int, e: int)
    requires
        0 <= e < i <= a.len(),
        a[e],
    ensures
        cnt(a, i) == 1 <==> forall|x: int| 0 <= x < i && x != e ==> !a[x],
    decreases i,
{
    if e < i - 1 {
        lemma_cnt_one(a, i - 1, e);
        lemma_cnt_zero(a, i - 1);
    } else {
        lemma_cnt_zero(a, i - 1);
    }
}

pub proof fn lemma_cnt_mono(a: Seq<bool>, b: Seq<bool>, i: int)
    requires
        0 <= i <= a.len(),
        a.len() == b.len(),
        forall|x: int| 0 <= x < i && #[trigger] a[x] ==> b[x],
    ensures
        cnt(a, i) <= cnt(b, i),
        (exists|x: int| 0 <= x < i && b[x] && !a[x]) ==> cnt(a, i) < cnt(b, i),
    decreases i,
{
    if i > 0 {
        lemma_cnt_mono(a, b, i - 1);
    }
}

pub proof fn lemma_total_mono(m2: Seq<Candidates>, m1: Seq<Candidates>, n: int)
    requires
        shrinks(m2, m1),
        0 <= n <= m1.len(),
    ensures
        total(m2, n) <= total(m1, n),
        (exists|p: int, k: int| 0 <= p < n && 0 <= k < 9 && m1[p]@[k] && !m2[p]@[k]) ==> total(m2, n)
            < total(m1, n),
    decreases n,
{
    if n > 0 {
        lemma_total_mono(m2, m1, n - 1);
        lemma_cnt_mono(m2[n - 1]@, m1[n - 1]@, 9);
    }
}

/// Two peers differ in every valid grid.
pub proof fn lemma_valid_peers(g: Seq<int>, a: SudokuSquare, b: SudokuSquare)
    requires
        valid_grid(g),
        sq_valid(a),
        sq_valid(b),
        is_peer(a, b),
    ensures
        g[sq_index(a)] != g[sq_index(b)],
{
    lemma_peer_unit(a, b);
    lemma_unit_of(a, 0);
    let j: int = if in_unit(unit_of(a, 0), b) {
        0
    } else if in_unit(unit_of(a, 1), b) {
        1
    } else {
        2
    };
    let u = unit_of(a, j);
    lemma_pos_in_unit(u, a);
    lemma_pos_in_unit(u, b);
    assert(g[sq_index(unit_square(u, pos_in_unit(u, a)))] != g[sq_index(
        unit_square(u, pos_in_unit(u, b)),
    )]);
}

/// Number of candidates of one square.
fn count_candidates(a: &Candidates) -> (r: usize)
    ensures
        r == cnt(a@, 9),
        r <= 9,
{
    let mut r: usize = 0;
    let mut i: usize = 0;
    while i < 9
        invariant
            i <= 9,
            r == cnt(a@, i as int),
            r <= i,
        decreases 9 - i,
    {
        if a[i] {
            r += 1;
        }
        i += 1;
    }
    r
}

/// The lowest candidate of a square that has one.
fn first_candidate(a: &Candidates) -> (e: usize)
    requires
        cnt(a@, 9) > 0,
    ensures
        e < 9,
        a@[e as int],
        forall|x: int| 0 <= x < e ==> !a@[x],
{
    let mut i: usize = 0;
    while i < 9
        invariant
            i <= 9,
            forall|x: int| 0 <= x < i ==> !a@[x],
        decreases 9 - i,
    {
        if a[i] {
            return i;
        }
        i += 1;
    }
    proof {
        lemma_cnt_zero(a@, 9);
    }
    0
}

/// The squares of `unit`, among its first `i`, that admit digit `k`.
pub open spec fn places(m: Seq<Candidates>, unit: Seq<SudokuSquare>, k: int, i: int) -> Seq<
    SudokuSquare,
>
    decreases i,
{
    if i <= 0 {
        seq![]
    } else if m[sq_index(unit[i - 1])]@[k] {
        places(m, unit, k, i - 1).push(unit[i - 1])
    } else {
        places(m, unit, k, i - 1)
    }
}

pub proof fn lemma_places(m: Seq<Candidates>, unit: Seq<SudokuSquare>, k: int, i: int)
    requires
        0 <= i <= unit.len(),
    ensures
        places(m, unit, k, i).len() <= i,
        forall|x: SudokuSquare| #[trigger]
            places(m, unit, k, i).contains(x) ==> m[sq_index(x)]@[k] && exists|j: int|
                0 <= j < i && unit[j] == x,
        forall|j: int|
            0 <= j < i && #[trigger] m[sq_index(unit[j])]@[k] ==> places(m, unit, k, i).contains(unit[j]),
        unit.no_duplicates() ==> places(m, unit, k, i).no_duplicates(),
    decreases i,
{
    if i > 0 {
        lemma_places(m, unit, k, i - 1);
        let p = places(m, unit, k, i - 1);
        if m[sq_index(unit[i - 1])]@[k] {
            assert(p.push(unit[i - 1]).last() == unit[i - 1]);
            assert forall|x: SudokuSquare| #[trigger] p.push(unit[i - 1]).contains(x) implies m[sq_index(x)]@[k] && exists|j: int|
                0 <= j < i && unit[j] == x by {
                let q = p.push(unit[i - 1]);
                let a = choose|a: int| 0 <= a < q.len() && #[trigger] q[a] == x;
                if a < p.len() {
                    assert(p.contains(x));
                }
            }
            if unit.no_duplicates() {
                assert(!p.contains(unit[i - 1]));
                let q = p.push(unit[i - 1]);
                assert forall|a: int, b: int| 0 <= a < q.len() && 0 <= b < q.len() && a != b implies #[trigger] q[a] != #[trigger] q[b] by {
                    if b == p.len() {
                        assert(p.contains(p[a]));
                    } else if a == p.len() {
                        assert(p.contains(p[b]));
                    }
                }
            }
            assert forall|j: int|
                0 <= j < i && #[trigger] m[sq_index(unit[j])]@[k] implies p.push(unit[i - 1]).contains(unit[j]) by {
                if j < i - 1 {
                    let a = choose|a: int| 0 <= a < p.len() && #[trigger] p[a] == unit[j];
                    assert(p.push(unit[i - 1])[a] == unit[j]);
                }
            }
        }
    }
}

/// `a` holds exactly the candidates `k` and `e`.
pub open spec fn sole_other(a: Seq<bool>, k: int, e: int) -> bool {
    &&& 0 <= e < 9
    &&& e != k
    &&& a[e]
    &&& forall|x: int| 0 <= x < 9 && a[x] ==> x == k || x == e
}

/// Every square has exactly one candidate.
pub open spec fn all_single(m: Seq<Candidates>) -> bool {
    forall|n: int| 0 <= n < 81 ==> cnt(#[trigger] m[n]@, 9) == 1
}

/// `s` is the square to branch on: the first one, in row-major order, among
/// those with the fewest candidates above one.
pub open spec fn branch_square(m: Seq<Candidates>, s: SudokuSquare) -> bool {
    &&& sq_valid(s)
    &&& cnt(m[sq_index(s)]@, 9) >= 2
    &&& forall|n: int|
        0 <= n < 81 && cnt(#[trigger] m[n]@, 9) >= 2 ==> cnt(m[n]@, 9) >= cnt(m[sq_index(s)]@, 9)
            && (n < sq_index(s) ==> cnt(m[n]@, 9) > cnt(m[sq_index(s)]@, 9))
}

/// The grid agrees with every given digit of `values`.
pub open spec fn fits_givens(g: Seq<int>, values: Seq<char>) -> bool {
    forall|n: int| 0 <= n < 81 && is_digit(#[trigger] values[n]) ==> g[n] == digit_of(values[n])
}

/// On a board where every square has one candidate, the only grid that fits
/// is the one those candidates spell.
pub proof fn lemma_single_grid(m: Seq<Candidates>, g: Seq<int>)
    requires
        m.len() == 81,
        all_single(m),
        within(g, m),
    ensures
        g == solution_of(m),
{
    assert forall|n: int| 0 <= n < 81 implies g[n] == solution_of(m)[n] by {
        let a = m[n]@;
        lemma_cnt_one(a, 9, g[n]);
        let k = choose|k: int| 0 <= k < 9 && a[k];
        assert(solution_of(m)[n] == k);
    }
    assert(g =~= solution_of(m));
}

/// The digits of `d` as integers.
pub open spec fn as_grid(d: Seq<usize>) -> Seq<int> {
    d.map_values(|x: usize| x as int)
}

/// No two squares of unit `u` hold the same digit.
pub open spec fn unit_distinct(g: Seq<int>, u: int) -> bool {
    forall|i: int, j: int|
        0 <= i < 9 && 0 <= j < 9 && i != j ==> #[trigger] g[sq_index(unit_square(u, i))]
            != #[trigger] g[sq_index(unit_square(u, j))]
}

/// Square `i` of unit `u` admits digit `k`.
pub open spec fn place_at(m: Seq<Candidates>, u: int, k: int, i: int) -> bool {
    m[sq_index(unit_square(u, i))]@[k]
}

/// Unit `u` keeps a place for digit `k`, and when that place is the only one
/// the square there holds `k` alone.
pub open spec fn settled(m: Seq<Candidates>, u: int, k: int) -> bool {
    &&& exists|i: int| 0 <= i < 9 && #[trigger] place_at(m, u, k, i)
    &&& forall|i: int|
        0 <= i < 9 && #[trigger] place_at(m, u, k, i) && (forall|i2: int|
            0 <= i2 < 9 && #[trigger] place_at(m, u, k, i2) ==> i2 == i) ==> forall|x: int|
            0 <= x < 9 && #[trigger] m[sq_index(unit_square(u, i))]@[x] ==> x == k
}

/// A unit stays settled for a digit while its places for that digit do not change.
pub proof fn lemma_settled_frame(m2: Seq<Candidates>, m1: Seq<Candidates>, u: int, k: int)
    requires
        m1.len() == 81,
        0 <= u < 27,
        0 <= k < 9,
        shrinks(m2, m1),
        settled(m1, u, k),
        forall|i: int| 0 <= i < 9 && #[trigger] place_at(m1, u, k, i) ==> place_at(m2, u, k, i),
    ensures
        settled(m2, u, k),
{
    let i0 = choose|i: int| 0 <= i < 9 && #[trigger] place_at(m1, u, k, i);
    assert(place_at(m2, u, k, i0));
    assert forall|i: int|
        0 <= i < 9 && #[trigger] place_at(m2, u, k, i) && (forall|i2: int|
            0 <= i2 < 9 && #[trigger] place_at(m2, u, k, i2) ==> i2 == i) implies forall|x: int|
        0 <= x < 9 && #[trigger] m2[sq_index(unit_square(u, i))]@[x] ==> x == k by {
        lemma_unit_square(u, i);
        lemma_index_square(unit_square(u, i));
        assert forall|i2: int| 0 <= i2 < 9 && #[trigger] place_at(m1, u, k, i2) implies i2 == i by {
            assert(place_at(m2, u, k, i2));
        }
        assert(place_at(m1, u, k, i));
        assert forall|x: int| 0 <= x < 9 && #[trigger] m2[sq_index(unit_square(u, i))]@[x] implies x == k by {
            assert(m1[sq_index(unit_square(u, i))]@[x]);
        }
    }
}

/// Unit `u` is settled for `k` once one of its squares holds `k` alone.
pub proof fn lemma_settled_single(m: Seq<Candidates>, u: int, k: int, i: int)
    requires
        m.len() == 81,
        0 <= u < 27,
        0 <= k < 9,
        0 <= i < 9,
        forall|x: int| 0 <= x < 9 ==> (#[trigger] m[sq_index(unit_square(u, i))]@[x] <==> x == k),
    ensures
        settled(m, u, k),
{
    assert(place_at(m, u, k, i));
    assert forall|j: int|
        0 <= j < 9 && #[trigger] place_at(m, u, k, j) && (forall|i2: int|
            0 <= i2 < 9 && #[trigger] place_at(m, u, k, i2) ==> i2 == j) implies forall|x: int|
        0 <= x < 9 && #[trigger] m[sq_index(unit_square(u, j))]@[x] ==> x == k by {
        assert(place_at(m, u, k, i));
    }
}

/// The candidates `a` are exactly the digit `e`.
pub open spec fn single(a: Seq<bool>, e: int) -> bool {
    &&& 0 <= e < 9
    &&& a[e]
    &&& forall|x: int| 0 <= x < 9 && a[x] ==> x == e
}

/// No peer of the square at position `n` admits digit `e`.
pub open spec fn clean(m: Seq<Candidates>, n: int, e: int) -> bool {
    forall|t: SudokuSquare| sq_valid(t) && is_peer(square_at(n), t) ==> !#[trigger] m[sq_index(t)]@[e]
}

/// Every square left with one candidate has that digit removed from its peers.
pub open spec fn arc_consistent(m: Seq<Candidates>) -> bool {
    forall|n: int, e: int| 0 <= n < 81 && #[trigger] single(m[n]@, e) ==> clean(m, n, e)
}

/// Every square that has one candidate in `m2` but not in `m1` has that
/// digit removed from its peers in `m2`.
pub open spec fn newly_clean(m1: Seq<Candidates>, m2: Seq<Candidates>) -> bool {
    forall|n: int, e: int|
        0 <= n < 81 && #[trigger] single(m2[n]@, e) && !single(m1[n]@, e) ==> clean(m2, n, e)
}

pub proof fn lemma_clean_shrinks(m2: Seq<Candidates>, m1: Seq<Candidates>, n: int, e: int)
    requires
        m1.len() == 81,
        shrinks(m2, m1),
        clean(m1, n, e),
        0 <= e < 9,
    ensures
        clean(m2, n, e),
{
    assert forall|t: SudokuSquare| sq_valid(t) && is_peer(square_at(n), t) implies !#[trigger] m2[sq_index(t)]@[e] by {
        lemma_index_square(t);
        assert(!m1[sq_index(t)]@[e]);
    }
}

pub proof fn lemma_newly_clean_chain(a: Seq<Candidates>, b: Seq<Candidates>, c: Seq<Candidates>)
    requires
        a.len() == 81,
        shrinks(b, a),
        shrinks(c, b),
        newly_clean(a, b),
        newly_clean(b, c),
    ensures
        newly_clean(a, c),
{
    assert forall|n: int, e: int|
        0 <= n < 81 && #[trigger] single(c[n]@, e) && !single(a[n]@, e) implies clean(c, n, e) by {
        if single(b[n]@, e) {
            lemma_clean_shrinks(c, b, n, e);
        }
    }
}

/// A board keeps arc consistency across a change that cleans every newly
/// single square.
pub proof fn lemma_arc_kept(m1: Seq<Candidates>, m2: Seq<Candidates>)
    requires
        m1.len() == 81,
        shrinks(m2, m1),
        board_ok(m2),
        newly_clean(m1, m2),
        arc_consistent(m1),
    ensures
        arc_consistent(m2),
{
    assert forall|n: int, e: int| 0 <= n < 81 && #[trigger] single(m2[n]@, e) implies clean(m2, n, e) by {
        if single(m1[n]@, e) {
            lemma_clean_shrinks(m2, m1, n, e);
        }
    }
}

/// Digit index at row `r`, column `c` of a fixed valid grid: each row is the
/// one above shifted by three, and by one more at each band.
pub open spec fn pattern_cell(r: int, c: int) -> int {
    (3 * (r % 3) + r / 3 + c) % 9
}

pub open spec fn pattern_grid() -> Seq<int> {
    Seq::new(81, |n: int| pattern_cell(n / 9, n % 9))
}

/// Position of member `i` of unit `u` along that unit's shift.
pub open spec fn pattern_pos(u: int, i: int) -> int {
    if 9 <= u < 18 {
        3 * (i % 3) + i / 3
    } else {
        i
    }
}

/// The shift of unit `u`.
pub open spec fn pattern_shift(u: int) -> int {
    if u < 9 {
        3 * (u % 3) + u / 3
    } else if u < 18 {
        u - 9
    } else {
        (u - 18) / 3 + 3 * ((u - 18) % 3)
    }
}

proof fn lemma_pattern_member(u: int, i: int)
    requires
        0 <= u < 27,
        0 <= i < 9,
    ensures
        pattern_grid()[sq_index(unit_square(u, i))] == (pattern_shift(u) + pattern_pos(u, i)) % 9,
        0 <= pattern_pos(u, i) < 9,
{
    lemma_unit_square(u, i);
    let s = unit_square(u, i);
    lemma_index_square(s);
    let r = s.0 as int;
    let c = s.1 as int;
    assert(pattern_grid()[sq_index(s)] == pattern_cell(r, c));
    if u >= 18 {
        let b = u - 18;
        assert(r % 3 == i / 3 && r / 3 == b / 3) by {
            assert(r == b / 3 * 3 + i / 3);
        }
        assert(c == b % 3 * 3 + i % 3);
        assert(i == 3 * (i / 3) + i % 3);
    } else if u >= 9 {
        assert(r == i);
    }
}

proof fn lemma_pattern_distinct(u: int, i: int, j: int)
    requires
        0 <= u < 27,
        0 <= i < 9,
        0 <= j < 9,
        i != j,
    ensures
        pattern_grid()[sq_index(unit_square(u, i))] != pattern_grid()[sq_index(unit_square(u, j))],
{
    lemma_pattern_member(u, i);
    lemma_pattern_member(u, j);
    let a = pattern_shift(u);
    let pi = pattern_pos(u, i);
    let pj = pattern_pos(u, j);
    if 9 <= u < 18 {
        assert(i == 3 * (i / 3) + i % 3 && j == 3 * (j / 3) + j % 3);
    }
    assert(pi != pj);
    assert((a + pi) % 9 != (a + pj) % 9);
}

proof fn lemma_pattern_digit(u: int, k: int)
    requires
        0 <= u < 27,
        0 <= k < 9,
    ensures
        unit_has_digit(pattern_grid(), u, k),
{
    let a = pattern_shift(u);
    let p = (k + 9 - a % 9) % 9;
    assert((a + p) % 9 == k);
    let i = if 9 <= u < 18 {
        3 * (p % 3) + p / 3
    } else {
        p
    };
    lemma_pattern_member(u, i);
    assert(pattern_pos(u, i) == p);
    assert(pattern_grid()[sq_index(unit_square(u, i))] == k);
}

/// Some grid holds each digit exactly once in every unit.
pub proof fn lemma_valid_grid_exists()
    ensures
        valid_grid(pattern_grid()),
{
    let g = pattern_grid();
    assert forall|n: int| 0 <= n < 81 implies 0 <= #[trigger] g[n] < 9 by {}
    assert forall|u: int, i: int, j: int|
        0 <= u < 27 && 0 <= i < 9 && 0 <= j < 9 && i != j implies #[trigger] g[sq_index(unit_square(u, i))]
            != #[trigger] g[sq_index(unit_square(u, j))] by {
        lemma_pattern_distinct(u, i, j);
    }
    assert forall|u: int, k: int| 0 <= u < 27 && 0 <= k < 9 implies #[trigger] unit_has_digit(g, u, k) by {
        lemma_pattern_digit(u, k);
    }
}

/// A puzzle with no givens is solvable: a valid grid fits it, so
/// `init_game_with_values` succeeds on it with that grid still fitting the
/// board, and `search` on that board then cannot return `None`.
pub proof fn lemma_blank_puzzle_solvable(values: Seq<char>)
    requires
        values.len() >= 81,
        forall|n: int| 0 <= n < 81 ==> !is_digit(#[trigger] values[n]),
    ensures
        valid_grid(pattern_grid()),
        fits_givens(pattern_grid(), values),
{
    lemma_valid_grid_exists();
}

/// One board state: the candidates of every square, over a shared topology.
pub struct Game<'a> {
    pub game_setup: &'a GameSetup,
    /// The candidates of each square, in row-major order.
    pub stats: Vec<Candidates>,
}

impl<'a> Game<'a> {
    pub open spec fn wf(&self) -> bool {
        &&& self.game_setup.wf()
        &&& board_ok(self.stats@)
    }

    /// Square `s` still admits the digit `c`.
    pub open spec fn admits(&self, s: SudokuSquare, c: char) -> bool {
        is_digit(c) && self.stats@[sq_index(s)]@[digit_of(c)]
    }

    /// The squares of `unit` that admit digit `k`; a failure when there is none.
    fn places_for_digit(&self, unit: &Vec<SudokuSquare>, k: usize) -> (r: Result<
        SudokuResult,
        SudokuError,
    >)
        requires
            self.stats@.len() == 81,
            k < 9,
            forall|i: int| 0 <= i < unit@.len() ==> sq_valid(#[trigger] unit@[i]),
        ensures
            match r {
                Err(_) => places(self.stats@, unit@, k as int, unit@.len() as int).len() == 0,
                Ok(SudokuResult::OneCandidate(t)) => places(
                    self.stats@,
                    unit@,
                    k as int,
                    unit@.len() as int,
                ).len() == 1 && t == places(self.stats@, unit@, k as int, unit@.len() as int)[0],
                Ok(SudokuResult::MultipleCandidates(v)) => places(
                    self.stats@,
                    unit@,
                    k as int,
                    unit@.len() as int,
                ).len() >= 2 && v@ == places(self.stats@, unit@, k as int, unit@.len() as int),
            },
    {
        let mut candidates: Vec<SudokuSquare> = Vec::new();
        let mut i: usize = 0;
        while i < unit.len()
            invariant
                i <= unit@.len(),
                self.stats@.len() == 81,
                k < 9,
                forall|j: int| 0 <= j < unit@.len() ==> sq_valid(#[trigger] unit@[j]),
                candidates@ == places(self.stats@, unit@, k as int, i as int),
            decreases unit@.len() - i,
        {
            let s = unit[i];
            proof {
                lemma_index_square(s);
            }
            if self.stats[s.0 * 9 + s.1][k] {
                candidates.push(s);
            }
            i += 1;
        }
        if candidates.len() == 0 {
            Err(SudokuError::NoRemainingValues)
        } else if candidates.len() == 1 {
            Ok(SudokuResult::OneCandidate(candidates[0]))
        } else {
            Ok(SudokuResult::MultipleCandidates(candidates))
        }
    }

    /// Removes digit `k` from square `n` and propagates the consequences.
    fn elim(&mut self, n: usize, k: usize) -> (r: Result<(), SudokuError>)
        requires
            old(self).wf(),
            n < 81,
            k < 9,
        ensures
            final(self).wf(),
            final(self).game_setup == old(self).game_setup,
            shrinks(final(self).stats@, old(self).stats@),
            r is Ok ==> !final(self).stats@[n as int]@[k as int],
            !old(self).stats@[n as int]@[k as int] ==> r is Ok && final(self).stats@ == old(self).stats@,
            forall|e: int|
                r is Ok && old(self).stats@[n as int]@[k as int] && #[trigger] sole_other(
                    old(self).stats@[n as int]@,
                    k as int,
                    e,
                ) ==> forall|t: SudokuSquare|
                    sq_valid(t) && is_peer(square_at(n as int), t) ==> !final(self).stats@[sq_index(t)]@[e],
            forall|g: Seq<int>|
                valid_grid(g) && #[trigger] within(g, old(self).stats@) && g[n as int] != k ==> r is Ok
                    && within(g, final(self).stats@),
            r is Ok ==> forall|u: int, x: int|
                0 <= u < 27 && 0 <= x < 9 && #[trigger] settled(old(self).stats@, u, x) ==> settled(
                    final(self).stats@,
                    u,
                    x,
                ),
            r is Ok && old(self).stats@[n as int]@[k as int] ==> forall|j: int|
                0 <= j < 3 ==> #[trigger] settled(final(self).stats@, unit_of(square_at(n as int), j), k as int),
            r is Ok ==> newly_clean(old(self).stats@, final(self).stats@),
            r is Ok && arc_consistent(old(self).stats@) ==> arc_consistent(final(self).stats@),
            single(old(self).stats@[n as int]@, k as int) ==> r is Err && final(self).stats@ == old(self).stats@,
        decreases total(old(self).stats@, 81), 0nat,
    {
        if !self.stats[n][k] {
            return Ok(());
        }
        let ghost m0 = self.stats@;
        let mut row = self.stats[n];
        row[k] = false;
        let left = count_candidates(&row);
        if left == 0 {
            proof {
                lemma_cnt_zero(row@, 9);
                assert forall|g: Seq<int>|
                    valid_grid(g) && #[trigger] within(g, m0) && g[n as int] != k implies false by {
                    assert(m0[n as int]@[g[n as int]]);
                    assert(row@[g[n as int]]);
                }
            }
            return Err(SudokuError::NoRemainingValues);
        }
        proof {
            lemma_cnt_zero(row@, 9);
            assert(!single(self.stats@[n as int]@, k as int));
        }
        self.stats.set(n, row);
        let ghost m1 = self.stats@;
        proof {
            lemma_total_mono(m1, m0, 81);
            assert(m0[n as int]@[k as int] && !m1[n as int]@[k as int]);
            assert forall|u: int, x: int|
                0 <= u < 27 && 0 <= x < 9 && #[trigger] settled(m0, u, x) && !(x == k && in_unit(u, square_at(n as int))) implies settled(m1, u, x) by {
                assert forall|i: int| 0 <= i < 9 && #[trigger] place_at(m0, u, x, i) implies place_at(m1, u, x, i) by {
                    lemma_unit_square(u, i);
                    lemma_index_square(unit_square(u, i));
                }
                lemma_settled_frame(m1, m0, u, x);
            }
        }
        let setup = self.game_setup;
        let ghost mut e: int = 0;
        if left == 1 {
            let last = first_candidate(&row);
            proof {
                e = last as int;
                lemma_cnt_one(row@, 9, e);
            }
            let peers = &setup.peers[n];
            let mut i: usize = 0;
            while i < peers.len()
                invariant
                    self.wf(),
                    self.game_setup == setup,
                    setup == old(self).game_setup,
                    m0 == old(self).stats@,
                    m0[n as int]@[k as int],
                    setup.wf(),
                    n < 81,
                    k < 9,
                    e == last,
                    last < 9,
                    i <= peers@.len(),
                    peers == setup.peers@[n as int],
                    shrinks(self.stats@, m1),
                    shrinks(m1, m0),
                    total(m1, 81) < total(m0, 81),
                    m1[n as int] == row,
                    forall|x: int| 0 <= x < 9 && x != e ==> !row@[x],
                    forall|j: int| 0 <= j < i ==> !self.stats@[sq_index(#[trigger] peers@[j])]@[e],
                    newly_clean(m1, self.stats@),
                    !single(m0[n as int]@, k as int),
                    forall|u: int, x: int|
                        0 <= u < 27 && 0 <= x < 9 && #[trigger] settled(m0, u, x) && !(x == k && in_unit(u, square_at(n as int))) ==> settled(self.stats@, u, x),
                    forall|g: Seq<int>|
                        valid_grid(g) && #[trigger] within(g, m0) && g[n as int] != k ==> within(
                            g,
                            self.stats@,
                        ),
                decreases peers@.len() - i,
            {
                let p = peers[i];
                proof {
                    assert(peers@.contains(p));
                    lemma_index_square(p);
                    lemma_square_index(n as int);
                    lemma_total_mono(self.stats@, m1, 81);
                }
                let ghost before = self.stats@;
                match self.elim(p.0 * 9 + p.1, last) {
                    Ok(()) => {},
                    Err(x) => {
                        proof {
                            assert forall|g: Seq<int>|
                                valid_grid(g) && #[trigger] within(g, m0) && g[n as int] != k implies false by {
                                assert(within(g, before));
                                assert(g[n as int] == e);
                                lemma_valid_peers(g, square_at(n as int), p);
                            }
                        }
                        return Err(x);
                    },
                }
                proof {
                    assert forall|g: Seq<int>|
                        valid_grid(g) && #[trigger] within(g, m0) && g[n as int] != k implies within(g, self.stats@) by {
                        assert(within(g, before));
                        assert(g[n as int] == e);
                        lemma_valid_peers(g, square_at(n as int), p);
                    }
                    assert forall|u: int, x: int|
                        0 <= u < 27 && 0 <= x < 9 && #[trigger] settled(m0, u, x) && !(x == k && in_unit(u, square_at(n as int))) implies settled(self.stats@, u, x) by {
                        assert(settled(before, u, x));
                    }
                    lemma_newly_clean_chain(m1, before, self.stats@);
                    assert forall|j: int| 0 <= j < i + 1 implies !self.stats@[sq_index(#[trigger] peers@[j])]@[e] by {
                        assert(peers@.contains(peers@[j]));
                        lemma_index_square(peers@[j]);
                        if j < i {
                            assert(!before[sq_index(peers@[j])]@[e]);
                        }
                    }
                }
                i += 1;
            }
            proof {
                assert forall|t: SudokuSquare| sq_valid(t) && is_peer(square_at(n as int), t) implies !self.stats@[sq_index(t)]@[e] by {
                    assert(peers@.contains(t));
                }
            }
        }
        let ghost m2 = self.stats@;
        let mut j: usize = 0;
        while j < 3
            invariant
                self.wf(),
                self.game_setup == setup,
                setup == old(self).game_setup,
                m0 == old(self).stats@,
                m0[n as int]@[k as int],
                setup.wf(),
                n < 81,
                k < 9,
                j <= 3,
                shrinks(self.stats@, m2),
                shrinks(m2, m1),
                shrinks(m1, m0),
                total(m1, 81) < total(m0, 81),
                !m1[n as int]@[k as int],
                left == 1 ==> forall|t: SudokuSquare|
                    sq_valid(t) && is_peer(square_at(n as int), t) ==> !m2[sq_index(t)]@[e],
                forall|u: int, x: int|
                    0 <= u < 27 && 0 <= x < 9 && #[trigger] settled(m0, u, x) && !(x == k && in_unit(u, square_at(n as int))) ==> settled(self.stats@, u, x),
                forall|jj: int| 0 <= jj < j ==> #[trigger] settled(self.stats@, unit_of(square_at(n as int), jj), k as int),
                newly_clean(m1, self.stats@),
                !single(m0[n as int]@, k as int),
                m1 == m0.update(n as int, row),
                left == 1 ==> e < 9 && row@[e] && forall|x: int| 0 <= x < 9 && x != e ==> !row@[x],
                forall|g: Seq<int>|
                    valid_grid(g) && #[trigger] within(g, m0) && g[n as int] != k ==> within(
                        g,
                        self.stats@,
                    ),
            decreases 3 - j,
        {
            let u = setup.units[n].unitvec[j];
            proof {
                lemma_square_index(n as int);
                lemma_unit_of(square_at(n as int), 0);
                assert forall|i: int| 0 <= i < setup.squares@[u as int]@.len() implies sq_valid(#[trigger] setup.squares@[u as int]@[i]) by {
                    lemma_unit_square(u as int, i);
                }
                lemma_places(self.stats@, setup.squares@[u as int]@, k as int, 9);
                lemma_total_mono(self.stats@, m1, 81);
            }
            let ghost before = self.stats@;
            let ghost unit = setup.squares@[u as int]@;
            match self.places_for_digit(&setup.squares[u], k) {
                Err(x) => {
                    proof {
                        assert forall|g: Seq<int>|
                            valid_grid(g) && #[trigger] within(g, m0) && g[n as int] != k implies false by {
                            assert(unit_has_digit(g, u as int, k as int));
                            let i = choose|i: int| 0 <= i < 9 && g[sq_index(unit_square(u as int, i))] == k;
                            assert(unit[i] == unit_square(u as int, i));
                            lemma_unit_square(u as int, i);
                            lemma_index_square(unit[i]);
                            assert(within(g, before));
                        }
                    }
                    return Err(x);
                },
                Ok(SudokuResult::OneCandidate(t)) => {
                    proof {
                        assert(places(before, unit, k as int, 9).contains(t));
                        let ji = choose|ji: int| 0 <= ji < 9 && unit[ji] == t;
                        lemma_unit_square(u as int, ji);
                        lemma_index_square(t);
                        assert forall|g: Seq<int>|
                            valid_grid(g) && #[trigger] within(g, m0) && g[n as int] != k implies g[sq_index(t)] == k by {
                            assert(unit_has_digit(g, u as int, k as int));
                            let i = choose|i: int| 0 <= i < 9 && g[sq_index(unit_square(u as int, i))] == k;
                            assert(unit[i] == unit_square(u as int, i));
                            lemma_unit_square(u as int, i);
                            lemma_index_square(unit[i]);
                            assert(within(g, before));
                            assert(places(before, unit, k as int, 9).contains(unit[i]));
                        }
                    }
                    match self.assign_at(t.0 * 9 + t.1, k) {
                        Ok(()) => {
                            proof {
                                let ji = choose|ji: int| 0 <= ji < 9 && unit[ji] == t;
                                lemma_unit_square(u as int, ji);
                                lemma_settled_single(self.stats@, u as int, k as int, ji);
                                lemma_newly_clean_chain(m1, before, self.stats@);
                                assert forall|u2: int, x: int|
                                    0 <= u2 < 27 && 0 <= x < 9 && #[trigger] settled(m0, u2, x) && !(x == k && in_unit(u2, square_at(n as int))) implies settled(self.stats@, u2, x) by {
                                    assert(settled(before, u2, x));
                                }
                                assert forall|jj: int| 0 <= jj < j + 1 implies #[trigger] settled(self.stats@, unit_of(square_at(n as int), jj), k as int) by {
                                    if jj < j {
                                        assert(settled(before, unit_of(square_at(n as int), jj), k as int));
                                    }
                                }
                            }
                        },
                        Err(x) => {
                            proof {
                                assert forall|g: Seq<int>|
                                    valid_grid(g) && #[trigger] within(g, m0) && g[n as int] != k implies false by {
                                    assert(within(g, before));
                                }
                            }
                            return Err(x);
                        },
                    }
                    proof {
                        assert forall|g: Seq<int>|
                            valid_grid(g) && #[trigger] within(g, m0) && g[n as int] != k implies within(g, self.stats@) by {
                            assert(within(g, before));
                        }
                    }
                },
                Ok(SudokuResult::MultipleCandidates(_)) => {
                    proof {
                        let p = places(before, unit, k as int, 9);
                        assert forall|a: int, b: int| 0 <= a < b < 9 implies unit[a] != unit[b] by {
                            lemma_units_partition(u as int, unit[a]);
                            lemma_unit_square(u as int, a);
                        }
                        assert(p.contains(p[0]) && p.contains(p[1]));
                        let a0 = choose|a0: int| 0 <= a0 < 9 && unit[a0] == p[0];
                        let a1 = choose|a1: int| 0 <= a1 < 9 && unit[a1] == p[1];
                        assert(a0 != a1);
                        lemma_unit_square(u as int, a0);
                        lemma_unit_square(u as int, a1);
                        assert(place_at(before, u as int, k as int, a0));
                        assert(place_at(before, u as int, k as int, a1));
                        assert(settled(before, u as int, k as int));
                        assert forall|jj: int| 0 <= jj < j + 1 implies #[trigger] settled(self.stats@, unit_of(square_at(n as int), jj), k as int) by {
                            assert(unit_of(square_at(n as int), j as int) == u);
                        }
                    }
                },
            }
            j += 1;
        }
        proof {
            assert forall|n2: int, e2: int|
                0 <= n2 < 81 && #[trigger] single(self.stats@[n2]@, e2) && !single(m0[n2]@, e2) implies clean(self.stats@, n2, e2) by {
                if single(m1[n2]@, e2) {
                    if n2 != n {
                        assert(m1[n2] == m0[n2]);
                    }
                    assert(m1[n as int] == row);
                    lemma_cnt_one(row@, 9, e2);
                    assert(left == 1);
                    assert(e == e2);
                    assert(clean(m2, n as int, e2));
                    lemma_clean_shrinks(self.stats@, m2, n as int, e2);
                }
            }
            if arc_consistent(m0) {
                lemma_arc_kept(m0, self.stats@);
            }
            assert forall|u: int, x: int|
                0 <= u < 27 && 0 <= x < 9 && #[trigger] settled(m0, u, x) implies settled(self.stats@, u, x) by {
                lemma_square_index(n as int);
                lemma_unit_of(square_at(n as int), u);
                if x == k && in_unit(u, square_at(n as int)) {
                    if u == unit_of(square_at(n as int), 0) {
                        assert(settled(self.stats@, unit_of(square_at(n as int), 0), k as int));
                    } else if u == unit_of(square_at(n as int), 1) {
                        assert(settled(self.stats@, unit_of(square_at(n as int), 1), k as int));
                    } else {
                        assert(settled(self.stats@, unit_of(square_at(n as int), 2), k as int));
                    }
                }
            }
            assert forall|e2: int| old(self).stats@[n as int]@[k as int] && #[trigger] sole_other(m0[n as int]@, k as int, e2) implies forall|t: SudokuSquare|
                sq_valid(t) && is_peer(square_at(n as int), t) ==> !self.stats@[sq_index(t)]@[e2] by {
                lemma_cnt_one(row@, 9, e2);
                assert(left == 1);
                assert(e == e2);
                assert forall|t: SudokuSquare| sq_valid(t) && is_peer(square_at(n as int), t) implies !self.stats@[sq_index(t)]@[e2] by {
                    lemma_index_square(t);
                }
            }
        }
        Ok(())
    }

    /// Keeps only digit `k` on square `n` and propagates the consequences.
    fn assign_at(&mut self, n: usize, k: usize) -> (r: Result<(), SudokuError>)
        requires
            old(self).wf(),
            n < 81,
            k < 9,
        ensures
            final(self).wf(),
            final(self).game_setup == old(self).game_setup,
            shrinks(final(self).stats@, old(self).stats@),
            r is Ok ==> forall|x: int|
                0 <= x < 9 ==> (#[trigger] final(self).stats@[n as int]@[x] <==> x == k),
            forall|g: Seq<int>|
                valid_grid(g) && #[trigger] within(g, old(self).stats@) && g[n as int] == k ==> r is Ok
                    && within(g, final(self).stats@),
            r is Ok ==> forall|u: int, x: int|
                0 <= u < 27 && 0 <= x < 9 && #[trigger] settled(old(self).stats@, u, x) ==> settled(
                    final(self).stats@,
                    u,
                    x,
                ),
            r is Ok ==> newly_clean(old(self).stats@, final(self).stats@),
            r is Ok && arc_consistent(old(self).stats@) ==> arc_consistent(final(self).stats@),
            r is Ok && (!single(old(self).stats@[n as int]@, k as int) || arc_consistent(old(self).stats@))
                ==> clean(final(self).stats@, n as int, k as int),
            single(old(self).stats@[n as int]@, k as int) ==> r is Ok && final(self).stats@ == old(self).stats@,
        decreases total(old(self).stats@, 81), 1nat,
    {
        let ghost m0 = self.stats@;
        let mut x: usize = 0;
        while x < 9
            invariant
                self.wf(),
                self.game_setup == old(self).game_setup,
                m0 == old(self).stats@,
                n < 81,
                k < 9,
                x <= 9,
                shrinks(self.stats@, m0),
                forall|y: int| 0 <= y < x && y != k ==> !self.stats@[n as int]@[y],
                forall|u: int, y: int|
                    0 <= u < 27 && 0 <= y < 9 && #[trigger] settled(m0, u, y) ==> settled(self.stats@, u, y),
                newly_clean(m0, self.stats@),
                single(m0[n as int]@, k as int) ==> self.stats@ == m0,
                forall|g: Seq<int>|
                    valid_grid(g) && #[trigger] within(g, m0) && g[n as int] == k ==> within(
                        g,
                        self.stats@,
                    ),
            decreases 9 - x,
        {
            if x != k && self.stats[n][x] {
                proof {
                    lemma_total_mono(self.stats@, m0, 81);
                }
                let ghost before = self.stats@;
                match self.elim(n, x) {
                    Ok(()) => {},
                    Err(e) => {
                        proof {
                            assert forall|g: Seq<int>|
                                valid_grid(g) && #[trigger] within(g, m0) && g[n as int] == k implies false by {
                                assert(within(g, before));
                            }
                        }
                        return Err(e);
                    },
                }
                proof {
                    assert forall|g: Seq<int>|
                        valid_grid(g) && #[trigger] within(g, m0) && g[n as int] == k implies within(g, self.stats@) by {
                        assert(within(g, before));
                    }
                    assert forall|u: int, y: int|
                        0 <= u < 27 && 0 <= y < 9 && #[trigger] settled(m0, u, y) implies settled(self.stats@, u, y) by {
                        assert(settled(before, u, y));
                    }
                    lemma_newly_clean_chain(m0, before, self.stats@);
                }
            }
            x += 1;
        }
        proof {
            let a = self.stats@[n as int]@;
            lemma_cnt_zero(a, 9);
            let y = choose|y: int| 0 <= y < 9 && a[y];
            assert(y == k);
            assert(single(a, k as int));
            if arc_consistent(m0) {
                lemma_arc_kept(m0, self.stats@);
            }
        }
        Ok(())
    }

    /// A fresh board: every square admits every digit.
    pub fn new(game_setup: &'a GameSetup) -> (r: Self)
        requires
            game_setup.wf(),
        ensures
            r.wf(),
            r.game_setup == game_setup,
            forall|n: int, k: int| 0 <= n < 81 && 0 <= k < 9 ==> #[trigger] r.stats@[n]@[k],
    {
        let mut stats: Vec<Candidates> = Vec::new();
        while stats.len() < 81
            invariant
                stats@.len() <= 81,
                forall|n: int, k: int| 0 <= n < stats@.len() && 0 <= k < 9 ==> #[trigger] stats@[n]@[k],
            decreases 81 - stats@.len(),
        {
            stats.push([true; 9]);
        }
        let r = Game { game_setup, stats };
        proof {
            assert forall|n: int| 0 <= n < 81 implies cnt(#[trigger] r.stats@[n]@, 9) > 0 by {
                lemma_cnt_zero(r.stats@[n]@, 9);
            }
        }
        r
    }

    /// An independent copy of this board state.
    pub fn clone_state(&self) -> (r: Self)
        ensures
            r.game_setup == self.game_setup,
            r.stats@ == self.stats@,
    {
        let mut stats: Vec<Candidates> = Vec::new();
        let mut i: usize = 0;
        while i < self.stats.len()
            invariant
                i <= self.stats@.len(),
                stats@ == self.stats@.subrange(0, i as int),
            decreases self.stats@.len() - i,
        {
            stats.push(self.stats[i]);
            i += 1;
        }
        assert(stats@ =~= self.stats@);
        Game { game_setup: self.game_setup, stats }
    }

    /// The candidates of `square`, in ascending order.
    pub fn candidates(&self, square: &SudokuSquare) -> (r: Vec<char>)
        requires
            self.wf(),
            sq_valid(*square),
        ensures
            forall|c: char| #[trigger] r@.contains(c) <==> self.admits(*square, c),
            forall|i: int, j: int| 0 <= i < j < r@.len() ==> r@[i] < r@[j],
    {
        let digits = ['1', '2', '3', '4', '5', '6', '7', '8', '9'];
        let n = square.0 * 9 + square.1;
        let mut r: Vec<char> = Vec::new();
        let mut k: usize = 0;
        while k < 9
            invariant
                k <= 9,
                n == sq_index(*square),
                0 <= n < 81,
                self.wf(),
                digits@ == seq!['1', '2', '3', '4', '5', '6', '7', '8', '9'],
                forall|c: char| #[trigger] r@.contains(c) <==> (self.admits(*square, c) && digit_of(c) < k),
                forall|i: int| 0 <= i < r@.len() ==> digit_of(#[trigger] r@[i]) < k && is_digit(r@[i]),
                forall|i: int, j: int| 0 <= i < j < r@.len() ==> r@[i] < r@[j],
            decreases 9 - k,
        {
            let ghost old_r = r@;
            let c = digits[k];
            assert(digit_of(c) == k && is_digit(c));
            if self.stats[n][k] {
                r.push(c);
                assert(r@.last() == c);
            }
            assert(self.stats@[n as int]@[k as int] ==> r@ == old_r.push(c));
            assert(!self.stats@[n as int]@[k as int] ==> r@ == old_r);
            proof {
                assert forall|c2: char| #[trigger] r@.contains(c2) implies (self.admits(*square, c2) && digit_of(c2) < k + 1) by {
                    let i = choose|i: int| 0 <= i < r@.len() && r@[i] == c2;
                    if i < old_r.len() {
                        assert(old_r[i] == c2);
                        assert(old_r.contains(c2));
                    } else {
                        assert(c2 == c);
                        assert(self.stats@[n as int]@[k as int]);
                    }
                }
                assert forall|c2: char| self.admits(*square, c2) && digit_of(c2) < k + 1 implies #[trigger] r@.contains(c2) by {
                    if digit_of(c2) == k {
                        assert(c2 as int == c as int);
                        assert(c2 == c);
                        assert(r@[r@.len() - 1] == c);
                    } else {
                        assert(old_r.contains(c2));
                        let i = choose|i: int| 0 <= i < old_r.len() && old_r[i] == c2;
                        assert(r@[i] == c2);
                    }
                }
            }
            k += 1;
        }
        r
    }

    /// The squares of `square_vec` that admit the digit `c`: a failure when
    /// there is none.
    pub fn count_places_for_value(&self, square_vec: &Vec<SudokuSquare>, c: char) -> (r: Result<
        SudokuResult,
        SudokuError,
    >)
        requires
            self.stats@.len() == 81,
            forall|i: int| 0 <= i < square_vec@.len() ==> sq_valid(#[trigger] square_vec@[i]),
        ensures
            !is_digit(c) ==> r is Err,
            is_digit(c) ==> match r {
                Err(_) => places(self.stats@, square_vec@, digit_of(c), square_vec@.len() as int).len() == 0,
                Ok(SudokuResult::OneCandidate(t)) => places(
                    self.stats@,
                    square_vec@,
                    digit_of(c),
                    square_vec@.len() as int,
                ).len() == 1 && t == places(self.stats@, square_vec@, digit_of(c), square_vec@.len() as int)[0],
                Ok(SudokuResult::MultipleCandidates(v)) => places(
                    self.stats@,
                    square_vec@,
                    digit_of(c),
                    square_vec@.len() as int,
                ).len() >= 2 && v@ == places(self.stats@, square_vec@, digit_of(c), square_vec@.len() as int),
            },
    {
        if c < '1' || c > '9' {
            return Err(SudokuError::NoRemainingValues);
        }
        let k = (c as u32 - '1' as u32) as usize;
        self.places_for_digit(square_vec, k)
    }

    /// Removes the digit `c` from `square` and propagates: a square left with
    /// one candidate has it removed from its peers, and a unit left with one
    /// place for `c` gets `c` there.
    pub fn eliminate(&mut self, square: &SudokuSquare, c: char) -> (r: Result<(), SudokuError>)
        requires
            old(self).wf(),
            sq_valid(*square),
        ensures
            final(self).wf(),
            final(self).game_setup == old(self).game_setup,
            shrinks(final(self).stats@, old(self).stats@),
            r is Ok ==> !final(self).admits(*square, c),
            !old(self).admits(*square, c) ==> r is Ok && final(self).stats@ == old(self).stats@,
            forall|e: int|
                r is Ok && old(self).admits(*square, c) && #[trigger] sole_other(
                    old(self).stats@[sq_index(*square)]@,
                    digit_of(c),
                    e,
                ) ==> forall|t: SudokuSquare|
                    sq_valid(t) && is_peer(*square, t) ==> !final(self).stats@[sq_index(t)]@[e],
            forall|g: Seq<int>|
                valid_grid(g) && #[trigger] within(g, old(self).stats@) && g[sq_index(*square)] != digit_of(c)
                    ==> r is Ok && within(g, final(self).stats@),
            r is Ok ==> forall|u: int, x: int|
                0 <= u < 27 && 0 <= x < 9 && #[trigger] settled(old(self).stats@, u, x) ==> settled(
                    final(self).stats@,
                    u,
                    x,
                ),
            r is Ok && old(self).admits(*square, c) ==> forall|j: int|
                0 <= j < 3 ==> #[trigger] settled(final(self).stats@, unit_of(*square, j), digit_of(c)),
            r is Ok ==> newly_clean(old(self).stats@, final(self).stats@),
            r is Ok && arc_consistent(old(self).stats@) ==> arc_consistent(final(self).stats@),
            is_digit(c) && single(old(self).stats@[sq_index(*square)]@, digit_of(c)) ==> r is Err
                && final(self).stats@ == old(self).stats@,
    {
        proof {
            lemma_index_square(*square);
        }
        if c < '1' || c > '9' {
            return Ok(());
        }
        let k = (c as u32 - '1' as u32) as usize;
        self.elim(square.0 * 9 + square.1, k)
    }

    /// Keeps only the digit `c` on `square` by eliminating every other one.
    pub fn assign(&mut self, square: &SudokuSquare, c: char) -> (r: Result<(), SudokuError>)
        requires
            old(self).wf(),
            sq_valid(*square),
        ensures
            final(self).wf(),
            final(self).game_setup == old(self).game_setup,
            shrinks(final(self).stats@, old(self).stats@),
            !is_digit(c) ==> r is Err,
            r is Ok ==> forall|d: char| #[trigger] final(self).admits(*square, d) <==> d == c,
            forall|g: Seq<int>|
                valid_grid(g) && #[trigger] within(g, old(self).stats@) && is_digit(c) && g[sq_index(*square)]
                    == digit_of(c) ==> r is Ok && within(g, final(self).stats@),
            r is Ok ==> forall|u: int, x: int|
                0 <= u < 27 && 0 <= x < 9 && #[trigger] settled(old(self).stats@, u, x) ==> settled(
                    final(self).stats@,
                    u,
                    x,
                ),
            r is Ok ==> newly_clean(old(self).stats@, final(self).stats@),
            r is Ok && arc_consistent(old(self).stats@) ==> arc_consistent(final(self).stats@),
            r is Ok && (!single(old(self).stats@[sq_index(*square)]@, digit_of(c)) || arc_consistent(
                old(self).stats@,
            )) ==> clean(final(self).stats@, sq_index(*square), digit_of(c)),
            is_digit(c) && single(old(self).stats@[sq_index(*square)]@, digit_of(c)) ==> r is Ok
                && final(self).stats@ == old(self).stats@,
    {
        proof {
            lemma_index_square(*square);
        }
        if c < '1' || c > '9' {
            return Err(SudokuError::NoRemainingValues);
        }
        let k = (c as u32 - '1' as u32) as usize;
        let r = self.assign_at(square.0 * 9 + square.1, k);
        proof {
            if r is Ok {
                assert forall|d: char| #[trigger] self.admits(*square, d) <==> d == c by {
                    if d == c {
                        assert(self.stats@[sq_index(*square)]@[k as int]);
                    }
                }
            }
        }
        r
    }

    /// Fills the board from an 81-character puzzle in row-major order: every
    /// square is reset to all digits, then each character `'1'..='9'` is
    /// assigned to its square; any other character leaves the square blank.
    pub fn init_game_with_values(&mut self, values: &str) -> (r: Result<(), SudokuError>)
        requires
            old(self).wf(),
            values@.len() >= 81,
        ensures
            final(self).wf(),
            final(self).game_setup == old(self).game_setup,
            r is Ok ==> forall|n: int, x: int|
                0 <= n < 81 && 0 <= x < 9 && is_digit(values@[n]) ==> (#[trigger] final(self).stats@[n]@[x]
                    <==> x == digit_of(values@[n])),
            forall|g: Seq<int>|
                valid_grid(g) && #[trigger] fits_givens(g, values@) ==> r is Ok && within(g, final(self).stats@),
            r is Ok ==> arc_consistent(final(self).stats@),
    {
        let mut n: usize = 0;
        while n < 81
            invariant
                n <= 81,
                self.wf(),
                self.game_setup == old(self).game_setup,
                forall|i: int, k: int| 0 <= i < n && 0 <= k < 9 ==> #[trigger] self.stats@[i]@[k],
            decreases 81 - n,
        {
            let ghost before = self.stats@;
            self.stats.set(n, [true; 9]);
            proof {
                assert forall|i: int| 0 <= i < 81 implies cnt(#[trigger] self.stats@[i]@, 9) > 0 by {
                    if i == n {
                        lemma_cnt_zero(self.stats@[i]@, 9);
                    } else {
                        assert(self.stats@[i] == before[i]);
                    }
                }
            }
            n += 1;
        }
        proof {
            assert forall|i: int, e: int| 0 <= i < 81 && #[trigger] single(self.stats@[i]@, e) implies clean(self.stats@, i, e) by {
                let x: int = if e == 0 { 1 } else { 0 };
                assert(self.stats@[i]@[x]);
            }
        }
        let mut n: usize = 0;
        while n < 81
            invariant
                n <= 81,
                values@.len() >= 81,
                self.wf(),
                self.game_setup == old(self).game_setup,
                forall|i: int, x: int|
                    0 <= i < n && 0 <= x < 9 && is_digit(values@[i]) ==> (#[trigger] self.stats@[i]@[x]
                        <==> x == digit_of(values@[i])),
                forall|g: Seq<int>|
                    valid_grid(g) && #[trigger] fits_givens(g, values@) ==> within(g, self.stats@),
                arc_consistent(self.stats@),
            decreases 81 - n,
        {
            let c = values.get_char(n);
            if '1' <= c && c <= '9' {
                let k = (c as u32 - '1' as u32) as usize;
                let ghost before = self.stats@;
                match self.assign_at(n, k) {
                    Ok(()) => {},
                    Err(x) => {
                        proof {
                            assert forall|g: Seq<int>|
                                valid_grid(g) && #[trigger] fits_givens(g, values@) implies false by {
                                assert(within(g, before));
                                assert(g[n as int] == k);
                            }
                        }
                        return Err(x);
                    },
                }
                proof {
                    assert forall|g: Seq<int>|
                        valid_grid(g) && #[trigger] fits_givens(g, values@) implies within(g, self.stats@) by {
                        assert(within(g, before));
                        assert(g[n as int] == k);
                    }
                    assert forall|i: int, x: int|
                        0 <= i < n && 0 <= x < 9 && is_digit(values@[i]) implies (#[trigger] self.stats@[i]@[x]
                            <==> x == digit_of(values@[i])) by {
                        let a = self.stats@[i]@;
                        lemma_cnt_zero(a, 9);
                        let y = choose|y: int| 0 <= y < 9 && a[y];
                        assert(before[i]@[y]);
                    }
                }
            }
            n += 1;
        }
        Ok(())
    }

    /// Whether the digits `digits` (one per square, row-major) hold each digit
    /// exactly once in every unit.
    fn check_grid(&self, digits: &Vec<usize>) -> (r: bool)
        requires
            self.game_setup.wf(),
            digits@.len() == 81,
            forall|n: int| 0 <= n < 81 ==> #[trigger] digits@[n] < 9,
        ensures
            r == valid_grid(as_grid(digits@)),
    {
        let ghost g = as_grid(digits@);
        let setup = self.game_setup;
        let mut u: usize = 0;
        while u < 27
            invariant
                u <= 27,
                setup.wf(),
                g == as_grid(digits@),
                digits@.len() == 81,
                forall|n: int| 0 <= n < 81 ==> #[trigger] digits@[n] < 9,
                forall|v: int| 0 <= v < u ==> #[trigger] unit_distinct(g, v),
                forall|v: int, k: int| 0 <= v < u && 0 <= k < 9 ==> #[trigger] unit_has_digit(g, v, k),
            decreases 27 - u,
        {
            let unit = &setup.squares[u];
            let mut i: usize = 0;
            while i < 9
                invariant
                    u < 27,
                    i <= 9,
                    setup.wf(),
                    unit == setup.squares@[u as int],
                    g == as_grid(digits@),
                    digits@.len() == 81,
                    forall|a: int, b: int|
                        0 <= a < i && 0 <= b < 9 && a != b ==> #[trigger] g[sq_index(unit_square(u as int, a))]
                            != #[trigger] g[sq_index(unit_square(u as int, b))],
                decreases 9 - i,
            {
                let mut j: usize = 0;
                while j < 9
                    invariant
                        u < 27,
                        i < 9,
                        j <= 9,
                        setup.wf(),
                        unit == setup.squares@[u as int],
                        g == as_grid(digits@),
                        digits@.len() == 81,
                        forall|a: int, b: int|
                            0 <= a < i && 0 <= b < 9 && a != b ==> #[trigger] g[sq_index(unit_square(u as int, a))]
                                != #[trigger] g[sq_index(unit_square(u as int, b))],
                        forall|b: int|
                            0 <= b < j && i != b ==> g[sq_index(unit_square(u as int, i as int))]
                                != #[trigger] g[sq_index(unit_square(u as int, b))],
                    decreases 9 - j,
                {
                    let a = unit[i];
                    let b = unit[j];
                    proof {
                        lemma_unit_square(u as int, i as int);
                        lemma_unit_square(u as int, j as int);
                        lemma_index_square(a);
                        lemma_index_square(b);
                    }
                    if i != j && digits[a.0 * 9 + a.1] == digits[b.0 * 9 + b.1] {
                        proof {
                            assert(unit@[i as int] == unit_square(u as int, i as int));
                            assert(unit@[j as int] == unit_square(u as int, j as int));
                            assert(g[sq_index(unit_square(u as int, i as int))] == g[sq_index(
                                unit_square(u as int, j as int),
                            )]);
                        }
                        return false;
                    }
                    j += 1;
                }
                i += 1;
            }
            let mut k: usize = 0;
            while k < 9
                invariant
                    u < 27,
                    k <= 9,
                    setup.wf(),
                    unit == setup.squares@[u as int],
                    g == as_grid(digits@),
                    digits@.len() == 81,
                    forall|c: int| 0 <= c < k ==> #[trigger] unit_has_digit(g, u as int, c),
                decreases 9 - k,
            {
                let mut found = false;
                let mut i: usize = 0;
                while i < 9
                    invariant
                        u < 27,
                        i <= 9,
                        k < 9,
                        setup.wf(),
                        unit == setup.squares@[u as int],
                        g == as_grid(digits@),
                        digits@.len() == 81,
                        found ==> unit_has_digit(g, u as int, k as int),
                        !found ==> forall|a: int| 0 <= a < i ==> #[trigger] g[sq_index(unit_square(u as int, a))] != k,
                    decreases 9 - i,
                {
                    let a = unit[i];
                    proof {
                        lemma_unit_square(u as int, i as int);
                        lemma_index_square(a);
                    }
                    proof {
                        assert(unit@[i as int] == unit_square(u as int, i as int));
                    }
                    if digits[a.0 * 9 + a.1] == k {
                        found = true;
                    }
                    i += 1;
                }
                if !found {
                    proof {
                        assert(!unit_has_digit(g, u as int, k as int));
                    }
                    return false;
                }
                k += 1;
            }
            u += 1;
        }
        proof {
            assert forall|v: int, i: int, j: int|
                0 <= v < 27 && 0 <= i < 9 && 0 <= j < 9 && i != j implies #[trigger] g[sq_index(unit_square(v, i))]
                    != #[trigger] g[sq_index(unit_square(v, j))] by {
                assert(unit_distinct(g, v));
            }
        }
        true
    }

    /// The state of the search at this board: a failure when the board is
    /// contradictory, `(true, _)` when it is solved, and otherwise `(false, s)`
    /// with `s` the square to branch on.
    pub fn is_solved(&self) -> (r: Result<(bool, SudokuSquare), SudokuError>)
        requires
            self.wf(),
        ensures
            match r {
                Err(_) => all_single(self.stats@) && !valid_grid(solution_of(self.stats@)),
                Ok((true, s)) => solved(self.stats@) && s == SudokuSquare(0, 0),
                Ok((false, s)) => branch_square(self.stats@, s) && !all_single(self.stats@),
            },
    {
        let ghost m = self.stats@;
        let mut best_n: usize = 81;
        let mut best_c: usize = 10;
        let mut n: usize = 0;
        while n < 81
            invariant
                n <= 81,
                self.wf(),
                m == self.stats@,
                best_n == 81 ==> forall|i: int| 0 <= i < n ==> cnt(#[trigger] m[i]@, 9) < 2,
                best_n < 81 ==> best_n < n && best_c == cnt(m[best_n as int]@, 9) && best_c >= 2,
                best_n < 81 ==> forall|i: int|
                    0 <= i < n && cnt(#[trigger] m[i]@, 9) >= 2 ==> cnt(m[i]@, 9) >= best_c && (i < best_n
                        ==> cnt(m[i]@, 9) > best_c),
                best_n <= 81,
            decreases 81 - n,
        {
            let c = count_candidates(&self.stats[n]);
            if c >= 2 && (best_n == 81 || c < best_c) {
                best_n = n;
                best_c = c;
            }
            n += 1;
        }
        if best_n < 81 {
            let s = SudokuSquare(best_n / 9, best_n % 9);
            proof {
                lemma_square_index(best_n as int);
            }
            return Ok((false, s));
        }
        let mut digits: Vec<usize> = Vec::new();
        let mut n: usize = 0;
        while n < 81
            invariant
                n <= 81,
                self.wf(),
                m == self.stats@,
                all_single(m),
                digits@.len() == n,
                forall|i: int| 0 <= i < n ==> #[trigger] digits@[i] < 9 && digits@[i] as int == solution_of(m)[i],
            decreases 81 - n,
        {
            let e = first_candidate(&self.stats[n]);
            proof {
                let a = m[n as int]@;
                lemma_cnt_one(a, 9, e as int);
                let k = choose|k: int| 0 <= k < 9 && a[k];
                assert(solution_of(m)[n as int] == k);
            }
            digits.push(e);
            n += 1;
        }
        proof {
            assert(as_grid(digits@) =~= solution_of(m));
        }
        if self.check_grid(&digits) {
            Ok((true, SudokuSquare(0, 0)))
        } else {
            Err(SudokuError::NoRemainingValues)
        }
    }

    /// Depth-first search: the first solved board found by branching on the
    /// square with the fewest candidates, its digits tried in ascending order;
    /// `None` when no valid grid fits this board.
    pub fn search(&self) -> (r: Option<Game<'a>>)
        requires
            self.wf(),
        ensures
            match r {
                Some(b) => b.wf() && b.game_setup == self.game_setup && solved(b.stats@) && shrinks(
                    b.stats@,
                    self.stats@,
                ),
                None => forall|g: Seq<int>| valid_grid(g) ==> !#[trigger] within(g, self.stats@),
            },
        decreases total(self.stats@, 81),
    {
        let ghost m = self.stats@;
        match self.is_solved() {
            Err(_) => {
                proof {
                    assert forall|g: Seq<int>| valid_grid(g) implies !#[trigger] within(g, m) by {
                        if within(g, m) {
                            lemma_single_grid(m, g);
                        }
                    }
                }
                None
            },
            Ok((true, _)) => Some(self.clone_state()),
            Ok((false, sq)) => {
                proof {
                    lemma_index_square(sq);
                }
                let n = sq.0 * 9 + sq.1;
                let mut k: usize = 0;
                while k < 9
                    invariant
                        k <= 9,
                        self.wf(),
                        m == self.stats@,
                        n == sq_index(sq),
                        n < 81,
                        cnt(m[n as int]@, 9) >= 2,
                        forall|g: Seq<int>| valid_grid(g) && #[trigger] within(g, m) ==> g[n as int] >= k,
                    decreases 9 - k,
                {
                    if self.stats[n][k] {
                        let mut b = self.clone_state();
                        match b.assign_at(n, k) {
                            Ok(()) => {
                                proof {
                                    let a = m[n as int]@;
                                    lemma_cnt_one(a, 9, k as int);
                                    let x = choose|x: int| 0 <= x < 9 && x != k && a[x];
                                    assert(!b.stats@[n as int]@[x]);
                                    lemma_total_mono(b.stats@, m, 81);
                                }
                                match b.search() {
                                    Some(s) => {
                                        proof {
                                            assert forall|i: int, x: int|
                                                0 <= i < 81 && 0 <= x < 9 && #[trigger] s.stats@[i]@[x] implies m[i]@[x] by {
                                                assert(b.stats@[i]@[x]);
                                            }
                                        }
                                        return Some(s);
                                    },
                                    None => {},
                                }
                                proof {
                                    assert forall|g: Seq<int>| valid_grid(g) && #[trigger] within(g, m) implies g[n as int] >= k + 1 by {
                                        if g[n as int] == k {
                                            assert(within(g, b.stats@));
                                        }
                                    }
                                }
                            },
                            Err(_) => {
                                proof {
                                    assert forall|g: Seq<int>| valid_grid(g) && #[trigger] within(g, m) implies g[n as int] >= k + 1 by {
                                        if g[n as int] == k {
                                            assert(within(g, m));
                                        }
                                    }
                                }
                            },
                        }
                    } else {
                        proof {
                            assert forall|g: Seq<int>| valid_grid(g) && #[trigger] within(g, m) implies g[n as int] >= k + 1 by {
                                assert(m[n as int]@[g[n as int]]);
                            }
                        }
                    }
                    k += 1;
                }
                proof {
                    assert forall|g: Seq<int>| valid_grid(g) implies !#[trigger] within(g, m) by {
                        if within(g, m) {
                            assert(g[n as int] < 9);
                        }
                    }
                }
                None
            },
        }
    }
}

} // verus!
