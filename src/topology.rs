use core::ops::{Range, RangeInclusive};
use vstd::prelude::*;

verus! {

/// A square of the board: (row, column), each in `0..9`.
#[derive(Debug, Clone, Copy, PartialEq, Eq, Structural, Hash, PartialOrd, Ord)]
pub struct SudokuSquare(pub usize, pub usize);

/// The square lies on the 9x9 board.
pub open spec fn sq_valid(s: SudokuSquare) -> bool {
    s.0 < 9 && s.1 < 9
}

/// Position of a square in row-major order.
pub open spec fn sq_index(s: SudokuSquare) -> int {
    s.0 as int * 9 + s.1 as int
}

/// The square at row-major position `n`.
pub open spec fn square_at(n: int) -> SudokuSquare {
    SudokuSquare((n / 9) as usize, (n % 9) as usize)
}

/// Index of the 3x3 box that holds the square, boxes numbered row-major.
pub open spec fn box_of(s: SudokuSquare) -> int {
    s.0 as int / 3 * 3 + s.1 as int / 3
}

/// The `i`-th member of unit `u`.  Units `0..9` are the rows, `9..18` the
/// columns and `18..27` the 3x3 boxes; members are listed in row-major order.
pub open spec fn unit_square(u: int, i: int) -> SudokuSquare {
    if u < 9 {
        SudokuSquare(u as usize, i as usize)
    } else if u < 18 {
        SudokuSquare(i as usize, (u - 9) as usize)
    } else {
        SudokuSquare(
            ((u - 18) / 3 * 3 + i / 3) as usize,
            ((u - 18) % 3 * 3 + i % 3) as usize,
        )
    }
}

/// Square `s` belongs to unit `u`.
pub open spec fn in_unit(u: int, s: SudokuSquare) -> bool {
    if u < 9 {
        s.0 == u
    } else if u < 18 {
        s.1 == u - 9
    } else {
        box_of(s) == u - 18
    }
}

/// Where square `s` stands inside a unit that holds it.
pub open spec fn pos_in_unit(u: int, s: SudokuSquare) -> int {
    if u < 9 {
        s.1 as int
    } else if u < 18 {
        s.0 as int
    } else {
        s.0 as int % 3 * 3 + s.1 as int % 3
    }
}

/// The `j`-th unit (row, column, box) that holds square `s`.
pub open spec fn unit_of(s: SudokuSquare, j: int) -> int {
    if j == 0 {
        s.0 as int
    } else if j == 1 {
        9 + s.1 as int
    } else {
        18 + box_of(s)
    }
}

/// Two distinct squares that share a row, a column or a box.
pub open spec fn is_peer(a: SudokuSquare, b: SudokuSquare) -> bool {
    a != b && (a.0 == b.0 || a.1 == b.1 || box_of(a) == box_of(b))
}

pub proof fn lemma_unit_square(u: int, i: int)
    requires
        0 <= u < 27,
        0 <= i < 9,
    ensures
        sq_valid(unit_square(u, i)),
        in_unit(u, unit_square(u, i)),
        pos_in_unit(u, unit_square(u, i)) == i,
{
    if u >= 18 {
        let b = u - 18;
        let r = b / 3 * 3 + i / 3;
        let c = b % 3 * 3 + i % 3;
        assert(r / 3 == b / 3 && r % 3 == i / 3);
        assert(c / 3 == b % 3 && c % 3 == i % 3);
        assert(b == b / 3 * 3 + b % 3);
        assert(i == i / 3 * 3 + i % 3);
    }
}

pub proof fn lemma_pos_in_unit(u: int, s: SudokuSquare)
    requires
        0 <= u < 27,
        sq_valid(s),
        in_unit(u, s),
    ensures
        0 <= pos_in_unit(u, s) < 9,
        unit_square(u, pos_in_unit(u, s)) == s,
{
    if u >= 18 {
        let r = s.0 as int;
        let c = s.1 as int;
        let b = u - 18;
        assert(b / 3 == r / 3 && b % 3 == c / 3);
        assert(r == r / 3 * 3 + r % 3);
        assert(c == c / 3 * 3 + c % 3);
        let i = r % 3 * 3 + c % 3;
        assert(i / 3 == r % 3 && i % 3 == c % 3);
    }
}

/// A square lies in unit `u` exactly when `u` is one of its three units.
pub proof fn lemma_unit_of(s: SudokuSquare, u: int)
    requires
        sq_valid(s),
        0 <= u < 27,
    ensures
        in_unit(u, s) <==> (u == unit_of(s, 0) || u == unit_of(s, 1) || u == unit_of(s, 2)),
        0 <= unit_of(s, 0) < 9,
        9 <= unit_of(s, 1) < 18,
        18 <= unit_of(s, 2) < 27,
        in_unit(unit_of(s, 0), s) && in_unit(unit_of(s, 1), s) && in_unit(unit_of(s, 2), s),
{
}

/// Peers are exactly the other squares that share a unit.
pub proof fn lemma_peer_unit(a: SudokuSquare, b: SudokuSquare)
    requires
        sq_valid(a),
        sq_valid(b),
    ensures
        is_peer(a, b) <==> (a != b && (in_unit(unit_of(a, 0), b) || in_unit(unit_of(a, 1), b)
            || in_unit(unit_of(a, 2), b))),
{
}

pub proof fn lemma_square_at(r: int, c: int)
    requires
        0 <= r < 9,
        0 <= c < 9,
    ensures
        square_at(r * 9 + c) == SudokuSquare(r as usize, c as usize),
        sq_index(SudokuSquare(r as usize, c as usize)) == r * 9 + c,
{
    vstd::arithmetic::div_mod::lemma_fundamental_div_mod_converse(r * 9 + c, 9, r, c);
}

pub proof fn lemma_square_index(n: int)
    requires
        0 <= n < 81,
    ensures
        sq_valid(square_at(n)),
        sq_index(square_at(n)) == n,
{
}

pub proof fn lemma_index_square(s: SudokuSquare)
    requires
        sq_valid(s),
    ensures
        0 <= sq_index(s) < 81,
        square_at(sq_index(s)) == s,
{
    lemma_square_at(s.0 as int, s.1 as int);
}

/// An interval of board coordinates, given by its first and last value.
pub trait RangeInterval {
    /// The first value of the range.
    spec fn lo(&self) -> int;

    /// The last value of the range.
    spec fn hi(&self) -> int;

    /// The bounds of the range can be read.
    spec fn has_bounds(&self) -> bool;

    /// The first and the last value of the range.
    fn interval(&self) -> (r: (usize, usize))
        requires
            self.has_bounds(),
        ensures
            r.0 == self.lo(),
            r.1 == self.hi(),
    ;
}

impl RangeInterval for Range<usize> {
    open spec fn lo(&self) -> int {
        self.start as int
    }

    open spec fn hi(&self) -> int {
        self.end - 1
    }

    open spec fn has_bounds(&self) -> bool {
        self.start < self.end
    }

    fn interval(&self) -> (r: (usize, usize)) {
        (self.start, self.end - 1)
    }
}

/// Relies on `RangeInclusive::start`: the lower bound of a range that has not
/// been iterated.
#[verifier::external_body]
fn inclusive_start(r: &RangeInclusive<usize>) -> (v: usize)
    requires
        !r@.exhausted,
    ensures
        v == r@.start,
{
    *r.start()
}

/// Relies on `RangeInclusive::end`: the upper bound of a range that has not
/// been iterated.
#[verifier::external_body]
fn inclusive_end(r: &RangeInclusive<usize>) -> (v: usize)
    requires
        !r@.exhausted,
    ensures
        v == r@.end,
{
    *r.end()
}

impl RangeInterval for RangeInclusive<usize> {
    open spec fn lo(&self) -> int {
        self@.start as int
    }

    open spec fn hi(&self) -> int {
        self@.end as int
    }

    open spec fn has_bounds(&self) -> bool {
        !self@.exhausted
    }

    fn interval(&self) -> (r: (usize, usize)) {
        (inclusive_start(self), inclusive_end(self))
    }
}

/// The squares of the rectangle `rows` x `cols`, in row-major order.
pub fn create_square_vec<R: RangeInterval, C: RangeInterval>(rows: &R, cols: &C) -> (v: Vec<
    SudokuSquare,
>)
    requires
        rows.has_bounds(),
        cols.has_bounds(),
        0 <= rows.lo() <= rows.hi() < 9,
        0 <= cols.lo() <= cols.hi() < 9,
    ensures
        v@.len() == (rows.hi() - rows.lo() + 1) * (cols.hi() - cols.lo() + 1),
        forall|k: int|
            0 <= k < v@.len() ==> #[trigger] v@[k] == SudokuSquare(
                (rows.lo() + k / (cols.hi() - cols.lo() + 1)) as usize,
                (cols.lo() + k % (cols.hi() - cols.lo() + 1)) as usize,
            ),
{
    let (r0, r1) = rows.interval();
    let (c0, c1) = cols.interval();
    let ghost nc = c1 - c0 + 1;
    let mut v: Vec<SudokuSquare> = Vec::new();
    let mut i: usize = r0;
    while i <= r1
        invariant
            r0 <= i <= r1 + 1,
            r1 < 9,
            c0 <= c1 < 9,
            nc == c1 - c0 + 1,
            v@.len() == (i - r0) * nc,
            forall|k: int|
                0 <= k < v@.len() ==> #[trigger] v@[k] == SudokuSquare(
                    (r0 + k / nc) as usize,
                    (c0 + k % nc) as usize,
                ),
        decreases r1 + 1 - i,
    {
        let mut j: usize = c0;
        while j <= c1
            invariant
                r0 <= i <= r1,
                r1 < 9,
                c0 <= j <= c1 + 1,
                c1 < 9,
                nc == c1 - c0 + 1,
                v@.len() == (i - r0) * nc + (j - c0),
                forall|k: int|
                    0 <= k < v@.len() ==> #[trigger] v@[k] == SudokuSquare(
                        (r0 + k / nc) as usize,
                        (c0 + k % nc) as usize,
                    ),
            decreases c1 + 1 - j,
        {
            proof {
                vstd::arithmetic::div_mod::lemma_fundamental_div_mod_converse(
                    v@.len() as int,
                    nc,
                    i - r0,
                    j - c0,
                );
            }
            v.push(SudokuSquare(i, j));
            j += 1;
        }
        proof {
            assert((i - r0) * nc + nc == (i + 1 - r0) * nc) by (nonlinear_arith);
        }
        i += 1;
    }
    v
}

/// `ul` is the list of the 27 units, each in row-major order.
pub open spec fn units_wf(ul: Seq<Vec<SudokuSquare>>) -> bool {
    &&& ul.len() == 27
    &&& forall|u: int| 0 <= u < 27 ==> (#[trigger] ul[u])@.len() == 9
    &&& forall|u: int, i: int| 0 <= u < 27 && 0 <= i < 9 ==> #[trigger] ul[u]@[i] == unit_square(u, i)
}

/// The 27 units of the board: the 9 rows, then the 9 columns, then the 9 boxes.
pub fn create_unitlist(r: Range<usize>, c: Range<usize>) -> (v: Vec<Vec<SudokuSquare>>)
    requires
        r.start == 0 && r.end == 9,
        c.start == 0 && c.end == 9,
    ensures
        units_wf(v@),
{
    let max_rows = r.end;
    let max_cols = c.end;
    let mut v: Vec<Vec<SudokuSquare>> = Vec::new();
    let mut row: usize = 0;
    while row < max_rows
        invariant
            max_rows == 9 && max_cols == 9,
            row <= 9,
            v@.len() == row,
            forall|u: int| 0 <= u < row ==> (#[trigger] v@[u])@.len() == 9,
            forall|u: int, i: int| 0 <= u < row && 0 <= i < 9 ==> #[trigger] v@[u]@[i] == unit_square(u, i),
        decreases 9 - row,
    {
        let rr = RangeInclusive::new(row, row);
        let cr = 0..max_cols;
        let unit = create_square_vec(&rr, &cr);
        assert(rr.hi() - rr.lo() + 1 == 1 && cr.hi() - cr.lo() + 1 == 9);
        assert forall|i: int| 0 <= i < 9 implies #[trigger] unit@[i] == unit_square(row as int, i) by {
            assert(i / 9 == 0 && i % 9 == i);
        }
        v.push(unit);
        row += 1;
    }
    let mut col: usize = 0;
    while col < max_cols
        invariant
            max_rows == 9 && max_cols == 9,
            col <= 9,
            v@.len() == 9 + col,
            forall|u: int| 0 <= u < 9 + col ==> (#[trigger] v@[u])@.len() == 9,
            forall|u: int, i: int| 0 <= u < 9 + col && 0 <= i < 9 ==> #[trigger] v@[u]@[i] == unit_square(u, i),
        decreases 9 - col,
    {
        let rr = 0..max_rows;
        let cr = RangeInclusive::new(col, col);
        let unit = create_square_vec(&rr, &cr);
        assert(rr.hi() - rr.lo() + 1 == 9 && cr.hi() - cr.lo() + 1 == 1);
        assert forall|i: int| 0 <= i < 9 implies #[trigger] unit@[i] == unit_square(9 + col, i) by {
            assert(i / 1 == i && i % 1 == 0);
        }
        v.push(unit);
        col += 1;
    }
    let mut m: usize = 0;
    while m < 3
        invariant
            m <= 3,
            v@.len() == 18 + 3 * m,
            forall|u: int| 0 <= u < 18 + 3 * m ==> (#[trigger] v@[u])@.len() == 9,
            forall|u: int, i: int| 0 <= u < 18 + 3 * m && 0 <= i < 9 ==> #[trigger] v@[u]@[i] == unit_square(u, i),
        decreases 3 - m,
    {
        let mut n: usize = 0;
        while n < 3
            invariant
                m < 3,
                n <= 3,
                v@.len() == 18 + 3 * m + n,
                forall|u: int| 0 <= u < 18 + 3 * m + n ==> (#[trigger] v@[u])@.len() == 9,
                forall|u: int, i: int| 0 <= u < 18 + 3 * m + n && 0 <= i < 9 ==> #[trigger] v@[u]@[i] == unit_square(u, i),
            decreases 3 - n,
        {
            let rr = RangeInclusive::new(m * 3, m * 3 + 2);
            let cr = RangeInclusive::new(n * 3, n * 3 + 2);
            let unit = create_square_vec(&rr, &cr);
            assert(rr.hi() - rr.lo() + 1 == 3 && cr.hi() - cr.lo() + 1 == 3);
            assert(unit@.len() == 9) by {
                let a = rr.hi() - rr.lo() + 1;
                let b = cr.hi() - cr.lo() + 1;
                assert(a * b == 9) by (nonlinear_arith)
                    requires
                        a == 3 && b == 3,
                ;
            }
            let ghost b = 3 * m + n;
            assert(b / 3 == m && b % 3 == n);
            v.push(unit);
            n += 1;
        }
        m += 1;
    }
    v
}

/// The units that hold one square, by their position in the unit list.
pub struct SudokuUnit {
    pub unitvec: Vec<usize>,
}

/// `d` gives, for the square at each row-major position, its row, column
/// and box unit in that order.
pub open spec fn unit_dict_wf(d: Seq<SudokuUnit>) -> bool {
    &&& d.len() == 81
    &&& forall|n: int| 0 <= n < 81 ==> (#[trigger] d[n]).unitvec@ == seq![
        unit_of(square_at(n), 0) as usize,
        unit_of(square_at(n), 1) as usize,
        unit_of(square_at(n), 2) as usize,
    ]
}

/// Whether `sq` is one of the squares of `unit`.
fn unit_contains(unit: &Vec<SudokuSquare>, sq: SudokuSquare) -> (r: bool)
    ensures
        r == unit@.contains(sq),
{
    let mut i: usize = 0;
    while i < unit.len()
        invariant
            i <= unit@.len(),
            forall|k: int| 0 <= k < i ==> unit@[k] != sq,
        decreases unit@.len() - i,
    {
        if unit[i] == sq {
            return true;
        }
        i += 1;
    }
    false
}

/// The first `u` units, kept when they hold `s`.
pub open spec fn units_upto(s: SudokuSquare, u: int) -> Seq<usize> {
    if u <= unit_of(s, 0) {
        seq![]
    } else if u <= unit_of(s, 1) {
        seq![unit_of(s, 0) as usize]
    } else if u <= unit_of(s, 2) {
        seq![unit_of(s, 0) as usize, unit_of(s, 1) as usize]
    } else {
        seq![unit_of(s, 0) as usize, unit_of(s, 1) as usize, unit_of(s, 2) as usize]
    }
}

/// For each square in row-major order, the units of `unitlist` that hold it.
pub fn create_unit_dictionary(unitlist: &Vec<Vec<SudokuSquare>>) -> (d: Vec<SudokuUnit>)
    requires
        units_wf(unitlist@),
    ensures
        unit_dict_wf(d@),
{
    let mut d: Vec<SudokuUnit> = Vec::new();
    let mut r: usize = 0;
    while r < 9
        invariant
            r <= 9,
            units_wf(unitlist@),
            d@.len() == r * 9,
            forall|n: int| 0 <= n < r * 9 ==> (#[trigger] d@[n]).unitvec@ == units_upto(square_at(n), 27),
        decreases 9 - r,
    {
        let mut c: usize = 0;
        while c < 9
            invariant
                r < 9,
                c <= 9,
                units_wf(unitlist@),
                d@.len() == r * 9 + c,
                forall|n: int| 0 <= n < r * 9 + c ==> (#[trigger] d@[n]).unitvec@ == units_upto(square_at(n), 27),
            decreases 9 - c,
        {
            let sq = SudokuSquare(r, c);
            let mut unitvec: Vec<usize> = Vec::new();
            let mut u: usize = 0;
            while u < unitlist.len()
                invariant
                    r < 9 && c < 9,
                    sq == SudokuSquare(r, c),
                    u <= 27,
                    units_wf(unitlist@),
                    unitvec@ == units_upto(sq, u as int),
                decreases 27 - u,
            {
                let found = unit_contains(&unitlist[u], sq);
                proof {
                    lemma_unit_of(sq, u as int);
                    if in_unit(u as int, sq) {
                        lemma_pos_in_unit(u as int, sq);
                        assert(unitlist@[u as int]@[pos_in_unit(u as int, sq)] == sq);
                    }
                    if unitlist@[u as int]@.contains(sq) {
                        let i = choose|i: int| 0 <= i < 9 && unitlist@[u as int]@[i] == sq;
                        lemma_unit_square(u as int, i);
                    }
                }
                if found {
                    unitvec.push(u);
                }
                u += 1;
            }
            proof {
                lemma_square_at(r as int, c as int);
            }
            d.push(SudokuUnit { unitvec });
            c += 1;
        }
        r += 1;
    }
    d
}

/// `p` gives, for the square at each row-major position, its peers, each once.
pub open spec fn peers_wf(p: Seq<Vec<SudokuSquare>>) -> bool {
    &&& p.len() == 81
    &&& forall|n: int| 0 <= n < 81 ==> (#[trigger] p[n])@.no_duplicates()
    &&& forall|n: int, t: SudokuSquare|
        0 <= n < 81 ==> (#[trigger] p[n]@.contains(t) <==> sq_valid(t) && is_peer(square_at(n), t))
}

/// `t` is another square of one of the first `j` units of `s`, or of the
/// `j`-th one before position `i`.
pub open spec fn marked_upto(s: SudokuSquare, t: SudokuSquare, j: int, i: int) -> bool {
    t != s && ((j > 0 && in_unit(unit_of(s, 0), t)) || (j > 1 && in_unit(unit_of(s, 1), t)) || (j
        > 2 && in_unit(unit_of(s, 2), t)) || (j < 3 && in_unit(unit_of(s, j), t) && pos_in_unit(
        unit_of(s, j),
        t,
    ) < i))
}

/// The other squares of the units of `sq`, in row-major order.
fn peers_of_square(
    sq: SudokuSquare,
    unit: &SudokuUnit,
    unitlist: &Vec<Vec<SudokuSquare>>,
) -> (p: Vec<SudokuSquare>)
    requires
        sq_valid(sq),
        units_wf(unitlist@),
        unit.unitvec@ == seq![
            unit_of(sq, 0) as usize,
            unit_of(sq, 1) as usize,
            unit_of(sq, 2) as usize,
        ],
    ensures
        p@.no_duplicates(),
        forall|t: SudokuSquare| #[trigger] p@.contains(t) <==> sq_valid(t) && is_peer(sq, t),
{
    proof {
        lemma_unit_of(sq, 0);
    }
    let mut mark: Vec<bool> = Vec::new();
    while mark.len() < 81
        invariant
            mark@.len() <= 81,
            forall|m: int| 0 <= m < mark@.len() ==> !(#[trigger] mark@[m]),
        decreases 81 - mark@.len(),
    {
        mark.push(false);
    }
    let mut j: usize = 0;
    while j < 3
        invariant
            j <= 3,
            sq_valid(sq),
            units_wf(unitlist@),
            unit.unitvec@ == seq![
                unit_of(sq, 0) as usize,
                unit_of(sq, 1) as usize,
                unit_of(sq, 2) as usize,
            ],
            mark@.len() == 81,
            forall|m: int| 0 <= m < 81 ==> #[trigger] mark@[m] == marked_upto(sq, square_at(m), j as int, 0),
        decreases 3 - j,
    {
        let u = unit.unitvec[j];
        proof {
            lemma_unit_of(sq, 0);
        }
        let mut i: usize = 0;
        while i < 9
            invariant
                j < 3,
                i <= 9,
                sq_valid(sq),
                units_wf(unitlist@),
                u as int == unit_of(sq, j as int),
                0 <= u < 27,
                mark@.len() == 81,
                forall|m: int| 0 <= m < 81 ==> #[trigger] mark@[m] == marked_upto(sq, square_at(m), j as int, i as int),
            decreases 9 - i,
        {
            let t = unitlist[u][i];
            proof {
                lemma_unit_square(u as int, i as int);
                lemma_index_square(t);
                assert forall|m: int| 0 <= m < 81 && m != sq_index(t) implies square_at(m) != t by {
                    lemma_square_index(m);
                }
                assert forall|m: int| 0 <= m < 81 && in_unit(u as int, square_at(m)) && pos_in_unit(u as int, square_at(m)) == i implies m == sq_index(t) by {
                    lemma_square_index(m);
                    lemma_pos_in_unit(u as int, square_at(m));
                }
            }
            if t != sq {
                mark.set(t.0 * 9 + t.1, true);
            }
            i += 1;
        }
        proof {
            assert forall|m: int| 0 <= m < 81 implies #[trigger] mark@[m] == marked_upto(sq, square_at(m), j + 1, 0) by {
                lemma_square_index(m);
                if in_unit(u as int, square_at(m)) {
                    lemma_pos_in_unit(u as int, square_at(m));
                }
            }
        }
        j += 1;
    }
    let mut p: Vec<SudokuSquare> = Vec::new();
    let mut m: usize = 0;
    while m < 81
        invariant
            m <= 81,
            mark@.len() == 81,
            forall|k: int| 0 <= k < 81 ==> #[trigger] mark@[k] == marked_upto(sq, square_at(k), 3, 0),
            forall|a: int, b: int| 0 <= a < b < p@.len() ==> sq_index(#[trigger] p@[a]) < sq_index(#[trigger] p@[b]),
            forall|a: int| 0 <= a < p@.len() ==> sq_valid(#[trigger] p@[a]) && sq_index(p@[a]) < m && mark@[sq_index(p@[a])],
            forall|k: int| 0 <= k < m && #[trigger] mark@[k] ==> p@.contains(square_at(k)),
        decreases 81 - m,
    {
        let t = SudokuSquare(m / 9, m % 9);
        proof {
            lemma_square_index(m as int);
        }
        if mark[m] {
            let ghost old_p = p@;
            p.push(t);
            proof {
                assert(p@[p@.len() - 1] == t);
                assert forall|k: int| 0 <= k < m && #[trigger] mark@[k] implies p@.contains(square_at(k)) by {
                    let a = choose|a: int| 0 <= a < old_p.len() && old_p[a] == square_at(k);
                    assert(p@[a] == square_at(k));
                }
            }
        }
        m += 1;
    }
    proof {
        assert forall|t: SudokuSquare| #[trigger] p@.contains(t) <==> sq_valid(t) && is_peer(sq, t) by {
            if sq_valid(t) {
                lemma_peer_unit(sq, t);
                lemma_index_square(t);
                assert(mark@[sq_index(t)] == marked_upto(sq, t, 3, 0));
            }
        }
        assert forall|a: int, b: int| 0 <= a < p@.len() && 0 <= b < p@.len() && a != b implies p@[a] != p@[b] by {
            if a < b {
                assert(sq_index(p@[a]) < sq_index(p@[b]));
            } else {
                assert(sq_index(p@[b]) < sq_index(p@[a]));
            }
        }
    }
    p
}

/// For each square in row-major order, its 20 peers.
pub fn create_peers_dictionary(
    unit_dict: &Vec<SudokuUnit>,
    unitlist: &Vec<Vec<SudokuSquare>>,
) -> (peers: Vec<Vec<SudokuSquare>>)
    requires
        unit_dict_wf(unit_dict@),
        units_wf(unitlist@),
    ensures
        peers_wf(peers@),
{
    let mut peers: Vec<Vec<SudokuSquare>> = Vec::new();
    let mut n: usize = 0;
    while n < 81
        invariant
            n <= 81,
            unit_dict_wf(unit_dict@),
            units_wf(unitlist@),
            peers@.len() == n,
            forall|k: int| 0 <= k < n ==> (#[trigger] peers@[k])@.no_duplicates(),
            forall|k: int, t: SudokuSquare|
                0 <= k < n ==> (#[trigger] peers@[k]@.contains(t) <==> sq_valid(t) && is_peer(square_at(k), t)),
        decreases 81 - n,
    {
        let sq = SudokuSquare(n / 9, n % 9);
        proof {
            lemma_square_index(n as int);
        }
        let p = peers_of_square(sq, &unit_dict[n], unitlist);
        peers.push(p);
        n += 1;
    }
    peers
}

/// The peers of `s` on the board.
pub open spec fn peer_set(s: SudokuSquare) -> Set<SudokuSquare> {
    Set::new(|t: SudokuSquare| sq_valid(t) && is_peer(s, t))
}

/// The `k`-th value from `base` on that is not `x`.
pub open spec fn skip(base: int, x: int, k: int) -> int {
    if base + k < x {
        base + k
    } else {
        base + k + 1
    }
}

/// The peers of `s`: the rest of its row, the rest of its column, then the
/// four squares of its box that share neither.
pub open spec fn peer_seq(s: SudokuSquare) -> Seq<SudokuSquare> {
    let r = s.0 as int;
    let c = s.1 as int;
    Seq::new(8, |k: int| SudokuSquare(r as usize, skip(0, c, k) as usize)) + Seq::new(
        8,
        |k: int| SudokuSquare(skip(0, r, k) as usize, c as usize),
    ) + Seq::new(
        4,
        |k: int| SudokuSquare(skip(r / 3 * 3, r, k / 2) as usize, skip(c / 3 * 3, c, k % 2) as usize),
    )
}

proof fn lemma_peer_seq(s: SudokuSquare)
    requires
        sq_valid(s),
    ensures
        peer_seq(s).len() == 20,
        peer_seq(s).no_duplicates(),
        forall|t: SudokuSquare| #[trigger] peer_seq(s).contains(t) <==> sq_valid(t) && is_peer(s, t),
{
    let r = s.0 as int;
    let c = s.1 as int;
    let br = r / 3 * 3;
    let bc = c / 3 * 3;
    let p = peer_seq(s);
    assert(br <= r < br + 3 && bc <= c < bc + 3);
    assert forall|a: int| 0 <= a < 20 implies sq_valid(#[trigger] p[a]) && is_peer(s, p[a]) && (a < 8
        ==> p[a].0 == r && p[a].1 != c) && (8 <= a < 16 ==> p[a].1 == c && p[a].0 != r) && (16 <= a
        ==> p[a].0 != r && p[a].1 != c && p[a].0 as int == skip(br, r, (a - 16) / 2) && p[a].1 as int
        == skip(bc, c, (a - 16) % 2)) by {
        if a >= 16 {
            let k = a - 16;
            let i = skip(br, r, k / 2);
            let j = skip(bc, c, k % 2);
            assert(br <= i < br + 3 && bc <= j < bc + 3);
            assert(i / 3 == r / 3 && j / 3 == c / 3);
        }
    }
    assert forall|a: int, b: int| 0 <= a < b < 20 implies p[a] != p[b] by {
        if a >= 16 {
            let ka = a - 16;
            let kb = b - 16;
            assert(ka / 2 != kb / 2 || ka % 2 != kb % 2);
        }
    }
    assert forall|t: SudokuSquare| sq_valid(t) && is_peer(s, t) implies #[trigger] p.contains(t) by {
        let i = t.0 as int;
        let j = t.1 as int;
        if i == r {
            let k = if j < c { j } else { j - 1 };
            assert(p[k] == t);
        } else if j == c {
            let k = if i < r { i } else { i - 1 };
            assert(p[8 + k] == t);
        } else {
            assert(i / 3 == r / 3 && j / 3 == c / 3);
            assert(br <= i < br + 3 && bc <= j < bc + 3);
            let ki = if i < r { i - br } else { i - br - 1 };
            let kj = if j < c { j - bc } else { j - bc - 1 };
            let k = 2 * ki + kj;
            assert(k / 2 == ki && k % 2 == kj);
            assert(p[16 + k] == t);
        }
    }
}

/// Every square has exactly 20 peers.
pub proof fn lemma_peer_count(s: SudokuSquare)
    requires
        sq_valid(s),
    ensures
        peer_set(s).len() == 20,
{
    lemma_peer_seq(s);
    let p = peer_seq(s);
    p.unique_seq_to_set();
    assert(p.to_set() =~= peer_set(s));
}

/// Every unit lists 9 distinct squares, and a square lies in exactly one unit
/// of each kind: `u / 9` is the kind (rows, columns, boxes), and `s` lies in
/// `u` exactly when `u` is the unit of that kind that holds `s`.
pub proof fn lemma_units_partition(u: int, s: SudokuSquare)
    requires
        0 <= u < 27,
        sq_valid(s),
    ensures
        forall|i: int, j: int|
            0 <= i < 9 && 0 <= j < 9 && #[trigger] unit_square(u, i) == #[trigger] unit_square(u, j) ==> i
                == j,
        in_unit(u, s) <==> u == unit_of(s, u / 9),
{
    assert forall|i: int, j: int|
        0 <= i < 9 && 0 <= j < 9 && #[trigger] unit_square(u, i) == #[trigger] unit_square(u, j) implies i
            == j by {
        lemma_unit_square(u, i);
        lemma_unit_square(u, j);
    }
}

/// The shared, read-only topology of the board.
pub struct GameSetup {
    /// The 27 units.
    pub squares: Vec<Vec<SudokuSquare>>,
    /// For each square in row-major order, its three units.
    pub units: Vec<SudokuUnit>,
    /// For each square in row-major order, its peers.
    pub peers: Vec<Vec<SudokuSquare>>,
    /// All 81 squares in row-major order.
    pub sorted_squares: Vec<SudokuSquare>,
}

impl GameSetup {
    pub open spec fn wf(&self) -> bool {
        &&& units_wf(self.squares@)
        &&& unit_dict_wf(self.units@)
        &&& peers_wf(self.peers@)
        &&& self.sorted_squares@.len() == 81
        &&& forall|n: int| 0 <= n < 81 ==> #[trigger] self.sorted_squares@[n] == square_at(n)
    }

    pub fn new(
        squares: Vec<Vec<SudokuSquare>>,
        units: Vec<SudokuUnit>,
        peers: Vec<Vec<SudokuSquare>>,
    ) -> (r: Self)
        requires
            units_wf(squares@),
            unit_dict_wf(units@),
            peers_wf(peers@),
        ensures
            r.wf(),
            r.squares@ == squares@,
            r.units@ == units@,
            r.peers@ == peers@,
    {
        let mut sorted: Vec<SudokuSquare> = Vec::new();
        let mut n: usize = 0;
        while n < 81
            invariant
                n <= 81,
                sorted@.len() == n,
                forall|k: int| 0 <= k < n ==> #[trigger] sorted@[k] == square_at(k),
            decreases 81 - n,
        {
            sorted.push(SudokuSquare(n / 9, n % 9));
            n += 1;
        }
        GameSetup { squares, units, peers, sorted_squares: sorted }
    }

    /// The topology of the 9x9 board.
    pub fn standard() -> (r: Self)
        ensures
            r.wf(),
    {
        let squares = create_unitlist(0..9, 0..9);
        let units = create_unit_dictionary(&squares);
        let peers = create_peers_dictionary(&units, &squares);
        GameSetup::new(squares, units, peers)
    }
}

/// In the board topology each square has 20 peers, each listed once, and
/// 3 distinct units.
pub proof fn lemma_setup_counts(setup: &GameSetup, n: int)
    requires
        setup.wf(),
        0 <= n < 81,
    ensures
        setup.peers@[n]@.len() == 20,
        setup.units@[n].unitvec@.len() == 3,
        setup.units@[n].unitvec@.no_duplicates(),
{
    let p = setup.peers@[n]@;
    let s = square_at(n);
    lemma_square_index(n);
    lemma_peer_count(s);
    p.unique_seq_to_set();
    assert(p.to_set() =~= peer_set(s));
    lemma_unit_of(s, 0);
}

} // verus!
