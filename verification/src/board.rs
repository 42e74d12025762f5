//! The board state: a set of distinct queen positions on an `n` by `n` board,
//! with a derived table of pairwise conflicts that is recomputed wholesale
//! after every mutation.

use vstd::prelude::*;
use vstd::multiset::Multiset;

use crate::point::{Point, conflicts};
use crate::rng::RandomSource;

verus! {

broadcast use vstd::multiset::group_multiset_axioms, vstd::multiset::group_multiset_properties;

/// Failures reported by board operations and the searches built on them.
#[derive(Debug, Clone, Copy, PartialEq, Eq, Structural)]
pub enum QueenError {
    /// The target square already holds a queen.
    AlreadyOccupied,
    /// The random-placement budget ran out before every queen was placed.
    CouldNotPlace,
    /// No free destination square was found within the attempt budget.
    NoFreeDestination,
    /// The descent budget ran out without a non-worsening move.
    StuckInLocalMinimum,
}

/// The predicate a queen list is filtered by to collect the threats of `p`.
pub open spec fn threat_pred(p: Point) -> spec_fn(Point) -> bool {
    |q: Point| conflicts(p, q)
}

/// All queens of `qs` that threaten `p`, in the order they appear in `qs`.
pub open spec fn threats_of(qs: Seq<Point>, p: Point) -> Seq<Point> {
    qs.filter(threat_pred(p))
}

/// The complete-graph bound on conflicts for `len` queens.
pub open spec fn max_checks_for(len: int) -> int {
    if len <= 0 {
        0
    } else {
        len * (len - 1) / 2
    }
}

/// A board of `len` queens keeps `len * len` within the machine word, so the
/// conflict bound and the conflict sum can be computed without overflow.
pub open spec fn square_fits(len: int) -> bool {
    len * len <= usize::MAX
}

/// Sum of the lengths of the rows of a conflict table.
pub open spec fn sum_lens(t: Seq<Seq<Point>>) -> int
    decreases t.len(),
{
    if t.len() == 0 {
        0
    } else {
        sum_lens(t.drop_last()) + t.last().len()
    }
}

/// An `n` by `n` chess board holding a set of distinct queen positions.
#[derive(Debug)]
pub struct Board {
    /// The coordinates of the queens on the board.
    queens: Vec<Point>,
    /// Size of the board.
    n: usize,
    /// For each queen, the queens it is in conflict with; refreshed by
    /// `place`, `capture` and `mov`.
    check_data: Vec<Vec<Point>>,
    /// The complete-graph bound for the current number of queens.
    max_checks: usize,
}

impl Board {
    /// The queens on the board, in placement order.
    pub closed spec fn pieces(self) -> Seq<Point> {
        self.queens@
    }

    /// The board dimension.
    pub closed spec fn side(self) -> usize {
        self.n
    }

    /// The conflict table: row `i` lists the queens threatening queen `i`.
    pub closed spec fn table(self) -> Seq<Seq<Point>> {
        self.check_data@.map_values(|row: Vec<Point>| row@)
    }

    /// The stored complete-graph conflict bound.
    pub closed spec fn spec_max_checks(self) -> usize {
        self.max_checks
    }

    /// Every queen lies on the board.
    pub open spec fn in_bounds(self) -> bool {
        forall|i: int|
            0 <= i < self.pieces().len() ==> (#[trigger] self.pieces()[i]).row < self.side()
                && self.pieces()[i].col < self.side()
    }

    /// The conflict table is exactly the one derived from the queen list.
    pub open spec fn table_ok(self) -> bool {
        &&& self.table().len() == self.pieces().len()
        &&& forall|i: int|
            0 <= i < self.pieces().len() ==> #[trigger] self.table()[i] == threats_of(
                self.pieces(),
                self.pieces()[i],
            )
    }

    /// The board invariant: distinct in-bounds queens, a conflict table derived
    /// from them, and the stored complete-graph bound.
    pub open spec fn wf(self) -> bool {
        &&& self.pieces().no_duplicates()
        &&& self.in_bounds()
        &&& self.table_ok()
        &&& self.spec_max_checks() == max_checks_for(self.pieces().len() as int)
        &&& square_fits(self.pieces().len() as int)
    }

    /// Total conflicts: each threatening pair is listed in the table from both
    /// sides, so the sum of the row lengths is halved.
    pub open spec fn total_checks(self) -> int {
        sum_lens(self.table()) / 2
    }

    /// `i` indexes a queen with the most conflicts, and is the largest such
    /// index: the tie-break of an ascending stable sort read from the back.
    pub open spec fn is_most_checked(self, i: int) -> bool {
        &&& 0 <= i < self.pieces().len()
        &&& forall|j: int|
            0 <= j < self.pieces().len() ==> (#[trigger] self.table()[j]).len()
                <= self.table()[i].len()
        &&& forall|j: int| i < j < self.pieces().len() ==> (#[trigger] self.table()[j]).len()
            < self.table()[i].len()
    }
}

/// Two boards carry the same observable state.
pub open spec fn same_state(a: Board, b: Board) -> bool {
    &&& a.pieces() == b.pieces()
    &&& a.side() == b.side()
    &&& a.table() == b.table()
    &&& a.spec_max_checks() == b.spec_max_checks()
}

/// Appending a fresh element keeps a sequence duplicate-free.
proof fn lemma_push_no_duplicates(s: Seq<Point>, p: Point)
    requires
        s.no_duplicates(),
        !s.contains(p),
    ensures
        s.push(p).no_duplicates(),
{
    assert forall|i: int, j: int|
        0 <= i < s.push(p).len() && 0 <= j < s.push(p).len() && i != j implies s.push(p)[i]
        != s.push(p)[j] by {
        if i < s.len() && j < s.len() {
        } else if i < s.len() {
            assert(s.push(p)[i] == s[i]);
            assert(s.contains(s[i]));
        } else {
            assert(s.push(p)[j] == s[j]);
            assert(s.contains(s[j]));
        }
    }
}

/// Removing an element keeps a sequence duplicate-free, and removes the only
/// occurrence of that element.
proof fn lemma_remove_no_duplicates(s: Seq<Point>, i: int)
    requires
        s.no_duplicates(),
        0 <= i < s.len(),
    ensures
        s.remove(i).no_duplicates(),
        !s.remove(i).contains(s[i]),
{
    s.remove_ensures(i);
    assert forall|a: int, b: int|
        0 <= a < s.remove(i).len() && 0 <= b < s.remove(i).len() && a != b implies s.remove(i)[a]
        != s.remove(i)[b] by {
        let a0 = if a < i { a } else { a + 1 };
        let b0 = if b < i { b } else { b + 1 };
        assert(s.remove(i)[a] == s[a0]);
        assert(s.remove(i)[b] == s[b0]);
    }
    assert forall|a: int| 0 <= a < s.remove(i).len() implies s.remove(i)[a] != s[i] by {
        let a0 = if a < i { a } else { a + 1 };
        assert(s.remove(i)[a] == s[a0]);
    }
}

/// A filter that rejects at least one element of the sequence shortens it.
proof fn lemma_filter_excludes(s: Seq<Point>, pred: spec_fn(Point) -> bool, k: int)
    requires
        0 <= k < s.len(),
        !pred(s[k]),
    ensures
        s.filter(pred).len() < s.len(),
    decreases s.len(),
{
    reveal(Seq::filter);
    if k == s.len() - 1 {
        s.drop_last().lemma_filter_len(pred);
    } else {
        lemma_filter_excludes(s.drop_last(), pred, k);
    }
}

/// A sum of row lengths, each at most `m`, is at most `len * m`.
proof fn lemma_sum_lens_bound(t: Seq<Seq<Point>>, m: int)
    requires
        forall|i: int| 0 <= i < t.len() ==> (#[trigger] t[i]).len() <= m,
    ensures
        sum_lens(t) <= t.len() * m,
    decreases t.len(),
{
    if t.len() > 0 {
        assert(forall|i: int|
            0 <= i < t.drop_last().len() ==> (#[trigger] t.drop_last()[i]).len() <= m);
        lemma_sum_lens_bound(t.drop_last(), m);
        assert(t.last().len() <= m);
        assert((t.len() - 1) * m + m == t.len() * m) by (nonlinear_arith);
    } else {
        assert(t.len() * m == 0) by (nonlinear_arith)
            requires t.len() == 0;
    }
}

/// The total conflict count never exceeds the complete-graph bound
/// `len * (len - 1) / 2` held in `max_checks`.
pub proof fn lemma_total_checks_bounded(b: Board)
    requires
        b.wf(),
    ensures
        b.total_checks() <= b.spec_max_checks(),
{
    let qs = b.pieces();
    let len = qs.len() as int;
    assert forall|i: int| 0 <= i < b.table().len() implies (#[trigger] b.table()[i]).len() <= len
        - 1 by {
        assert(b.table()[i] == threats_of(qs, qs[i]));
        assert(!threat_pred(qs[i])(qs[i]));
        lemma_filter_excludes(qs, threat_pred(qs[i]), i);
    }
    lemma_sum_lens_bound(b.table(), len - 1);
    if len == 0 {
    } else {
        assert(sum_lens(b.table()) <= len * (len - 1)) by (nonlinear_arith)
            requires sum_lens(b.table()) <= len * (len - 1), len >= 1;
        vstd::arithmetic::div_mod::lemma_div_is_ordered(
            sum_lens(b.table()),
            len * (len - 1),
            2,
        );
    }
}

impl Board {
    pub fn new(n: usize) -> (r: Self)
        ensures
            r.wf(),
            r.side() == n,
            r.pieces().len() == 0,
    {
        Self { queens: Vec::new(), n, check_data: Vec::new(), max_checks: 0 }
    }

    /// Are two queens checking (threatening) each other?
    pub fn checking(queen1: &Point, queen2: &Point) -> (r: bool)
        ensures
            r == conflicts(*queen1, *queen2),
    {
        if queen1.row == queen2.row && queen1.col == queen2.col {
            return false;
        }
        let rd = if queen1.row >= queen2.row {
            queen1.row - queen2.row
        } else {
            queen2.row - queen1.row
        };
        let cd = if queen1.col >= queen2.col {
            queen1.col - queen2.col
        } else {
            queen2.col - queen1.col
        };
        queen1.row == queen2.row || queen1.col == queen2.col || rd == cd
    }

    fn contains_point(v: &Vec<Point>, p: &Point) -> (r: bool)
        ensures
            r == v@.contains(*p),
    {
        let mut i: usize = 0;
        while i < v.len()
            invariant
                i <= v@.len(),
                forall|k: int| 0 <= k < i ==> v@[k] != *p,
            decreases v@.len() - i,
        {
            if v[i].row == p.row && v[i].col == p.col {
                assert(v@[i as int] == *p);
                return true;
            }
            i += 1;
        }
        false
    }

    /// Search for a queen at a certain position; returns the first index.
    pub fn index_of(&self, point: &Point) -> (r: Option<usize>)
        ensures
            match r {
                Some(i) => i < self.pieces().len() && self.pieces()[i as int] == *point
                    && forall|j: int| 0 <= j < i ==> self.pieces()[j] != *point,
                None => !self.pieces().contains(*point),
            },
    {
        let mut i: usize = 0;
        while i < self.queens.len()
            invariant
                i <= self.pieces().len(),
                forall|k: int| 0 <= k < i ==> self.pieces()[k] != *point,
            decreases self.pieces().len() - i,
        {
            if self.queens[i].row == point.row && self.queens[i].col == point.col {
                assert(self.pieces()[i as int] == *point);
                return Some(i);
            }
            i += 1;
        }
        None
    }

    /// Recompute the conflict table and the complete-graph bound from the
    /// current queen list.
    fn update_check_data(&mut self)
        requires
            square_fits(old(self).pieces().len() as int),
        ensures
            final(self).pieces() == old(self).pieces(),
            final(self).side() == old(self).side(),
            final(self).table_ok(),
            final(self).spec_max_checks() == max_checks_for(final(self).pieces().len() as int),
    {
        let n_queens = self.queens.len();
        let mut v: Vec<Vec<Point>> = Vec::new();
        let mut i: usize = 0;
        while i < n_queens
            invariant
                i <= n_queens,
                n_queens == self.queens@.len(),
                v@.len() == i,
                forall|k: int|
                    0 <= k < i ==> #[trigger] v@[k]@ == threats_of(self.queens@, self.queens@[k]),
            decreases n_queens - i,
        {
            let mut threats: Vec<Point> = Vec::new();
            let mut j: usize = 0;
            while j < n_queens
                invariant
                    j <= n_queens,
                    n_queens == self.queens@.len(),
                    i < n_queens,
                    threats@ == self.queens@.subrange(0, j as int).filter(
                        threat_pred(self.queens@[i as int]),
                    ),
                decreases n_queens - j,
            {
                let queen1 = self.queens[i];
                let queen2 = self.queens[j];
                if Self::checking(&queen1, &queen2) {
                    threats.push(queen2);
                }
                proof {
                    let pred = threat_pred(self.queens@[i as int]);
                    assert(self.queens@.subrange(0, j + 1).drop_last() =~= self.queens@.subrange(
                        0,
                        j as int,
                    ));
                    assert(self.queens@.subrange(0, j + 1) =~= self.queens@.subrange(
                        0,
                        j as int,
                    ).push(self.queens@[j as int]));
                    self.queens@.subrange(0, j as int).lemma_filter_push(
                        self.queens@[j as int],
                        pred,
                    );
                }
                j += 1;
            }
            proof {
                assert(self.queens@.subrange(0, n_queens as int) =~= self.queens@);
            }
            v.push(threats);
            i += 1;
        }
        self.check_data = v;
        let len = self.queens.len();
        assert(len * (len - 1) <= len * len) by (nonlinear_arith);
        self.max_checks = if len == 0 {
            0
        } else {
            (len * (len - 1)) / 2
        };
        assert forall|k: int| 0 <= k < self.pieces().len() implies #[trigger] self.table()[k]
            == threats_of(self.pieces(), self.pieces()[k]) by {
            assert(self.table()[k] == self.check_data@[k]@);
        }
    }

    /// Place a queen on a given square; fails if the square is occupied.
    pub fn place(&mut self, point: &Point) -> (r: Result<(), QueenError>)
        requires
            old(self).wf(),
            point.row < old(self).side(),
            point.col < old(self).side(),
            square_fits(old(self).pieces().len() + 1 as int),
        ensures
            final(self).wf(),
            final(self).side() == old(self).side(),
            old(self).pieces().contains(*point) ==> r == Err::<(), QueenError>(
                QueenError::AlreadyOccupied,
            ) && same_state(*final(self), *old(self)),
            !old(self).pieces().contains(*point) ==> r == Ok::<(), QueenError>(())
                && final(self).pieces() == old(self).pieces().push(*point),
    {
        if Self::contains_point(&self.queens, point) {
            Err(QueenError::AlreadyOccupied)
        } else {
            proof {
                lemma_push_no_duplicates(old(self).pieces(), *point);
            }
            self.queens.push(*point);
            self.update_check_data();
            Ok(())
        }
    }

    /// Remove the queen standing on `point`; the caller must guarantee that
    /// the square is occupied.
    pub fn capture(&mut self, point: &Point)
        requires
            old(self).wf(),
            old(self).pieces().contains(*point),
        ensures
            final(self).wf(),
            final(self).side() == old(self).side(),
            exists|i: int|
                0 <= i < old(self).pieces().len() && old(self).pieces()[i] == *point && final(self).pieces() == old(self).pieces().remove(i),
            final(self).pieces().len() == old(self).pieces().len() - 1,
            !final(self).pieces().contains(*point),
            old(self).pieces().last() == *point && !old(self).pieces().drop_last().contains(*point)
                ==> final(self).pieces() == old(self).pieces().drop_last(),
    {
        let idx = match self.index_of(point) {
            Some(idx) => idx,
            None => {
                proof {
                    assert(false);
                }
                0
            },
        };
        proof {
            lemma_remove_no_duplicates(old(self).pieces(), idx as int);
            old(self).pieces().remove_ensures(idx as int);
        }
        self.queens.remove(idx);
        proof {
            let qs0 = old(self).pieces();
            assert(square_fits(qs0.len() - 1)) by (nonlinear_arith)
                requires
                    square_fits(qs0.len() as int),
                    qs0.len() >= 1,
            ;
            assert forall|k: int|
                0 <= k < self.pieces().len() implies (#[trigger] self.pieces()[k]).row
                < self.side() && self.pieces()[k].col < self.side() by {
                if k < idx as int {
                    assert(self.pieces()[k] == qs0[k]);
                } else {
                    assert(self.pieces()[k] == qs0[k + 1]);
                }
            }
        }
        self.update_check_data();
        assert(final(self).pieces() == old(self).pieces().remove(idx as int));
        proof {
            let qs0 = old(self).pieces();
            if qs0.last() == *point && !qs0.drop_last().contains(*point) {
                assert(idx as int == qs0.len() - 1) by {
                    if (idx as int) < qs0.len() - 1 {
                        assert(qs0.drop_last()[idx as int] == *point);
                        assert(qs0.drop_last().contains(*point));
                    }
                }
                assert(qs0.remove(qs0.len() - 1) =~= qs0.drop_last());
            }
        }
    }

    /// Move the queen on `from` to `to`; fails if `to` is occupied, including
    /// when `to == from`.
    pub fn mov(&mut self, from: &Point, to: &Point) -> (r: Result<(), QueenError>)
        requires
            old(self).wf(),
            old(self).pieces().contains(*from),
            to.row < old(self).side(),
            to.col < old(self).side(),
        ensures
            final(self).wf(),
            final(self).side() == old(self).side(),
            old(self).pieces().contains(*to) ==> r == Err::<(), QueenError>(
                QueenError::AlreadyOccupied,
            ) && same_state(*final(self), *old(self)),
            !old(self).pieces().contains(*to) ==> r == Ok::<(), QueenError>(()) && exists|i: int|
                0 <= i < old(self).pieces().len() && old(self).pieces()[i] == *from && final(self).pieces() == old(self).pieces().remove(i).push(*to),
            final(self).pieces().len() == old(self).pieces().len(),
    {
        if Self::contains_point(&self.queens, to) {
            Err(QueenError::AlreadyOccupied)
        } else {
            let ghost qs0 = self.queens@;
            self.queens.push(*to);
            let idx = match Self::index_of_vec(&self.queens, from) {
                Some(idx) => idx,
                None => {
                    proof {
                        assert(qs0.push(*to)[qs0.index_of(*from)] == *from);
                        assert(false);
                    }
                    0
                },
            };
            proof {
                assert(idx < qs0.len()) by {
                    if idx == qs0.len() {
                        assert(qs0.push(*to)[idx as int] == *to);
                    }
                }
            }
            self.queens.remove(idx);
            proof {
                assert(self.queens@ =~= qs0.remove(idx as int).push(*to));
                lemma_remove_no_duplicates(qs0, idx as int);
                assert(!qs0.remove(idx as int).contains(*to)) by {
                    qs0.remove_ensures(idx as int);
                    if qs0.remove(idx as int).contains(*to) {
                        let w = choose|w: int|
                            0 <= w < qs0.remove(idx as int).len() && qs0.remove(idx as int)[w]
                                == *to;
                        let w0 = if w < idx as int { w } else { w + 1 };
                        assert(qs0[w0] == *to);
                        assert(qs0.contains(*to));
                    }
                }
                lemma_push_no_duplicates(qs0.remove(idx as int), *to);
            }
            self.update_check_data();
            Ok(())
        }
    }

    fn index_of_vec(v: &Vec<Point>, point: &Point) -> (r: Option<usize>)
        ensures
            match r {
                Some(i) => i < v@.len() && v@[i as int] == *point && forall|j: int|
                    0 <= j < i ==> v@[j] != *point,
                None => !v@.contains(*point),
            },
    {
        let mut i: usize = 0;
        while i < v.len()
            invariant
                i <= v@.len(),
                forall|k: int| 0 <= k < i ==> v@[k] != *point,
            decreases v@.len() - i,
        {
            if v[i].row == point.row && v[i].col == point.col {
                assert(v@[i as int] == *point);
                return Some(i);
            }
            i += 1;
        }
        None
    }

    /// A getter for the check data.
    pub fn check_data(&self) -> (r: &Vec<Vec<Point>>)
        ensures
            r@.len() == self.table().len(),
            forall|i: int| 0 <= i < r@.len() ==> #[trigger] r@[i]@ == self.table()[i],
    {
        &self.check_data
    }

    /// A getter for the complete-graph conflict bound.
    pub fn max_checks(&self) -> (r: usize)
        ensures
            r == self.spec_max_checks(),
    {
        self.max_checks
    }

    /// A getter for the queen list.
    pub fn queens(&self) -> (r: &Vec<Point>)
        ensures
            r@ == self.pieces(),
    {
        &self.queens
    }

    /// A getter for the board dimension.
    pub fn n(&self) -> (r: usize)
        ensures
            r == self.side(),
    {
        self.n
    }

    /// The sum of all the checks queens make on each other, counting each
    /// threatening pair once.
    pub fn checks_count(&self) -> (r: usize)
        requires
            self.wf(),
        ensures
            r == self.total_checks(),
    {
        let qlen = self.queens.len();
        let rows = self.check_data.len();
        let mut acc: usize = 0;
        let mut i: usize = 0;
        while i < rows
            invariant
                self.wf(),
                rows == self.table().len(),
                qlen == self.pieces().len(),
                i <= rows,
                acc == sum_lens(self.table().take(i as int)),
                acc <= i * qlen,
            decreases rows - i,
        {
            let row_len = self.check_data[i].len();
            proof {
                let t = self.table();
                assert(t[i as int] == self.check_data@[i as int]@);
                assert(t[i as int] == threats_of(self.pieces(), self.pieces()[i as int]));
                self.pieces().lemma_filter_len(threat_pred(self.pieces()[i as int]));
                assert(row_len <= qlen);
                assert(t.take(i + 1).drop_last() =~= t.take(i as int));
                assert(t.take(i + 1).last() == t[i as int]);
                assert(sum_lens(t.take(i + 1)) == sum_lens(t.take(i as int)) + row_len);
                assert(acc + row_len <= (i + 1) * qlen) by (nonlinear_arith)
                    requires
                        acc <= i * qlen,
                        row_len <= qlen,
                ;
                assert((i + 1) * qlen <= qlen * qlen) by (nonlinear_arith)
                    requires
                        i + 1 <= qlen,
                        qlen >= 0,
                ;
            }
            acc = acc + row_len;
            i += 1;
        }
        proof {
            assert(self.table().take(rows as int) =~= self.table());
        }
        acc / 2
    }

    /// The index of the queen under the most threats; among ties, the highest
    /// index, as an ascending stable sort read from the back would give it.
    /// Returns nothing if there is no queen on the board.
    pub fn most_checked(&self) -> (r: Option<usize>)
        requires
            self.wf(),
        ensures
            match r {
                Some(i) => self.is_most_checked(i as int),
                None => true,
            },
            r is Some <==> self.pieces().len() >= 1,
    {
        let rows = self.check_data.len();
        if rows == 0 {
            return None;
        }
        let mut best: usize = 0;
        let mut i: usize = 1;
        while i < rows
            invariant
                self.wf(),
                rows == self.table().len(),
                1 <= i <= rows,
                best < i,
                forall|j: int|
                    0 <= j < i ==> (#[trigger] self.table()[j]).len() <= self.table()[best as int].len(),
                forall|j: int|
                    best < j < i ==> (#[trigger] self.table()[j]).len() < self.table()[best as int].len(),
            decreases rows - i,
        {
            proof {
                assert(self.table()[i as int] == self.check_data@[i as int]@);
                assert(self.table()[best as int] == self.check_data@[best as int]@);
            }
            if self.check_data[i].len() >= self.check_data[best].len() {
                best = i;
            }
            i += 1;
        }
        Some(best)
    }

    /// Draw a random point on this board.
    pub fn random_point<R: RandomSource>(&self, rng: &mut R) -> (p: Point)
        requires
            self.side() >= 1,
        ensures
            p.row < self.side(),
            p.col < self.side(),
    {
        Point::random(self.n, rng)
    }

    /// Move the queen under the most threats to a randomly drawn free square,
    /// trying at most `max_attempts` destinations.
    pub fn move_most_checked<R: RandomSource>(&mut self, rng: &mut R, max_attempts: usize) -> (r:
        Result<(Point, Point), QueenError>)
        requires
            old(self).wf(),
            old(self).pieces().len() >= 1,
            old(self).side() >= 1,
        ensures
            final(self).wf(),
            final(self).side() == old(self).side(),
            final(self).pieces().len() == old(self).pieces().len(),
            match r {
                Ok(mv) => {
                    &&& !old(self).pieces().contains(mv.1)
                    &&& mv.1.row < old(self).side() && mv.1.col < old(self).side()
                    &&& exists|i: int|
                        old(self).is_most_checked(i) && #[trigger] old(self).pieces()[i] == mv.0
                            && final(self).pieces() == old(self).pieces().remove(i).push(mv.1)
                },
                Err(e) => e == QueenError::NoFreeDestination && same_state(
                    *final(self),
                    *old(self),
                ),
            },
    {
        let most_checked_index = match self.most_checked() {
            Some(i) => i,
            None => {
                proof {
                    assert(false);
                }
                0
            },
        };
        let src = self.queens[most_checked_index];
        let mut attempts: usize = 0;
        while attempts < max_attempts
            invariant
                self.wf(),
                same_state(*self, *old(self)),
                old(self).wf(),
                old(self).side() >= 1,
                most_checked_index < self.pieces().len(),
                old(self).is_most_checked(most_checked_index as int),
                src == old(self).pieces()[most_checked_index as int],
                attempts <= max_attempts,
            decreases max_attempts - attempts,
        {
            let dest = self.random_point(rng);
            proof {
                assert(self.pieces().contains(src)) by {
                    assert(self.pieces()[most_checked_index as int] == src);
                }
            }
            let moved = self.mov(&src, &dest);
            if moved.is_ok() {
                proof {
                    let i = choose|i: int|
                        0 <= i < old(self).pieces().len() && old(self).pieces()[i] == src && final(self).pieces() == old(self).pieces().remove(i).push(dest);
                    assert(old(self).pieces()[most_checked_index as int] == src);
                    assert(i == most_checked_index as int);
                }
                return Ok((src, dest));
            }
            attempts += 1;
        }
        Err(QueenError::NoFreeDestination)
    }

    /// Place some number of queens randomly on the board, spending at most
    /// `max_tries` random draws; failed draws also consume the budget. The
    /// call fails only when the budget runs out with the count still unmet.
    pub fn init_queens<R: RandomSource>(self, rng: &mut R, queens: usize, max_tries: usize) -> (r:
        Result<Board, QueenError>)
        requires
            self.wf(),
            self.side() >= 1,
            square_fits(self.pieces().len() + queens as int),
        ensures
            match r {
                Ok(b) => b.wf() && b.side() == self.side() && b.pieces().len() == self.pieces().len()
                    + queens && b.pieces().take(self.pieces().len() as int) == self.pieces(),
                Err(e) => e == QueenError::CouldNotPlace,
            },
            queens == 0 ==> r is Ok,
            r is Err ==> queens >= 1,
    {
        let mut board = self;
        let mut placed_queens: usize = 0;
        let mut tries: usize = 0;
        while tries < max_tries
            invariant
                board.wf(),
                board.side() == self.side(),
                board.side() >= 1,
                placed_queens <= queens,
                board.pieces().len() == self.pieces().len() + placed_queens,
                board.pieces().take(self.pieces().len() as int) == self.pieces(),
                square_fits(self.pieces().len() + queens as int),
                tries <= max_tries,
            decreases max_tries - tries,
        {
            if placed_queens == queens {
                return Ok(board);
            }
            let p = board.random_point(rng);
            proof {
                assert(square_fits(board.pieces().len() + 1 as int)) by (nonlinear_arith)
                    requires
                        square_fits(self.pieces().len() + queens as int),
                        board.pieces().len() + 1 <= self.pieces().len() + queens,
                ;
            }
            let ghost before = board.pieces();
            let placed = board.place(&p);
            proof {
                if board.pieces() == before.push(p) {
                    assert(board.pieces().take(self.pieces().len() as int) =~= before.take(
                        self.pieces().len() as int,
                    ));
                }
            }
            if placed.is_ok() {
                placed_queens += 1;
            }
            tries += 1;
        }
        if placed_queens == queens {
            return Ok(board);
        }
        Err(QueenError::CouldNotPlace)
    }

    /// Place `n` queens on the `n` by `n` board randomly.
    pub fn init_n_queens<R: RandomSource>(self, rng: &mut R, max_tries: usize) -> (r: Result<
        Board,
        QueenError,
    >)
        requires
            self.wf(),
            self.side() >= 1,
            square_fits(self.pieces().len() + self.side() as int),
        ensures
            match r {
                Ok(b) => b.wf() && b.side() == self.side() && b.pieces().len() == self.pieces().len()
                    + self.side() && b.pieces().take(self.pieces().len() as int) == self.pieces(),
                Err(e) => e == QueenError::CouldNotPlace,
            },
    {
        let n = self.n;
        self.init_queens(rng, n, max_tries)
    }
}

impl Board {
    /// Render the queen list as text, one-based: `[(1x1), (2x3)]`.
    pub fn queens_display(&self) -> (r: String)
        requires
            self.wf(),
        ensures
            r@ == crate::text::queens_str(self.pieces()),
    {
        let mut s = String::new();
        s.append("[");
        proof {
            reveal_strlit("[");
            assert(s@ =~= seq!['['] + crate::text::points_prefix_str(self.pieces(), 0));
        }
        let n_queens = self.queens.len();
        let mut i: usize = 0;
        while i < n_queens
            invariant
                self.wf(),
                n_queens == self.pieces().len(),
                i <= n_queens,
                s@ == seq!['['] + crate::text::points_prefix_str(self.pieces(), i as int),
            decreases n_queens - i,
        {
            let p = self.queens[i];
            proof {
                assert(self.pieces()[i as int].row < self.side());
            }
            let ps = crate::text::point_to_string(&p);
            s.append(ps.as_str());
            if i != n_queens - 1 {
                s.append(", ");
            }
            proof {
                reveal_strlit(", ");
                assert(s@ =~= seq!['['] + crate::text::points_prefix_str(self.pieces(), i + 1));
            }
            i += 1;
        }
        s.append("]");
        proof {
            reveal_strlit("]");
            assert(s@ =~= crate::text::queens_str(self.pieces()));
        }
        s
    }
}

impl Board {
    /// Deep copy: an independent board with the same queens, conflict table
    /// and bound.
    pub fn duplicate(&self) -> (r: Board)
        ensures
            same_state(r, *self),
    {
        let mut queens: Vec<Point> = Vec::new();
        let mut i: usize = 0;
        while i < self.queens.len()
            invariant
                i <= self.queens@.len(),
                queens@ == self.queens@.take(i as int),
            decreases self.queens@.len() - i,
        {
            queens.push(self.queens[i]);
            proof {
                assert(self.queens@.take(i + 1) =~= self.queens@.take(i as int).push(
                    self.queens@[i as int],
                ));
            }
            i += 1;
        }
        let mut check_data: Vec<Vec<Point>> = Vec::new();
        let mut i: usize = 0;
        while i < self.check_data.len()
            invariant
                i <= self.check_data@.len(),
                check_data@.len() == i,
                forall|k: int| 0 <= k < i ==> #[trigger] check_data@[k]@ == self.check_data@[k]@,
            decreases self.check_data@.len() - i,
        {
            let row = &self.check_data[i];
            let mut new_row: Vec<Point> = Vec::new();
            let mut j: usize = 0;
            while j < row.len()
                invariant
                    j <= row@.len(),
                    new_row@ == row@.take(j as int),
                decreases row@.len() - j,
            {
                new_row.push(row[j]);
                proof {
                    assert(row@.take(j + 1) =~= row@.take(j as int).push(row@[j as int]));
                }
                j += 1;
            }
            proof {
                assert(row@.take(row@.len() as int) =~= row@);
            }
            check_data.push(new_row);
            i += 1;
        }
        let r = Board { queens, n: self.n, check_data, max_checks: self.max_checks };
        proof {
            assert(r.pieces() =~= self.pieces());
            assert forall|k: int| 0 <= k < r.table().len() implies r.table()[k] == self.table()[k] by {
                assert(r.table()[k] == r.check_data@[k]@);
                assert(self.table()[k] == self.check_data@[k]@);
            }
            assert(r.table() =~= self.table());
        }
        r
    }
}

/// Boards with the same observable state satisfy the invariant together and
/// agree on every derived quantity.
pub proof fn lemma_same_state_wf(a: Board, b: Board)
    requires
        same_state(a, b),
        b.wf(),
    ensures
        a.wf(),
        a.total_checks() == b.total_checks(),
{
}

/// After removing the only occurrence of `from` from a duplicate-free queen
/// list and appending a fresh `to`, the square of `from` is free again, so a
/// move back always succeeds.
pub proof fn lemma_mov_target_free(s: Seq<Point>, i: int, to: Point, from: Point)
    requires
        s.no_duplicates(),
        0 <= i < s.len(),
        s[i] == from,
        !s.contains(to),
    ensures
        !s.remove(i).push(to).contains(from),
{
    assert(s.contains(from)) by {
        assert(s[i] == from);
    }
    lemma_remove_no_duplicates(s, i);
    if s.remove(i).push(to).contains(from) {
        let w = choose|w: int|
            0 <= w < s.remove(i).push(to).len() && s.remove(i).push(to)[w] == from;
        if w < s.remove(i).len() {
            assert(s.remove(i)[w] == from);
            assert(s.remove(i).contains(from));
        } else {
            assert(s.remove(i).push(to)[w] == to);
        }
    }
}

/// Equal multisets after inserting the same element were equal before.
proof fn lemma_multiset_insert_cancel(a: Multiset<Point>, b: Multiset<Point>, x: Point)
    requires
        a.insert(x) == b.insert(x),
    ensures
        a == b,
{
    assert forall|y: Point| #[trigger] a.count(y) == b.count(y) by {
        if y == x {
            vstd::multiset::lemma_insert_increases_count_by_1(a, x);
            vstd::multiset::lemma_insert_increases_count_by_1(b, x);
        } else {
            vstd::multiset::lemma_insert_other_elements_unchanged(a, x, y);
            vstd::multiset::lemma_insert_other_elements_unchanged(b, x, y);
        }
        assert(a.insert(x).count(y) == b.insert(x).count(y));
    }
    assert(a =~= b);
}

/// Removing one element lowers the filtered length by exactly its own
/// contribution.
proof fn lemma_filter_len_remove(s: Seq<Point>, pred: spec_fn(Point) -> bool, j: int)
    requires
        0 <= j < s.len(),
    ensures
        s.remove(j).filter(pred).len() == s.filter(pred).len() - (if pred(s[j]) {
            1int
        } else {
            0int
        }),
    decreases s.len(),
{
    reveal(Seq::filter);
    if j == s.len() - 1 {
        assert(s.remove(j) =~= s.drop_last());
    } else {
        let t = s.remove(j);
        assert(t.drop_last() =~= s.drop_last().remove(j));
        assert(t.last() == s.last());
        lemma_filter_len_remove(s.drop_last(), pred, j);
    }
}

/// The length of a filtered sequence depends only on the multiset of its
/// elements.
proof fn lemma_filter_len_permutation(s1: Seq<Point>, s2: Seq<Point>, pred: spec_fn(Point) -> bool)
    requires
        s1.to_multiset() == s2.to_multiset(),
    ensures
        s1.filter(pred).len() == s2.filter(pred).len(),
    decreases s1.len(),
{
    s1.to_multiset_ensures();
    s2.to_multiset_ensures();
    reveal(Seq::filter);
    if s1.len() == 0 {
        assert(s2.len() == 0);
    } else {
        let x = s1.last();
        assert(s1.contains(x)) by {
            assert(s1[s1.len() - 1] == x);
        }
        assert(s1.to_multiset().count(x) > 0);
        assert(s2.to_multiset().count(x) > 0);
        assert(s2.contains(x));
        let j = choose|j: int| 0 <= j < s2.len() && s2[j] == x;
        assert(s1 =~= s1.drop_last().push(x));
        s1.drop_last().to_multiset_ensures();
        assert(s2.remove(j).to_multiset() == s2.to_multiset().remove(x));
        assert(s2.to_multiset().remove(x).insert(x) =~= s2.to_multiset()) by {
            assert(s2.to_multiset().count(x) > 0);
        }
        lemma_multiset_insert_cancel(s1.drop_last().to_multiset(), s2.remove(j).to_multiset(), x);
        lemma_filter_len_permutation(s1.drop_last(), s2.remove(j), pred);
        lemma_filter_len_remove(s2, pred, j);
    }
}

/// Sum of the threat counts of the points of `ps`, measured against the
/// queen list `base`.
spec fn sum_threats(ps: Seq<Point>, base: Seq<Point>) -> int
    decreases ps.len(),
{
    if ps.len() == 0 {
        0
    } else {
        sum_threats(ps.drop_last(), base) + threats_of(base, ps.last()).len()
    }
}

/// On a well-formed board, the conflict-table row sum is the threat sum of
/// the queens measured against themselves.
proof fn lemma_sum_lens_is_sum_threats(b: Board, k: int)
    requires
        b.wf(),
        0 <= k <= b.pieces().len(),
    ensures
        sum_lens(b.table().take(k)) == sum_threats(b.pieces().take(k), b.pieces()),
    decreases k,
{
    if k > 0 {
        lemma_sum_lens_is_sum_threats(b, k - 1);
        assert(b.table().take(k).drop_last() =~= b.table().take(k - 1));
        assert(b.pieces().take(k).drop_last() =~= b.pieces().take(k - 1));
        assert(b.table().take(k).last() == b.table()[k - 1]);
        assert(b.pieces().take(k).last() == b.pieces()[k - 1]);
        assert(b.table()[k - 1] == threats_of(b.pieces(), b.pieces()[k - 1]));
    }
}

/// Against bases holding the same queens as multisets, threat sums agree.
proof fn lemma_sum_threats_base_permutation(ps: Seq<Point>, base1: Seq<Point>, base2: Seq<Point>)
    requires
        base1.to_multiset() == base2.to_multiset(),
    ensures
        sum_threats(ps, base1) == sum_threats(ps, base2),
    decreases ps.len(),
{
    if ps.len() > 0 {
        lemma_sum_threats_base_permutation(ps.drop_last(), base1, base2);
        lemma_filter_len_permutation(base1, base2, threat_pred(ps.last()));
    }
}

/// Removing a point removes exactly its own contribution from a threat sum.
proof fn lemma_sum_threats_remove(ps: Seq<Point>, base: Seq<Point>, j: int)
    requires
        0 <= j < ps.len(),
    ensures
        sum_threats(ps.remove(j), base) == sum_threats(ps, base) - threats_of(base, ps[j]).len(),
    decreases ps.len(),
{
    if j == ps.len() - 1 {
        assert(ps.remove(j) =~= ps.drop_last());
    } else {
        let t = ps.remove(j);
        assert(t.drop_last() =~= ps.drop_last().remove(j));
        assert(t.last() == ps.last());
        lemma_sum_threats_remove(ps.drop_last(), base, j);
    }
}

/// The threat sum of a queen list depends only on its multiset.
proof fn lemma_sum_threats_permutation(ps1: Seq<Point>, ps2: Seq<Point>, base: Seq<Point>)
    requires
        ps1.to_multiset() == ps2.to_multiset(),
    ensures
        sum_threats(ps1, base) == sum_threats(ps2, base),
    decreases ps1.len(),
{
    ps1.to_multiset_ensures();
    ps2.to_multiset_ensures();
    if ps1.len() == 0 {
        assert(ps2.len() == 0);
    } else {
        let x = ps1.last();
        assert(ps1.contains(x)) by {
            assert(ps1[ps1.len() - 1] == x);
        }
        assert(ps1.to_multiset().count(x) > 0);
        assert(ps2.to_multiset().count(x) > 0);
        assert(ps2.contains(x));
        let j = choose|j: int| 0 <= j < ps2.len() && ps2[j] == x;
        assert(ps1 =~= ps1.drop_last().push(x));
        ps1.drop_last().to_multiset_ensures();
        assert(ps2.remove(j).to_multiset() == ps2.to_multiset().remove(x));
        assert(ps2.to_multiset().remove(x).insert(x) =~= ps2.to_multiset()) by {
            assert(ps2.to_multiset().count(x) > 0);
        }
        lemma_multiset_insert_cancel(ps1.drop_last().to_multiset(), ps2.remove(j).to_multiset(), x);
        lemma_sum_threats_permutation(ps1.drop_last(), ps2.remove(j), base);
        lemma_sum_threats_remove(ps2, base, j);
    }
}

/// Boards holding the same queens, in any order, have the same total
/// conflict count: the heuristic is a function of the piece multiset alone.
pub proof fn lemma_total_checks_permutation(b1: Board, b2: Board)
    requires
        b1.wf(),
        b2.wf(),
        b1.pieces().to_multiset() == b2.pieces().to_multiset(),
    ensures
        b1.total_checks() == b2.total_checks(),
{
    lemma_sum_lens_is_sum_threats(b1, b1.pieces().len() as int);
    lemma_sum_lens_is_sum_threats(b2, b2.pieces().len() as int);
    assert(b1.table().take(b1.pieces().len() as int) =~= b1.table());
    assert(b1.pieces().take(b1.pieces().len() as int) =~= b1.pieces());
    assert(b2.table().take(b2.pieces().len() as int) =~= b2.table());
    assert(b2.pieces().take(b2.pieces().len() as int) =~= b2.pieces());
    lemma_sum_threats_base_permutation(b1.pieces(), b1.pieces(), b2.pieces());
    lemma_sum_threats_permutation(b1.pieces(), b2.pieces(), b2.pieces());
}

/// A well-formed board's conflict table and bound are determined by its
/// queen list: two well-formed boards of one size with equal queen lists
/// carry the same observable state.
pub proof fn lemma_state_determined_by_pieces(a: Board, b: Board)
    requires
        a.wf(),
        b.wf(),
        a.side() == b.side(),
        a.pieces() == b.pieces(),
    ensures
        same_state(a, b),
{
    assert forall|i: int| 0 <= i < a.table().len() implies a.table()[i] == b.table()[i] by {
        assert(a.table()[i] == threats_of(a.pieces(), a.pieces()[i]));
        assert(b.table()[i] == threats_of(b.pieces(), b.pieces()[i]));
    }
    assert(a.table() =~= b.table());
}

/// Sum of the conflict totals of a list of boards.
pub open spec fn sum_totals(s: Seq<Board>) -> int
    decreases s.len(),
{
    if s.len() == 0 {
        0
    } else {
        sum_totals(s.drop_last()) + s.last().total_checks()
    }
}

/// Removing a board removes exactly its own total from a population sum.
proof fn lemma_sum_totals_remove(s: Seq<Board>, j: int)
    requires
        0 <= j < s.len(),
    ensures
        sum_totals(s.remove(j)) == sum_totals(s) - s[j].total_checks(),
    decreases s.len(),
{
    if j == s.len() - 1 {
        assert(s.remove(j) =~= s.drop_last());
    } else {
        let t = s.remove(j);
        assert(t.drop_last() =~= s.drop_last().remove(j));
        assert(t.last() == s.last());
        lemma_sum_totals_remove(s.drop_last(), j);
    }
}

/// The summed conflict total of a population depends only on which boards it
/// holds, not on their order.
pub proof fn lemma_sum_totals_permutation(s1: Seq<Board>, s2: Seq<Board>)
    requires
        s1.to_multiset() == s2.to_multiset(),
    ensures
        sum_totals(s1) == sum_totals(s2),
    decreases s1.len(),
{
    s1.to_multiset_ensures();
    s2.to_multiset_ensures();
    if s1.len() == 0 {
        assert(s2.len() == 0);
    } else {
        let x = s1.last();
        assert(s1.contains(x)) by {
            assert(s1[s1.len() - 1] == x);
        }
        assert(s1.to_multiset().count(x) > 0);
        assert(s2.to_multiset().count(x) > 0);
        assert(s2.contains(x));
        let j = choose|j: int| 0 <= j < s2.len() && s2[j] == x;
        assert(s1 =~= s1.drop_last().push(x));
        s1.drop_last().to_multiset_ensures();
        assert(s2.remove(j).to_multiset() == s2.to_multiset().remove(x));
        assert(s2.to_multiset().remove(x).insert(x) =~= s2.to_multiset()) by {
            assert(s2.to_multiset().count(x) > 0);
        }
        lemma_board_multiset_insert_cancel(
            s1.drop_last().to_multiset(),
            s2.remove(j).to_multiset(),
            x,
        );
        lemma_sum_totals_permutation(s1.drop_last(), s2.remove(j));
        lemma_sum_totals_remove(s2, j);
    }
}

/// Equal multisets of boards after inserting the same board were equal before.
proof fn lemma_board_multiset_insert_cancel(a: Multiset<Board>, b: Multiset<Board>, x: Board)
    requires
        a.insert(x) == b.insert(x),
    ensures
        a == b,
{
    assert forall|y: Board| #[trigger] a.count(y) == b.count(y) by {
        if y == x {
            vstd::multiset::lemma_insert_increases_count_by_1(a, x);
            vstd::multiset::lemma_insert_increases_count_by_1(b, x);
        } else {
            vstd::multiset::lemma_insert_other_elements_unchanged(a, x, y);
            vstd::multiset::lemma_insert_other_elements_unchanged(b, x, y);
        }
        assert(a.insert(x).count(y) == b.insert(x).count(y));
    }
    assert(a =~= b);
}

/// The queen-list rendering is a pure function of the piece list: rendering an
/// unmodified board again gives identical output.
pub proof fn lemma_display_deterministic(a: Board, b: Board)
    requires
        a.pieces() == b.pieces(),
    ensures
        crate::text::queens_str(a.pieces()) == crate::text::queens_str(b.pieces()),
{
}

/// Placing a fresh queen and then capturing it restores the prior piece list,
/// conflict table and conflict bound exactly: the effect of a successful
/// `place` followed by `capture` of the same point is no effect at all.
pub proof fn lemma_place_capture_round_trip(b0: Board, b1: Board, b2: Board, p: Point, j: int)
    requires
        b0.wf(),
        b1.wf(),
        b2.wf(),
        !b0.pieces().contains(p),
        b1.side() == b0.side(),
        b1.pieces() == b0.pieces().push(p),
        b2.side() == b1.side(),
        0 <= j < b1.pieces().len(),
        b1.pieces()[j] == p,
        b2.pieces() == b1.pieces().remove(j),
    ensures
        same_state(b2, b0),
{
    assert(j == b0.pieces().len()) by {
        if j < b0.pieces().len() {
            assert(b0.pieces()[j] == p);
            assert(b0.pieces().contains(p));
        }
    }
    assert(b2.pieces() =~= b0.pieces());
    lemma_state_determined_by_pieces(b2, b0);
}

} // verus!
