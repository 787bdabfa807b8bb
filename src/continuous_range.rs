//! The continuous-range pass: bounds each run by its earliest start and latest
//! end, and derives fills and crosses from those bounds.
use crate::clue::{check_clue, clue_ok, clue_sum, lemma_prefix_sum_mono, prefix_sum};
use crate::hint::{IllFormedClue, LineHint, LinePass};
use crate::line::{
    any_uncrossed, any_unfilled, bump_last_of, bump_start_of, cross_span, fill_span,
    lemma_bump_last_bounds, lemma_bump_start_bounds, lemma_cross_span, lemma_fill_span,
    lemma_bump_last_at_least, lemma_bump_start_at_most, lemma_grows_keeps, lemma_grows_trans, first_filled, last_filled, find_first_filled,
    find_last_filled, lemma_first_filled, lemma_last_filled, Line, LineMut,
};
use crate::discrete_range::{placement_ok, prev_end, run_ok};
use crate::parser::Cell;
use vstd::prelude::*;

verus! {

/// The earliest start of run `i`: each run is searched from one cell past
/// the previous run's earliest end.
pub open spec fn range_start(cells: Seq<Cell>, clue: Seq<usize>, i: int) -> int
    decreases i,
{
    let s = if i <= 0 {
        0
    } else {
        range_start(cells, clue, i - 1) + clue[i - 1] + 1
    };
    bump_start_of(cells, s, clue[i] as int)
}

/// The latest (exclusive) end of run `i`: each run is searched from two cells
/// before the next run's latest start.
pub open spec fn range_end(cells: Seq<Cell>, clue: Seq<usize>, i: int) -> int
    decreases clue.len() - i,
{
    let last = if i + 1 >= clue.len() {
        cells.len() - 1
    } else {
        range_end(cells, clue, i + 1) - clue[i + 1] - 2
    };
    bump_last_of(cells, last, clue[i] as int)
}

/// The bounds of each run of a clue on a line.
pub trait ClueExt {
    /// The run lengths.
    spec fn runs(&self) -> Seq<usize>;

    /// The earliest start of each run, in order.
    fn range_starts<L: Line>(&self, line: &L) -> (r: Vec<usize>)
        requires
            line.inv(),
            2 * (line.cells().len() + clue_sum(self.runs()) + 2 * self.runs().len()) + 4 <= usize::MAX,
        ensures
            r@.len() == self.runs().len(),
            forall|i: int| 0 <= i < r@.len() ==> r@[i] == range_start(line.cells(), self.runs(), i),
    ;

    /// The latest (exclusive) end of each run, in order.
    fn range_ends<L: Line>(&self, line: &L) -> (r: Vec<isize>)
        requires
            line.inv(),
            line.cells().len() <= isize::MAX / 4,
            self.runs().len() <= line.cells().len() + 1,
            forall|i: int| 0 <= i < self.runs().len() ==> self.runs()[i] <= line.cells().len(),
        ensures
            r@.len() == self.runs().len(),
            forall|i: int| 0 <= i < r@.len() ==> r@[i] == range_end(line.cells(), self.runs(), i),
    ;
}

impl ClueExt for [usize] {
    open spec fn runs(&self) -> Seq<usize> {
        self@
    }

    fn range_starts<L: Line>(&self, line: &L) -> (r: Vec<usize>) {
        let ghost cells = line.cells();
        let ghost clue = self@;
        let len = line.len();
        let mut range_starts: Vec<usize> = Vec::new();
        let mut start: usize = 0;
        let mut i: usize = 0;
        while i < self.len()
            invariant
                line.inv(),
                cells == line.cells(),
                clue == self@,
                len == cells.len(),
                2 * (len + clue_sum(clue) + 2 * clue.len()) + 4 <= usize::MAX,
                i <= clue.len(),
                range_starts@.len() == i,
                forall|j: int| 0 <= j < i ==> range_starts@[j] == range_start(cells, clue, j),
                i == 0 ==> start == 0,
                i > 0 ==> start == range_start(cells, clue, i - 1) + clue[i - 1] + 1,
                0 <= start <= len + prefix_sum(clue, i as int) + 2 * i,
            decreases clue.len() - i,
        {
            let number = self[i];
            proof {
                lemma_prefix_sum_mono(clue, i as int + 1, clue.len() as int);
                lemma_prefix_sum_mono(clue, i as int, clue.len() as int);
                lemma_bump_start_bounds(cells, start as int, number as int);
                assert(prefix_sum(clue, i as int + 1) == prefix_sum(clue, i as int) + number);
            }
            start = line.bump_start(start, number);
            range_starts.push(start);
            start = start + number + 1;
            i = i + 1;
        }
        range_starts
    }

    fn range_ends<L: Line>(&self, line: &L) -> (r: Vec<isize>) {
        let ghost cells = line.cells();
        let ghost clue = self@;
        let len = line.len();
        let k = self.len();
        let mut reversed: Vec<isize> = Vec::new();
        let mut last: isize = len as isize - 1;
        let mut m: usize = 0;
        while m < k
            invariant
                line.inv(),
                cells == line.cells(),
                clue == self@,
                len == cells.len(),
                k == clue.len(),
                len <= isize::MAX / 4,
                k <= len + 1,
                forall|i: int| 0 <= i < k ==> clue[i] <= len,
                m <= k,
                reversed@.len() == m,
                forall|j: int| 0 <= j < m ==> reversed@[j] == range_end(cells, clue, k - 1 - j),
                m == 0 ==> last == len - 1,
                m > 0 ==> last == range_end(cells, clue, k - m) - clue[k - m] - 2,
                -(m as int) - 2 <= last < len,
            decreases k - m,
        {
            let number = self[k - 1 - m];
            proof {
                lemma_bump_last_bounds(cells, last as int, number as int);
            }
            let end = line.bump_last(last, number);
            reversed.push(end);
            last = end - number as isize - 2;
            m = m + 1;
        }
        let mut range_ends: Vec<isize> = Vec::new();
        let mut j: usize = 0;
        while j < k
            invariant
                k == clue.len(),
                reversed@.len() == k,
                forall|i: int| 0 <= i < k ==> reversed@[i] == range_end(cells, clue, k - 1 - i),
                j <= k,
                range_ends@.len() == j,
                forall|i: int| 0 <= i < j ==> range_ends@[i] == range_end(cells, clue, i),
            decreases k - j,
        {
            range_ends.push(reversed[k - 1 - j]);
            j = j + 1;
        }
        range_ends
    }
}

/// The cells before `reachable_start` and from `reachable_end` on lie outside
/// every run's bounds and are crossed.
#[derive(Clone, Copy, Debug, PartialEq, Eq, Structural)]
pub struct Unreachable {
    pub reachable_start: usize,
    pub reachable_end: usize,
}

impl LineHint for Unreachable {
    open spec fn fits(&self, len: nat) -> bool {
        self.reachable_start <= len
    }

    open spec fn useful(&self, cells: Seq<Cell>) -> bool {
        any_uncrossed(cells, 0, self.reachable_start as int) || any_uncrossed(
            cells,
            self.reachable_end as int,
            cells.len() as int,
        )
    }

    open spec fn applied(&self, cells: Seq<Cell>) -> Seq<Cell> {
        cross_span(
            cross_span(cells, 0, self.reachable_start as int),
            self.reachable_end as int,
            cells.len() as int,
        )
    }

    fn check<L: Line>(&self, line: &L) -> (r: bool) {
        let len = line.len();
        line.range_contains_uncrossed(0..self.reachable_start) || line.range_contains_uncrossed(
            self.reachable_end..len,
        )
    }

    fn apply<L: LineMut>(&self, line: &mut L) {
        let len = line.len();
        line.cross_range(0..self.reachable_start);
        line.cross_range(self.reachable_end..len);
    }

    proof fn lemma_applied(&self, cells: Seq<Cell>) {
        let a = cross_span(cells, 0, self.reachable_start as int);
        lemma_cross_span(cells, 0, self.reachable_start as int);
        lemma_cross_span(a, self.reachable_end as int, cells.len() as int);
        let b = self.applied(cells);
        lemma_grows_trans(cells, a, b);
        lemma_grows_keeps(a, b, 0, self.reachable_start as int);
    }
}

/// The cells `kernel_start..kernel_end` are covered by every placement of a
/// run within its bounds, and are filled.
#[derive(Clone, Copy, Debug, PartialEq, Eq, Structural)]
pub struct Kernel {
    pub kernel_start: usize,
    pub kernel_end: usize,
}

impl LineHint for Kernel {
    open spec fn fits(&self, len: nat) -> bool {
        self.kernel_end <= len
    }

    open spec fn useful(&self, cells: Seq<Cell>) -> bool {
        any_unfilled(cells, self.kernel_start as int, self.kernel_end as int)
    }

    open spec fn applied(&self, cells: Seq<Cell>) -> Seq<Cell> {
        fill_span(cells, self.kernel_start as int, self.kernel_end as int)
    }

    fn check<L: Line>(&self, line: &L) -> (r: bool) {
        line.range_contains_unfilled(self.kernel_start..self.kernel_end)
    }

    fn apply<L: LineMut>(&self, line: &mut L) {
        line.fill_range(self.kernel_start..self.kernel_end);
    }

    proof fn lemma_applied(&self, cells: Seq<Cell>) {
        lemma_fill_span(cells, self.kernel_start as int, self.kernel_end as int);
    }
}

/// A run's bounds admit exactly one placement, `range_start..range_end`: the
/// cells on either side of it are crossed.
#[derive(Clone, Copy, Debug, PartialEq, Eq, Structural)]
pub struct Termination {
    pub range_start: usize,
    pub range_end: usize,
}

/// The cell before `start`, as a range: empty when `start` is 0.
pub open spec fn before(start: int) -> (int, int) {
    if start > 0 {
        (start - 1, start)
    } else {
        (0, 0)
    }
}

/// The cell at `end`, as a range: empty when it is off a line of `len` cells.
pub open spec fn at(end: int, len: int) -> (int, int) {
    if end < len {
        (end, end + 1)
    } else {
        (len, len)
    }
}

impl LineHint for Termination {
    open spec fn fits(&self, len: nat) -> bool {
        self.range_start <= len
    }

    open spec fn useful(&self, cells: Seq<Cell>) -> bool {
        let (a, b) = before(self.range_start as int);
        let (c, d) = at(self.range_end as int, cells.len() as int);
        any_uncrossed(cells, a, b) || any_uncrossed(cells, c, d)
    }

    open spec fn applied(&self, cells: Seq<Cell>) -> Seq<Cell> {
        let (a, b) = before(self.range_start as int);
        let (c, d) = at(self.range_end as int, cells.len() as int);
        cross_span(cross_span(cells, a, b), c, d)
    }

    fn check<L: Line>(&self, line: &L) -> (r: bool) {
        let ghost cells = line.cells();
        let len = line.len();
        let r = (self.range_start > 0 && !line.is_crossed(self.range_start - 1)) || (
        self.range_end < len && !line.is_crossed(self.range_end));
        proof {
            if self.range_start > 0 && !cells[self.range_start - 1].has_cross() {
                assert(any_uncrossed(cells, self.range_start - 1, self.range_start as int));
            }
            if self.range_end < len && !cells[self.range_end as int].has_cross() {
                assert(any_uncrossed(cells, self.range_end as int, self.range_end + 1));
            }
        }
        r
    }

    fn apply<L: LineMut>(&self, line: &mut L) {
        let (a, b) = if self.range_start > 0 {
            (self.range_start - 1, self.range_start)
        } else {
            (0, 0)
        };
        line.cross_range(a..b);
        let len = line.len();
        let (c, d) = if self.range_end < len {
            (self.range_end, self.range_end + 1)
        } else {
            (len, len)
        };
        line.cross_range(c..d);
    }

    proof fn lemma_applied(&self, cells: Seq<Cell>) {
        let (a, b) = before(self.range_start as int);
        let (c, d) = at(self.range_end as int, cells.len() as int);
        let x = cross_span(cells, a, b);
        lemma_cross_span(cells, a, b);
        lemma_cross_span(x, c, d);
        lemma_grows_trans(cells, x, self.applied(cells));
        lemma_grows_keeps(x, self.applied(cells), a, b);
    }
}

/// A filled cell at `found_start` lies before the kernel within the run's
/// turf: the cells from it to the kernel are filled, and the turf from
/// `reachable_end` on, out of the run's reach, is crossed.
#[derive(Clone, Copy, Debug, PartialEq, Eq, Structural)]
pub struct TurfNearSingleton {
    pub found_start: usize,
    pub kernel_start: usize,
    pub reachable_end: usize,
    pub turf_end: usize,
}

impl LineHint for TurfNearSingleton {
    open spec fn fits(&self, len: nat) -> bool {
        self.kernel_start <= len && self.turf_end <= len
    }

    open spec fn useful(&self, cells: Seq<Cell>) -> bool {
        any_unfilled(cells, self.found_start as int, self.kernel_start as int) || any_uncrossed(
            cells,
            self.reachable_end as int,
            self.turf_end as int,
        )
    }

    open spec fn applied(&self, cells: Seq<Cell>) -> Seq<Cell> {
        cross_span(
            fill_span(cells, self.found_start as int, self.kernel_start as int),
            self.reachable_end as int,
            self.turf_end as int,
        )
    }

    fn check<L: Line>(&self, line: &L) -> (r: bool) {
        line.range_contains_unfilled(self.found_start..self.kernel_start)
            || line.range_contains_uncrossed(self.reachable_end..self.turf_end)
    }

    fn apply<L: LineMut>(&self, line: &mut L) {
        line.fill_range(self.found_start..self.kernel_start);
        line.cross_range(self.reachable_end..self.turf_end);
    }

    proof fn lemma_applied(&self, cells: Seq<Cell>) {
        let x = fill_span(cells, self.found_start as int, self.kernel_start as int);
        lemma_fill_span(cells, self.found_start as int, self.kernel_start as int);
        lemma_cross_span(x, self.reachable_end as int, self.turf_end as int);
        lemma_grows_trans(cells, x, self.applied(cells));
        lemma_grows_keeps(x, self.applied(cells), self.found_start as int, self.kernel_start as int);
    }
}

/// The last filled cell of the run's turf, at `found_end`, lies after the
/// kernel: the cells from the kernel up to it are filled, and the turf before
/// `reachable_start`, out of the run's reach, is crossed.
#[derive(Clone, Copy, Debug, PartialEq, Eq, Structural)]
pub struct TurfFarSingleton {
    pub turf_start: usize,
    pub reachable_start: usize,
    pub kernel_end: usize,
    pub found_end: usize,
}

impl LineHint for TurfFarSingleton {
    open spec fn fits(&self, len: nat) -> bool {
        self.reachable_start <= len && self.found_end <= len
    }

    open spec fn useful(&self, cells: Seq<Cell>) -> bool {
        any_uncrossed(cells, self.turf_start as int, self.reachable_start as int) || any_unfilled(
            cells,
            self.kernel_end as int,
            self.found_end as int,
        )
    }

    open spec fn applied(&self, cells: Seq<Cell>) -> Seq<Cell> {
        fill_span(
            cross_span(cells, self.turf_start as int, self.reachable_start as int),
            self.kernel_end as int,
            self.found_end as int,
        )
    }

    fn check<L: Line>(&self, line: &L) -> (r: bool) {
        line.range_contains_uncrossed(self.turf_start..self.reachable_start)
            || line.range_contains_unfilled(self.kernel_end..self.found_end)
    }

    fn apply<L: LineMut>(&self, line: &mut L) {
        line.cross_range(self.turf_start..self.reachable_start);
        line.fill_range(self.kernel_end..self.found_end);
    }

    proof fn lemma_applied(&self, cells: Seq<Cell>) {
        let x = cross_span(cells, self.turf_start as int, self.reachable_start as int);
        lemma_cross_span(cells, self.turf_start as int, self.reachable_start as int);
        lemma_fill_span(x, self.kernel_end as int, self.found_end as int);
        lemma_grows_trans(cells, x, self.applied(cells));
        lemma_grows_keeps(x, self.applied(cells), self.turf_start as int, self.reachable_start as int);
    }
}

/// Two filled cells, at `found_start` and `found_end`, lie in a run's turf:
/// the cells between them are filled, and the turf farther than the run's
/// length from either is crossed.
#[derive(Clone, Copy, Debug, PartialEq, Eq, Structural)]
pub struct TurfPair {
    pub turf_start: usize,
    pub reachable_start: usize,
    pub found_start: usize,
    pub found_end: usize,
    pub reachable_end: usize,
    pub turf_end: usize,
}

impl LineHint for TurfPair {
    open spec fn fits(&self, len: nat) -> bool {
        self.reachable_start <= len && self.found_end <= len && self.turf_end <= len
            && self.found_start < self.found_end
    }

    open spec fn useful(&self, cells: Seq<Cell>) -> bool {
        any_uncrossed(cells, self.turf_start as int, self.reachable_start as int) || any_unfilled(
            cells,
            self.found_start + 1,
            self.found_end as int,
        ) || any_uncrossed(cells, self.reachable_end as int, self.turf_end as int)
    }

    open spec fn applied(&self, cells: Seq<Cell>) -> Seq<Cell> {
        cross_span(
            fill_span(
                cross_span(cells, self.turf_start as int, self.reachable_start as int),
                self.found_start + 1,
                self.found_end as int,
            ),
            self.reachable_end as int,
            self.turf_end as int,
        )
    }

    fn check<L: Line>(&self, line: &L) -> (r: bool) {
        line.range_contains_uncrossed(self.turf_start..self.reachable_start)
            || line.range_contains_unfilled(self.found_start + 1..self.found_end)
            || line.range_contains_uncrossed(self.reachable_end..self.turf_end)
    }

    fn apply<L: LineMut>(&self, line: &mut L) {
        line.cross_range(self.turf_start..self.reachable_start);
        line.fill_range(self.found_start + 1..self.found_end);
        line.cross_range(self.reachable_end..self.turf_end);
    }

    proof fn lemma_applied(&self, cells: Seq<Cell>) {
        let x = cross_span(cells, self.turf_start as int, self.reachable_start as int);
        let y = fill_span(x, self.found_start + 1, self.found_end as int);
        let z = self.applied(cells);
        lemma_cross_span(cells, self.turf_start as int, self.reachable_start as int);
        lemma_fill_span(x, self.found_start + 1, self.found_end as int);
        lemma_cross_span(y, self.reachable_end as int, self.turf_end as int);
        lemma_grows_trans(cells, x, y);
        lemma_grows_trans(cells, y, z);
        lemma_grows_trans(x, y, z);
        lemma_grows_keeps(x, z, self.turf_start as int, self.reachable_start as int);
        lemma_grows_keeps(y, z, self.found_start + 1, self.found_end as int);
    }
}

/// One filled cell lies in a run's turf, with no kernel: the turf farther than
/// the run's length from it is crossed.
#[derive(Clone, Copy, Debug, PartialEq, Eq, Structural)]
pub struct TurfSingleton {
    pub turf_start: usize,
    pub reachable_start: usize,
    pub reachable_end: usize,
    pub turf_end: usize,
}

impl LineHint for TurfSingleton {
    open spec fn fits(&self, len: nat) -> bool {
        self.reachable_start <= len && self.turf_end <= len
    }

    open spec fn useful(&self, cells: Seq<Cell>) -> bool {
        any_uncrossed(cells, self.turf_start as int, self.reachable_start as int) || any_uncrossed(
            cells,
            self.reachable_end as int,
            self.turf_end as int,
        )
    }

    open spec fn applied(&self, cells: Seq<Cell>) -> Seq<Cell> {
        cross_span(
            cross_span(cells, self.turf_start as int, self.reachable_start as int),
            self.reachable_end as int,
            self.turf_end as int,
        )
    }

    fn check<L: Line>(&self, line: &L) -> (r: bool) {
        line.range_contains_uncrossed(self.turf_start..self.reachable_start)
            || line.range_contains_uncrossed(self.reachable_end..self.turf_end)
    }

    fn apply<L: LineMut>(&self, line: &mut L) {
        line.cross_range(self.turf_start..self.reachable_start);
        line.cross_range(self.reachable_end..self.turf_end);
    }

    proof fn lemma_applied(&self, cells: Seq<Cell>) {
        let x = cross_span(cells, self.turf_start as int, self.reachable_start as int);
        lemma_cross_span(cells, self.turf_start as int, self.reachable_start as int);
        lemma_cross_span(x, self.reachable_end as int, self.turf_end as int);
        lemma_grows_trans(cells, x, self.applied(cells));
        lemma_grows_keeps(x, self.applied(cells), self.turf_start as int, self.reachable_start as int);
    }
}

/// A hint of the continuous-range pass.
#[derive(Clone, Copy, Debug, PartialEq, Eq, Structural)]
pub enum ContinuousRangeHint {
    Unreachable(Unreachable),
    Kernel(Kernel),
    Termination(Termination),
    TurfNearSingleton(TurfNearSingleton),
    TurfFarSingleton(TurfFarSingleton),
    TurfPair(TurfPair),
    TurfSingleton(TurfSingleton),
}

impl LineHint for ContinuousRangeHint {
    open spec fn fits(&self, len: nat) -> bool {
        match self {
            ContinuousRangeHint::Unreachable(h) => h.fits(len),
            ContinuousRangeHint::Kernel(h) => h.fits(len),
            ContinuousRangeHint::Termination(h) => h.fits(len),
            ContinuousRangeHint::TurfNearSingleton(h) => h.fits(len),
            ContinuousRangeHint::TurfFarSingleton(h) => h.fits(len),
            ContinuousRangeHint::TurfPair(h) => h.fits(len),
            ContinuousRangeHint::TurfSingleton(h) => h.fits(len),
        }
    }

    open spec fn useful(&self, cells: Seq<Cell>) -> bool {
        match self {
            ContinuousRangeHint::Unreachable(h) => h.useful(cells),
            ContinuousRangeHint::Kernel(h) => h.useful(cells),
            ContinuousRangeHint::Termination(h) => h.useful(cells),
            ContinuousRangeHint::TurfNearSingleton(h) => h.useful(cells),
            ContinuousRangeHint::TurfFarSingleton(h) => h.useful(cells),
            ContinuousRangeHint::TurfPair(h) => h.useful(cells),
            ContinuousRangeHint::TurfSingleton(h) => h.useful(cells),
        }
    }

    open spec fn applied(&self, cells: Seq<Cell>) -> Seq<Cell> {
        match self {
            ContinuousRangeHint::Unreachable(h) => h.applied(cells),
            ContinuousRangeHint::Kernel(h) => h.applied(cells),
            ContinuousRangeHint::Termination(h) => h.applied(cells),
            ContinuousRangeHint::TurfNearSingleton(h) => h.applied(cells),
            ContinuousRangeHint::TurfFarSingleton(h) => h.applied(cells),
            ContinuousRangeHint::TurfPair(h) => h.applied(cells),
            ContinuousRangeHint::TurfSingleton(h) => h.applied(cells),
        }
    }

    fn check<L: Line>(&self, line: &L) -> (r: bool) {
        match self {
            ContinuousRangeHint::Unreachable(h) => h.check(line),
            ContinuousRangeHint::Kernel(h) => h.check(line),
            ContinuousRangeHint::Termination(h) => h.check(line),
            ContinuousRangeHint::TurfNearSingleton(h) => h.check(line),
            ContinuousRangeHint::TurfFarSingleton(h) => h.check(line),
            ContinuousRangeHint::TurfPair(h) => h.check(line),
            ContinuousRangeHint::TurfSingleton(h) => h.check(line),
        }
    }

    fn apply<L: LineMut>(&self, line: &mut L) {
        match self {
            ContinuousRangeHint::Unreachable(h) => h.apply(line),
            ContinuousRangeHint::Kernel(h) => h.apply(line),
            ContinuousRangeHint::Termination(h) => h.apply(line),
            ContinuousRangeHint::TurfNearSingleton(h) => h.apply(line),
            ContinuousRangeHint::TurfFarSingleton(h) => h.apply(line),
            ContinuousRangeHint::TurfPair(h) => h.apply(line),
            ContinuousRangeHint::TurfSingleton(h) => h.apply(line),
        }
    }

    proof fn lemma_applied(&self, cells: Seq<Cell>) {
        match self {
            ContinuousRangeHint::Unreachable(h) => h.lemma_applied(cells),
            ContinuousRangeHint::Kernel(h) => h.lemma_applied(cells),
            ContinuousRangeHint::Termination(h) => h.lemma_applied(cells),
            ContinuousRangeHint::TurfNearSingleton(h) => h.lemma_applied(cells),
            ContinuousRangeHint::TurfFarSingleton(h) => h.lemma_applied(cells),
            ContinuousRangeHint::TurfPair(h) => h.lemma_applied(cells),
            ContinuousRangeHint::TurfSingleton(h) => h.lemma_applied(cells),
        }
    }
}

/// Run `i`'s bounds hold it and lie on the line.
pub open spec fn range_consistent(cells: Seq<Cell>, clue: Seq<usize>, i: int) -> bool {
    &&& 0 <= range_start(cells, clue, i)
    &&& range_start(cells, clue, i) + clue[i] <= range_end(cells, clue, i)
    &&& range_end(cells, clue, i) <= cells.len()
}

/// Every run's bounds hold it and lie on the line.
pub open spec fn ranges_consistent(cells: Seq<Cell>, clue: Seq<usize>) -> bool {
    forall|i: int| 0 <= i < clue.len() ==> #[trigger] range_consistent(cells, clue, i)
}

/// Where run `i`'s turf starts: past the previous run's latest end, and no
/// earlier than its own earliest start.
pub open spec fn turf_start(cells: Seq<Cell>, clue: Seq<usize>, i: int) -> int {
    let rs = range_start(cells, clue, i);
    let prev = if i == 0 {
        0
    } else {
        range_end(cells, clue, i - 1) + 1
    };
    if prev > rs {
        prev
    } else {
        rs
    }
}

/// Where run `i`'s turf ends: before the next run's earliest start, and no
/// later than its own latest end.
pub open spec fn turf_end(cells: Seq<Cell>, clue: Seq<usize>, i: int) -> int {
    let re = range_end(cells, clue, i);
    let next = if i + 1 == clue.len() {
        cells.len() as int + 1
    } else {
        range_start(cells, clue, i + 1) - 1
    };
    if next < re {
        next
    } else {
        re
    }
}

/// The hint alone if it would change the line, else nothing.
pub open spec fn keep(h: ContinuousRangeHint, cells: Seq<Cell>) -> Seq<ContinuousRangeHint> {
    if h.useful(cells) {
        seq![h]
    } else {
        Seq::empty()
    }
}

/// `x - y`, or 0 where that is negative.
pub open spec fn minus_or_zero(x: int, y: int) -> int {
    if x >= y {
        x - y
    } else {
        0
    }
}

/// The hints derived for run `i`, at most one of kernel and termination and
/// at most one turf hint. When its bounds admit one placement: the kernel
/// while some of its cells are unfilled, the termination once they are all
/// filled. Otherwise the kernel, if any, then the one turf hint that filled
/// cells in its turf imply: the near singleton, else the far one, else a pair
/// or a singleton where there is no kernel.
#[verifier::opaque]
pub open spec fn run_hints(cells: Seq<Cell>, clue: Seq<usize>, i: int) -> Seq<ContinuousRangeHint> {
    let c = clue[i] as int;
    let rs = range_start(cells, clue, i);
    let re = range_end(cells, clue, i);
    let ts = turf_start(cells, clue, i);
    let te = turf_end(cells, clue, i);
    if rs + 2 * c > re {
        let ks = re - c;
        let ke = rs + c;
        let kernel = keep(
            ContinuousRangeHint::Kernel(Kernel { kernel_start: ks as usize, kernel_end: ke as usize }),
            cells,
        );
        if ks == rs && ke == re {
            if kernel.len() > 0 {
                kernel
            } else {
                keep(
                    ContinuousRangeHint::Termination(
                        Termination { range_start: rs as usize, range_end: re as usize },
                    ),
                    cells,
                )
            }
        } else {
            let near = match first_filled(cells, ts, ks) {
                Some(fs) => keep(
                    ContinuousRangeHint::TurfNearSingleton(
                        TurfNearSingleton {
                            found_start: fs as usize,
                            kernel_start: ks as usize,
                            reachable_end: (fs + c) as usize,
                            turf_end: te as usize,
                        },
                    ),
                    cells,
                ),
                None => Seq::empty(),
            };
            let far = match last_filled(cells, ke, te) {
                Some(fe) => keep(
                    ContinuousRangeHint::TurfFarSingleton(
                        TurfFarSingleton {
                            turf_start: ts as usize,
                            reachable_start: (fe - c) as usize,
                            kernel_end: ke as usize,
                            found_end: fe as usize,
                        },
                    ),
                    cells,
                ),
                None => Seq::empty(),
            };
            kernel + if near.len() > 0 {
                near
            } else {
                far
            }
        }
    } else {
        match first_filled(cells, ts, te) {
            None => Seq::empty(),
            Some(fs) => match last_filled(cells, fs + 1, te) {
                Some(fe) => keep(
                    ContinuousRangeHint::TurfPair(
                        TurfPair {
                            turf_start: ts as usize,
                            reachable_start: minus_or_zero(fe, c) as usize,
                            found_start: fs as usize,
                            found_end: fe as usize,
                            reachable_end: (fs + c) as usize,
                            turf_end: te as usize,
                        },
                    ),
                    cells,
                ),
                None => keep(
                    ContinuousRangeHint::TurfSingleton(
                        TurfSingleton {
                            turf_start: ts as usize,
                            reachable_start: minus_or_zero(fs, c) as usize,
                            reachable_end: (fs + c) as usize,
                            turf_end: te as usize,
                        },
                    ),
                    cells,
                ),
            },
        }
    }
}

/// The hints derived for the first `i` runs, in order.
pub open spec fn runs_hints(cells: Seq<Cell>, clue: Seq<usize>, i: int) -> Seq<ContinuousRangeHint>
    decreases i,
{
    if i <= 0 {
        Seq::empty()
    } else {
        runs_hints(cells, clue, i - 1) + run_hints(cells, clue, i - 1)
    }
}

/// The cells outside every run's bounds: all of them for an empty clue.
pub open spec fn unreachable_of(cells: Seq<Cell>, clue: Seq<usize>) -> Unreachable {
    if clue.len() == 0 {
        Unreachable { reachable_start: 0, reachable_end: 0 }
    } else {
        Unreachable {
            reachable_start: range_start(cells, clue, 0) as usize,
            reachable_end: range_end(cells, clue, clue.len() - 1) as usize,
        }
    }
}

/// The hints of the continuous-range pass: none where some run's bounds
/// cannot hold it (the line contradicts its clue), else the unreachable cells
/// and then each run's hints.
pub open spec fn continuous_hints(cells: Seq<Cell>, clue: Seq<usize>) -> Seq<ContinuousRangeHint> {
    if !ranges_consistent(cells, clue) {
        Seq::empty()
    } else {
        keep(ContinuousRangeHint::Unreachable(unreachable_of(cells, clue)), cells) + runs_hints(
            cells,
            clue,
            clue.len() as int,
        )
    }
}

/// Every hint fits the line and would change it.
pub open spec fn all_fit_useful(hints: Seq<ContinuousRangeHint>, cells: Seq<Cell>) -> bool {
    forall|j: int|
        0 <= j < hints.len() ==> #[trigger] hints[j].fits(cells.len()) && hints[j].useful(cells)
}

fn push_if_useful<L: Line>(hints: &mut Vec<ContinuousRangeHint>, h: ContinuousRangeHint, line: &L) -> (r: bool)
    requires
        line.inv(),
        h.fits(line.cells().len()),
        all_fit_useful(old(hints)@, line.cells()),
    ensures
        final(hints)@ == old(hints)@ + keep(h, line.cells()),
        all_fit_useful(final(hints)@, line.cells()),
        r == h.useful(line.cells()),
{
    if h.check(line) {
        hints.push(h);
        assert(hints@ =~= old(hints)@ + keep(h, line.cells()));
        true
    } else {
        assert(hints@ =~= old(hints)@ + keep(h, line.cells()));
        false
    }
}

/// The continuous-range pass.
#[derive(Clone, Copy, Debug)]
pub struct ContinuousRangePass;

impl ContinuousRangePass {
    fn run_hints<L: Line>(
        line: &L,
        number: usize,
        rs: usize,
        re: usize,
        ts: usize,
        te: usize,
        hints: &mut Vec<ContinuousRangeHint>,
        Ghost(clue): Ghost<Seq<usize>>,
        Ghost(i): Ghost<int>,
    )
        requires
            line.inv(),
            line.cells().len() <= usize::MAX / 4,
            0 <= i < clue.len(),
            ranges_consistent(line.cells(), clue),
            number == clue[i],
            rs == range_start(line.cells(), clue, i),
            re == range_end(line.cells(), clue, i),
            ts == turf_start(line.cells(), clue, i),
            te == turf_end(line.cells(), clue, i),
            all_fit_useful(old(hints)@, line.cells()),
        ensures
            final(hints)@ == old(hints)@ + run_hints(line.cells(), clue, i),
            all_fit_useful(final(hints)@, line.cells()),
    {
        let ghost cells = line.cells();
        let ghost h0 = hints@;
        assert(range_consistent(cells, clue, i));
        reveal(run_hints);
        if rs + 2 * number > re {
            let kernel_start = re - number;
            let kernel_end = rs + number;
            if kernel_start == rs && kernel_end == re {
                let pushed = push_if_useful(
                    hints,
                    ContinuousRangeHint::Kernel(Kernel { kernel_start, kernel_end }),
                    line,
                );
                if !pushed {
                    push_if_useful(
                        hints,
                        ContinuousRangeHint::Termination(Termination { range_start: rs, range_end: re }),
                        line,
                    );
                }
                assert(hints@ =~= h0 + run_hints(cells, clue, i));
                return;
            }
            push_if_useful(
                hints,
                ContinuousRangeHint::Kernel(Kernel { kernel_start, kernel_end }),
                line,
            );
            let ghost h1 = hints@;
            let pushed_near = if let Some(found_start) = find_first_filled(line, ts, kernel_start) {
                proof {
                    lemma_first_filled(cells, ts as int, kernel_start as int);
                }
                push_if_useful(
                    hints,
                    ContinuousRangeHint::TurfNearSingleton(
                        TurfNearSingleton {
                            found_start,
                            kernel_start,
                            reachable_end: found_start + number,
                            turf_end: te,
                        },
                    ),
                    line,
                )
            } else {
                assert(hints@ =~= h1 + Seq::<ContinuousRangeHint>::empty());
                false
            };
            let ghost h2 = hints@;
            if pushed_near {
            } else if let Some(found_end) = find_last_filled(line, kernel_end, te) {
                proof {
                    lemma_last_filled(cells, kernel_end as int, te as int);
                }
                push_if_useful(
                    hints,
                    ContinuousRangeHint::TurfFarSingleton(
                        TurfFarSingleton {
                            turf_start: ts,
                            reachable_start: found_end - number,
                            kernel_end,
                            found_end,
                        },
                    ),
                    line,
                );
            } else {
                assert(hints@ =~= h2 + Seq::<ContinuousRangeHint>::empty());
            }
            assert(hints@ =~= h0 + run_hints(cells, clue, i));
        } else if let Some(found_start) = find_first_filled(line, ts, te) {
            proof {
                lemma_first_filled(cells, ts as int, te as int);
            }
            let reachable_end = found_start + number;
            if let Some(found_end) = find_last_filled(line, found_start + 1, te) {
                proof {
                    lemma_last_filled(cells, found_start + 1, te as int);
                }
                let reachable_start = if found_end >= number {
                    found_end - number
                } else {
                    0
                };
                push_if_useful(
                    hints,
                    ContinuousRangeHint::TurfPair(
                        TurfPair {
                            turf_start: ts,
                            reachable_start,
                            found_start,
                            found_end,
                            reachable_end,
                            turf_end: te,
                        },
                    ),
                    line,
                );
            } else {
                let reachable_start = if found_start >= number {
                    found_start - number
                } else {
                    0
                };
                push_if_useful(
                    hints,
                    ContinuousRangeHint::TurfSingleton(
                        TurfSingleton { turf_start: ts, reachable_start, reachable_end, turf_end: te },
                    ),
                    line,
                );
            }
        } else {
            assert(hints@ =~= h0 + run_hints(cells, clue, i));
        }
    }
}

impl LinePass for ContinuousRangePass {
    type Hint = ContinuousRangeHint;

    open spec fn derives(
        &self,
        clue: Seq<usize>,
        cells: Seq<Cell>,
        hints: Seq<ContinuousRangeHint>,
    ) -> bool {
        hints == continuous_hints(cells, clue)
    }

    fn run<L: Line>(&self, clue: &[usize], line: &L) -> (r: Result<Vec<ContinuousRangeHint>, IllFormedClue>) {
        let ghost cells = line.cells();
        if !check_clue(clue, line.len()) {
            return Err(IllFormedClue);
        }
        let len = line.len();
        let k = clue.len();
        let mut hints: Vec<ContinuousRangeHint> = Vec::new();
        proof {
            lemma_prefix_sum_mono(clue@, 0, k as int);
            if k > 0 {
                assert forall|i: int| 0 <= i < k implies clue@[i] <= len by {
                    lemma_prefix_sum_mono(clue@, i, k as int);
                    lemma_prefix_sum_mono(clue@, i + 1, k as int);
                    assert(prefix_sum(clue@, i + 1) == prefix_sum(clue@, i) + clue@[i]);
                }
            }
        }
        let range_starts = clue.range_starts(line);
        let range_ends = clue.range_ends(line);
        let mut ends: Vec<usize> = Vec::new();
        let mut i: usize = 0;
        while i < k
            invariant
                line.inv(),
                cells == line.cells(),
                len == cells.len(),
                k == clue@.len(),
                clue_ok(clue@, len as int),
                range_starts@.len() == k,
                range_ends@.len() == k,
                forall|j: int| 0 <= j < k ==> range_starts@[j] == range_start(cells, clue@, j),
                forall|j: int| 0 <= j < k ==> range_ends@[j] == range_end(cells, clue@, j),
                i <= k,
                hints@.len() == 0,
                ends@.len() == i,
                forall|j: int| 0 <= j < i ==> ends@[j] == range_end(cells, clue@, j),
                forall|j: int| 0 <= j < i ==> #[trigger] range_consistent(cells, clue@, j),
            decreases k - i,
        {
            let end = range_ends[i];
            if end < 0 || end as usize > len || clue[i] > end as usize || range_starts[i] > end as usize
                - clue[i] {
                assert(!ranges_consistent(cells, clue@)) by {
                    assert(range_start(cells, clue@, i as int) == range_starts@[i as int]);
                    assert(!range_consistent(cells, clue@, i as int));
                }
                assert(hints@ =~= continuous_hints(cells, clue@));
                return Ok(hints);
            }
            ends.push(end as usize);
            assert(range_start(cells, clue@, i as int) == range_starts@[i as int]);
            assert(range_end(cells, clue@, i as int) == end);
            assert(range_consistent(cells, clue@, i as int));
            i = i + 1;
        }
        assert(ranges_consistent(cells, clue@));
        if k > 0 {
            assert(range_consistent(cells, clue@, 0));
        }
        let unreachable = if k == 0 {
            Unreachable { reachable_start: 0, reachable_end: 0 }
        } else {
            Unreachable { reachable_start: range_starts[0], reachable_end: ends[k - 1] }
        };
        push_if_useful(&mut hints, ContinuousRangeHint::Unreachable(unreachable), line);
        let mut i: usize = 0;
        while i < k
            invariant
                line.inv(),
                cells == line.cells(),
                len == cells.len(),
                len <= usize::MAX / 8,
                k == clue@.len(),
                clue_ok(clue@, len as int),
                ranges_consistent(cells, clue@),
                range_starts@.len() == k,
                ends@.len() == k,
                forall|j: int| 0 <= j < k ==> range_starts@[j] == range_start(cells, clue@, j),
                forall|j: int| 0 <= j < k ==> ends@[j] == range_end(cells, clue@, j),
                i <= k,
                hints@ == keep(ContinuousRangeHint::Unreachable(unreachable_of(cells, clue@)), cells)
                    + runs_hints(cells, clue@, i as int),
                all_fit_useful(hints@, cells),
            decreases k - i,
        {
            let rs = range_starts[i];
            let re = ends[i];
            assert(range_consistent(cells, clue@, i as int));
            if i > 0 {
                assert(range_consistent(cells, clue@, i - 1));
            }
            let ts = if i == 0 {
                rs
            } else if ends[i - 1] + 1 > rs {
                ends[i - 1] + 1
            } else {
                rs
            };
            let next = if i + 1 == k {
                len + 1
            } else {
                proof {
                    lemma_bump_start_bounds(
                        cells,
                        range_start(cells, clue@, i as int) + clue@[i as int] + 1,
                        clue@[i + 1] as int,
                    );
                }
                range_starts[i + 1] - 1
            };
            let te = if next < re {
                next
            } else {
                re
            };
            let ghost before = hints@;
            Self::run_hints(line, clue[i], rs, re, ts, te, &mut hints, Ghost(clue@), Ghost(i as int));
            assert(hints@ =~= keep(ContinuousRangeHint::Unreachable(unreachable_of(cells, clue@)), cells)
                + runs_hints(cells, clue@, i + 1));
            i = i + 1;
        }
        Ok(hints)
    }
}

/// A kernel hint lies within the bounds of some run; other hints qualify
/// trivially.
pub open spec fn kernel_within_bounds(cells: Seq<Cell>, clue: Seq<usize>, h: ContinuousRangeHint) -> bool {
    match h {
        ContinuousRangeHint::Kernel(k) => exists|i: int|
            0 <= i < clue.len() && #[trigger] range_start(cells, clue, i) <= k.kernel_start
                && k.kernel_end <= range_end(cells, clue, i),
        _ => true,
    }
}

proof fn lemma_run_kernels(cells: Seq<Cell>, clue: Seq<usize>, i: int)
    requires
        0 <= i < clue.len(),
        ranges_consistent(cells, clue),
        cells.len() <= usize::MAX,
    ensures
        forall|j: int|
            0 <= j < run_hints(cells, clue, i).len() ==> kernel_within_bounds(
                cells,
                clue,
                #[trigger] run_hints(cells, clue, i)[j],
            ),
{
    let c = clue[i] as int;
    let rs = range_start(cells, clue, i);
    let re = range_end(cells, clue, i);
    assert(range_consistent(cells, clue, i));
    reveal(run_hints);
    if rs + 2 * c > re {
        let k = ContinuousRangeHint::Kernel(
            Kernel { kernel_start: (re - c) as usize, kernel_end: (rs + c) as usize },
        );
        assert(rs <= re - c && rs + c <= re);
        assert(kernel_within_bounds(cells, clue, k));
    }
}

proof fn lemma_runs_kernels(cells: Seq<Cell>, clue: Seq<usize>, n: int)
    requires
        0 <= n <= clue.len(),
        ranges_consistent(cells, clue),
        cells.len() <= usize::MAX,
    ensures
        forall|j: int|
            0 <= j < runs_hints(cells, clue, n).len() ==> kernel_within_bounds(
                cells,
                clue,
                #[trigger] runs_hints(cells, clue, n)[j],
            ),
    decreases n,
{
    if n > 0 {
        lemma_runs_kernels(cells, clue, n - 1);
        lemma_run_kernels(cells, clue, n - 1);
        let a = runs_hints(cells, clue, n - 1);
        let b = run_hints(cells, clue, n - 1);
        assert forall|j: int| 0 <= j < (a + b).len() implies kernel_within_bounds(
            cells,
            clue,
            #[trigger] (a + b)[j],
        ) by {
            if j < a.len() {
                assert((a + b)[j] == a[j]);
            } else {
                assert((a + b)[j] == b[j - a.len()]);
            }
        }
    }
}

/// Every kernel hint of the continuous-range pass lies within
/// `range_starts[i]..range_ends[i]` for some run `i`.
pub proof fn lemma_kernels_within_bounds(cells: Seq<Cell>, clue: Seq<usize>)
    requires
        cells.len() <= usize::MAX,
    ensures
        forall|j: int|
            0 <= j < continuous_hints(cells, clue).len() ==> kernel_within_bounds(
                cells,
                clue,
                #[trigger] continuous_hints(cells, clue)[j],
            ),
{
    if ranges_consistent(cells, clue) {
        lemma_runs_kernels(cells, clue, clue.len() as int);
        let a = keep(ContinuousRangeHint::Unreachable(unreachable_of(cells, clue)), cells);
        let b = runs_hints(cells, clue, clue.len() as int);
        assert forall|j: int| 0 <= j < (a + b).len() implies kernel_within_bounds(
            cells,
            clue,
            #[trigger] (a + b)[j],
        ) by {
            if j < a.len() {
                assert((a + b)[j] == a[j]);
            } else {
                assert((a + b)[j] == b[j - a.len()]);
            }
        }
    }
}

/// A kernel or a termination hint.
pub open spec fn is_bound_hint(h: ContinuousRangeHint) -> bool {
    h is Kernel || h is Termination
}

/// Each run yields at most two hints: at most one kernel or termination, and
/// it comes first; at most one turf hint, and it comes last.
pub proof fn lemma_run_hints_per_run(cells: Seq<Cell>, clue: Seq<usize>, i: int)
    ensures
        run_hints(cells, clue, i).len() <= 2,
        forall|j: int|
            0 < j < run_hints(cells, clue, i).len() ==> !is_bound_hint(#[trigger] run_hints(cells, clue, i)[j]),
        run_hints(cells, clue, i).len() == 2 ==> is_bound_hint(run_hints(cells, clue, i)[0]),
{
    reveal(run_hints);
}

/// Every legal placement of the clue starts run `i` no earlier than its
/// earliest start `range_starts[i]`.
pub proof fn lemma_range_start_sound(cells: Seq<Cell>, clue: Seq<usize>, p: Seq<usize>, i: int)
    requires
        placement_ok(cells, clue, p),
        0 <= i < clue.len(),
    ensures
        0 <= range_start(cells, clue, i) <= p[i],
    decreases i,
{
    assert(run_ok(cells, clue[i] as int, prev_end(clue, p, i), p[i] as int));
    let s = if i <= 0 {
        0
    } else {
        range_start(cells, clue, i - 1) + clue[i - 1] + 1
    };
    if i > 0 {
        lemma_range_start_sound(cells, clue, p, i - 1);
        assert(run_ok(cells, clue[i - 1] as int, prev_end(clue, p, i - 1), p[i - 1] as int));
    }
    lemma_bump_start_bounds(cells, s, clue[i] as int);
    lemma_bump_start_at_most(cells, s, clue[i] as int, p[i] as int);
}

/// Every legal placement of the clue ends run `i` no later than its latest
/// end `range_ends[i]`.
pub proof fn lemma_range_end_sound(cells: Seq<Cell>, clue: Seq<usize>, p: Seq<usize>, i: int)
    requires
        placement_ok(cells, clue, p),
        0 <= i < clue.len(),
    ensures
        p[i] + clue[i] <= range_end(cells, clue, i),
    decreases clue.len() - i,
{
    assert(run_ok(cells, clue[i] as int, prev_end(clue, p, i), p[i] as int));
    let last = if i + 1 >= clue.len() {
        cells.len() - 1
    } else {
        range_end(cells, clue, i + 1) - clue[i + 1] - 2
    };
    if i + 1 < clue.len() {
        lemma_range_end_sound(cells, clue, p, i + 1);
        assert(run_ok(cells, clue[i + 1] as int, prev_end(clue, p, i + 1), p[i + 1] as int));
    }
    if i > 0 {
        assert(run_ok(cells, clue[i - 1] as int, prev_end(clue, p, i - 1), p[i - 1] as int));
    }
    if p[i] > 0 {
        assert(!cells[p[i] - 1].has_fill());
    }
    lemma_bump_last_at_least(cells, last, clue[i] as int, p[i] as int);
}

} // verus!

