//! The discrete-range pass: enumerates every legal placement of a clue's runs
//! on a line, and keeps what all placements agree on.
use crate::bitset::{
    bit, bits_of, bitset_contains, bitset_len, bitset_put, bitset_set_range,
    bitset_with_capacity,
};
use crate::clue::check_clue;
use crate::hint::{IllFormedClue, LineHint, LinePass};
use crate::line::{
    any_uncrossed, any_unfilled, cross_span, fill_span, lemma_cross_span,
    lemma_fill_span, Line, LineMut,
};
use crate::parser::Cell;
use fixedbitset::FixedBitSet;
use vstd::prelude::*;

verus! {

/// The cells `start..end` are filled in every legal placement; `numbers` holds
/// the runs that may cover the first of them.
#[derive(Debug)]
pub struct FilledRun {
    pub start: usize,
    pub end: usize,
    pub numbers: FixedBitSet,
}

impl FilledRun {
    /// Same cells, and the same set of run numbers.
    pub open spec fn same_as(&self, other: &FilledRun) -> bool {
        &&& self.start == other.start
        &&& self.end == other.end
        &&& forall|d: int| 0 <= d ==> #[trigger] bit(self.numbers, d) == bit(other.numbers, d)
    }
}

impl PartialEq for FilledRun {
    fn eq(&self, other: &FilledRun) -> (r: bool) {
        if self.start != other.start || self.end != other.end {
            return false;
        }
        let a = bitset_len(&self.numbers);
        let b = bitset_len(&other.numbers);
        let n = if a > b {
            a
        } else {
            b
        };
        let mut d: usize = 0;
        while d < n
            invariant
                n == if a > b { a } else { b },
                a == bits_of(self.numbers).len(),
                b == bits_of(other.numbers).len(),
                d <= n,
                forall|e: int| 0 <= e < d ==> bit(self.numbers, e) == bit(other.numbers, e),
            decreases n - d,
        {
            if bitset_contains(&self.numbers, d) != bitset_contains(&other.numbers, d) {
                return false;
            }
            d = d + 1;
        }
        true
    }
}

impl vstd::std_specs::cmp::PartialEqSpecImpl for FilledRun {
    open spec fn obeys_eq_spec() -> bool {
        true
    }

    open spec fn eq_spec(&self, other: &FilledRun) -> bool {
        self.same_as(other)
    }
}

impl LineHint for FilledRun {
    open spec fn fits(&self, len: nat) -> bool {
        self.end <= len
    }

    open spec fn useful(&self, cells: Seq<Cell>) -> bool {
        any_unfilled(cells, self.start as int, self.end as int)
    }

    open spec fn applied(&self, cells: Seq<Cell>) -> Seq<Cell> {
        fill_span(cells, self.start as int, self.end as int)
    }

    fn check<L: Line>(&self, line: &L) -> (r: bool) {
        line.range_contains_unfilled(self.start..self.end)
    }

    fn apply<L: LineMut>(&self, line: &mut L) {
        line.fill_range(self.start..self.end)
    }

    proof fn lemma_applied(&self, cells: Seq<Cell>) {
        lemma_fill_span(cells, self.start as int, self.end as int);
    }
}

/// The cells `start..end` are crossed in every legal placement.
#[derive(Clone, Copy, Debug, PartialEq, Eq, Structural)]
pub struct CrossedRun {
    pub start: usize,
    pub end: usize,
}

impl LineHint for CrossedRun {
    open spec fn fits(&self, len: nat) -> bool {
        self.end <= len
    }

    open spec fn useful(&self, cells: Seq<Cell>) -> bool {
        any_uncrossed(cells, self.start as int, self.end as int)
    }

    open spec fn applied(&self, cells: Seq<Cell>) -> Seq<Cell> {
        cross_span(cells, self.start as int, self.end as int)
    }

    fn check<L: Line>(&self, line: &L) -> (r: bool) {
        line.range_contains_uncrossed(self.start..self.end)
    }

    fn apply<L: LineMut>(&self, line: &mut L) {
        line.cross_range(self.start..self.end)
    }

    proof fn lemma_applied(&self, cells: Seq<Cell>) {
        lemma_cross_span(cells, self.start as int, self.end as int);
    }
}

/// A hint of the discrete-range pass.
#[derive(Debug)]
pub enum DiscreteRangeHint {
    CrossedRun(CrossedRun),
    FilledRun(FilledRun),
}

impl PartialEq for DiscreteRangeHint {
    fn eq(&self, other: &DiscreteRangeHint) -> (r: bool) {
        match (self, other) {
            (DiscreteRangeHint::CrossedRun(a), DiscreteRangeHint::CrossedRun(b)) => a == b,
            (DiscreteRangeHint::FilledRun(a), DiscreteRangeHint::FilledRun(b)) => a.eq(b),
            _ => false,
        }
    }
}

impl vstd::std_specs::cmp::PartialEqSpecImpl for DiscreteRangeHint {
    open spec fn obeys_eq_spec() -> bool {
        true
    }

    open spec fn eq_spec(&self, other: &DiscreteRangeHint) -> bool {
        match (self, other) {
            (DiscreteRangeHint::CrossedRun(a), DiscreteRangeHint::CrossedRun(b)) => a == b,
            (DiscreteRangeHint::FilledRun(a), DiscreteRangeHint::FilledRun(b)) => a.same_as(b),
            _ => false,
        }
    }
}

impl LineHint for DiscreteRangeHint {
    open spec fn fits(&self, len: nat) -> bool {
        match self {
            DiscreteRangeHint::CrossedRun(h) => h.fits(len),
            DiscreteRangeHint::FilledRun(h) => h.fits(len),
        }
    }

    open spec fn useful(&self, cells: Seq<Cell>) -> bool {
        match self {
            DiscreteRangeHint::CrossedRun(h) => h.useful(cells),
            DiscreteRangeHint::FilledRun(h) => h.useful(cells),
        }
    }

    open spec fn applied(&self, cells: Seq<Cell>) -> Seq<Cell> {
        match self {
            DiscreteRangeHint::CrossedRun(h) => h.applied(cells),
            DiscreteRangeHint::FilledRun(h) => h.applied(cells),
        }
    }

    fn check<L: Line>(&self, line: &L) -> (r: bool) {
        match self {
            DiscreteRangeHint::CrossedRun(h) => h.check(line),
            DiscreteRangeHint::FilledRun(h) => h.check(line),
        }
    }

    fn apply<L: LineMut>(&self, line: &mut L) {
        match self {
            DiscreteRangeHint::CrossedRun(h) => h.apply(line),
            DiscreteRangeHint::FilledRun(h) => h.apply(line),
        }
    }

    proof fn lemma_applied(&self, cells: Seq<Cell>) {
        match self {
            DiscreteRangeHint::CrossedRun(h) => h.lemma_applied(cells),
            DiscreteRangeHint::FilledRun(h) => h.lemma_applied(cells),
        }
    }
}

/// A run of `n` cells may start at `s`, when the search for it began at
/// `from`: the run lies on the line, covers no crossed cell, leaves no filled
/// cell between `from` and itself, and is not followed by a filled cell.
pub open spec fn run_ok(cells: Seq<Cell>, n: int, from: int, s: int) -> bool {
    &&& from <= s
    &&& s + n <= cells.len()
    &&& forall|i: int| s <= i < s + n ==> !#[trigger] cells[i].has_cross()
    &&& forall|i: int| from <= i < s ==> !#[trigger] cells[i].has_fill()
    &&& s + n < cells.len() ==> !cells[s + n].has_fill()
}

/// What a scan for the start of a run has seen so far.
#[derive(Clone, Copy, Debug, PartialEq, Eq, Structural)]
pub enum State {
    /// No filled cell yet; the number of uncrossed cells since the last cross.
    Empty(usize),
    /// The number of cells since the first filled one, and the number of
    /// uncrossed cells since the last cross.
    Filled(usize, usize),
    /// No run can end from here on.
    End,
}

/// The state after one more cell.
pub open spec fn step(state: State, cell: Cell) -> State {
    match (state, cell) {
        (State::End, _) => State::End,
        (_, Cell::Impossible) => State::End,
        (State::Empty(_), Cell::Crossed) => State::Empty(0),
        (State::Empty(n), Cell::Undecided) => State::Empty((n + 1) as usize),
        (State::Empty(n), Cell::Filled) => State::Filled(1, (n + 1) as usize),
        (State::Filled(m, n), Cell::Undecided) => State::Filled((m + 1) as usize, (n + 1) as usize),
        (State::Filled(m, n), Cell::Filled) => State::Filled((m + 1) as usize, (n + 1) as usize),
        (State::Filled(_, _), Cell::Crossed) => State::End,
    }
}

impl State {
    /// The state before any cell.
    pub fn start() -> (r: State)
        ensures
            r == State::Empty(0),
    {
        State::Empty(0)
    }

    /// The state after one more cell.
    pub fn cell(self, cell: Cell) -> (r: State)
        requires
            self matches State::Empty(n) ==> n < usize::MAX,
            self matches State::Filled(m, n) ==> m < usize::MAX && n < usize::MAX,
        ensures
            r == step(self, cell),
    {
        match (self, cell) {
            (State::End, _) => State::End,
            (_, Cell::Impossible) => State::End,
            (State::Empty(_), Cell::Crossed) => State::Empty(0),
            (State::Empty(n), Cell::Undecided) => State::Empty(n + 1),
            (State::Empty(n), Cell::Filled) => State::Filled(1, n + 1),
            (State::Filled(m, n), Cell::Undecided) => State::Filled(m + 1, n + 1),
            (State::Filled(m, n), Cell::Filled) => State::Filled(m + 1, n + 1),
            (State::Filled(_, _), Cell::Crossed) => State::End,
        }
    }
}

/// The last `e` cells before `focus` are uncrossed, and the one before them
/// is crossed or is where the scan began.
pub open spec fn clear_suffix(cells: Seq<Cell>, from: int, focus: int, e: int) -> bool {
    &&& from <= focus - e
    &&& forall|i: int| focus - e <= i < focus ==> !#[trigger] cells[i].has_cross()
    &&& (focus - e == from || cells[focus - e - 1].has_cross())
}

/// What `state` records of the cells `from..focus`, for a run of `n`.
pub open spec fn state_holds(cells: Seq<Cell>, n: int, from: int, focus: int, state: State) -> bool {
    match state {
        State::Empty(e) => {
            &&& forall|i: int| from <= i < focus ==> !#[trigger] cells[i].has_fill()
            &&& clear_suffix(cells, from, focus, e as int)
        },
        State::Filled(m, e) => {
            &&& 1 <= m <= n
            &&& m <= e
            &&& cells[focus - m].has_fill()
            &&& forall|i: int| from <= i < focus - m ==> !#[trigger] cells[i].has_fill()
            &&& clear_suffix(cells, from, focus, e as int)
        },
        State::End => forall|s: int| run_ok(cells, n, from, s) ==> s + n < focus,
    }
}

/// The starts of a run of `number` cells on a line, searched from a given
/// cell, in increasing order.
pub struct Iter<'a, L: Line> {
    pub line: &'a L,
    pub number: usize,
    pub focus: usize,
    pub state: State,
    pub from: Ghost<int>,
}

impl<'a, L: Line> Iter<'a, L> {
    /// The iterator is where its scan left off.
    pub open spec fn inv(&self) -> bool {
        &&& self.line.inv()
        &&& 1 <= self.number
        &&& 0 <= self.from@ <= self.focus <= self.line.cells().len()
        &&& self.line.cells().len() < usize::MAX
        &&& state_holds(self.line.cells(), self.number as int, self.from@, self.focus as int, self.state)
    }

    /// A scan for the starts of a run of `number` cells, from `start` on.
    pub fn new(line: &'a L, number: usize, start: usize) -> (r: Self)
        requires
            line.inv(),
            1 <= number,
            start <= line.cells().len() < usize::MAX,
        ensures
            r.inv(),
            r.line == line,
            r.number == number,
            r.focus == start,
            r.from@ == start,
    {
        Iter { line, number, focus: start, state: State::start(), from: Ghost(start as int) }
    }

    /// The next start: the least one whose run ends past the cells already
    /// scanned.
    pub fn next(&mut self) -> (r: Option<usize>)
        requires
            old(self).inv(),
        ensures
            final(self).inv(),
            final(self).line == old(self).line,
            final(self).number == old(self).number,
            final(self).from == old(self).from,
            r is None ==> final(self).focus == old(self).line.cells().len(),
            match r {
                Some(s) => {
                    &&& run_ok(old(self).line.cells(), old(self).number as int, old(self).from@, s as int)
                    &&& old(self).focus < s + old(self).number
                    &&& final(self).focus == s + old(self).number
                    &&& forall|t: int|
                        old(self).focus < t + old(self).number < s + old(self).number ==> !#[trigger] run_ok(
                            old(self).line.cells(),
                            old(self).number as int,
                            old(self).from@,
                            t,
                        )
                },
                None => forall|t: int|
                    old(self).focus < t + old(self).number ==> !#[trigger] run_ok(
                        old(self).line.cells(),
                        old(self).number as int,
                        old(self).from@,
                        t,
                    ),
            },
    {
        let ghost cells = self.line.cells();
        let ghost n = self.number as int;
        let ghost from = self.from@;
        let ghost f0 = self.focus as int;
        let len = self.line.len();
        let mut focus = self.focus;
        while focus < len
            invariant
                self.line == old(self).line,
                self.number == old(self).number,
                self.from == old(self).from,
                self.line.inv(),
                cells == self.line.cells(),
                n == self.number,
                from == self.from@,
                len == cells.len(),
                len < usize::MAX,
                1 <= n,
                f0 <= focus <= len,
                0 <= from <= f0,
                f0 == old(self).focus,
                state_holds(cells, n, from, focus as int, self.state),
                forall|t: int| f0 < t + n <= focus ==> !#[trigger] run_ok(cells, n, from, t),
            decreases len - focus,
        {
            let cell = self.line.get(focus);
            proof {
                match self.state {
                    State::Empty(e) => {
                        assert(e <= focus);
                    },
                    State::Filled(m, e) => {
                        assert(e <= focus);
                    },
                    State::End => {},
                }
            }
            let next = self.state.cell(cell);
            let state = match next {
                State::Filled(m, _) => {
                    if m > self.number {
                        State::End
                    } else {
                        next
                    }
                },
                _ => next,
            };
            proof {
                assert(state_holds(cells, n, from, focus + 1, state)) by {
                    match state {
                        State::End => {
                            assert forall|s: int| run_ok(cells, n, from, s) implies s + n < focus + 1 by {
                                if s + n >= focus + 1 {
                                    match self.state {
                                        State::Filled(m, e) => {
                                            let f = focus - m;
                                            assert(cells[f].has_fill());
                                            if cell == Cell::Crossed || cell == Cell::Impossible {
                                                assert(!cells[focus as int].has_cross());
                                            } else {
                                                assert(s > f);
                                            }
                                        },
                                        State::Empty(e) => {
                                            assert(cell == Cell::Impossible);
                                            if s <= focus {
                                                assert(!cells[focus as int].has_cross());
                                            } else {
                                                assert(!cells[focus as int].has_fill());
                                            }
                                        },
                                        State::End => {},
                                    }
                                }
                            }
                        },
                        _ => {},
                    }
                }
            }
            self.state = state;
            let emit = match state {
                State::Filled(_, e) => e >= self.number,
                State::Empty(e) => e >= self.number,
                _ => false,
            };
            let ghost s = focus + 1 - n;
            if emit && (focus + 1 >= len || !self.line.is_filled(focus + 1)) {
                self.focus = focus + 1;
                assert(run_ok(cells, n, from, s));
                assert(state_holds(cells, n, from, self.focus as int, self.state));
                assert forall|t: int| f0 < t + n < s + n implies !#[trigger] run_ok(cells, n, from, t) by {
                    assert(f0 < t + n <= focus);
                }
                let r = focus + 1 - self.number;
                return Some(r);
            }
            proof {
                if run_ok(cells, n, from, s) {
                    match state {
                        State::End => {},
                        State::Empty(e) => {
                            if e < n {
                                assert(cells[focus - e].has_cross() || focus - e == from);
                                if focus + 1 - e > from {
                                    assert(cells[focus - e].has_cross());
                                }
                            }
                        },
                        State::Filled(m, e) => {
                            if e < n {
                                if focus + 1 - e > from {
                                    assert(cells[focus - e].has_cross());
                                }
                            }
                        },
                    }
                }
            }
            focus = focus + 1;
        }
        self.focus = len;
        None
    }
}

/// Where the search for run `d` begins: one cell past the end of run `d - 1`.
pub open spec fn prev_end(clue: Seq<usize>, p: Seq<usize>, d: int) -> int {
    if d <= 0 {
        0
    } else {
        p[d - 1] + clue[d - 1] + 1
    }
}

/// The starts `p` place the first `p.len()` runs legally.
pub open spec fn prefix_ok(cells: Seq<Cell>, clue: Seq<usize>, p: Seq<usize>) -> bool {
    &&& p.len() <= clue.len()
    &&& forall|d: int|
        0 <= d < p.len() ==> #[trigger] run_ok(cells, clue[d] as int, prev_end(clue, p, d), p[d] as int)
}

/// The starts `p` place every run legally, with no filled cell after the last.
pub open spec fn placement_ok(cells: Seq<Cell>, clue: Seq<usize>, p: Seq<usize>) -> bool {
    &&& p.len() == clue.len()
    &&& prefix_ok(cells, clue, p)
    &&& forall|i: int| prev_end(clue, p, clue.len() as int) <= i < cells.len() ==> !#[trigger] cells[i].has_fill()
}

/// Run `d` of placement `p` covers cell `j`.
pub open spec fn covers_run(clue: Seq<usize>, p: Seq<usize>, d: int, j: int) -> bool {
    p[d] <= j < p[d] + clue[d]
}

/// Some run of placement `p` among the first `n` covers cell `j`.
pub open spec fn covers_upto(clue: Seq<usize>, p: Seq<usize>, n: int, j: int) -> bool {
    exists|d: int| 0 <= d < n && #[trigger] covers_run(clue, p, d, j)
}

/// Some run of placement `p` covers cell `j`.
pub open spec fn covers(clue: Seq<usize>, p: Seq<usize>, j: int) -> bool {
    covers_upto(clue, p, p.len() as int, j)
}

/// `p` begins with `q`.
pub open spec fn extends(p: Seq<usize>, q: Seq<usize>) -> bool {
    q.len() <= p.len() && p.subrange(0, q.len() as int) == q
}

/// Every legal placement that begins with `q` covers cell `j`.
pub open spec fn all_cover(cells: Seq<Cell>, clue: Seq<usize>, q: Seq<usize>, j: int) -> bool {
    forall|p: Seq<usize>| #[trigger] placement_ok(cells, clue, p) && extends(p, q) ==> covers(clue, p, j)
}

/// No legal placement that begins with `q` covers cell `j`.
pub open spec fn none_cover(cells: Seq<Cell>, clue: Seq<usize>, q: Seq<usize>, j: int) -> bool {
    forall|p: Seq<usize>| #[trigger] placement_ok(cells, clue, p) && extends(p, q) ==> !covers(clue, p, j)
}

/// Some legal placement that begins with `q` covers cell `j` with run `d`.
pub open spec fn some_cover(cells: Seq<Cell>, clue: Seq<usize>, q: Seq<usize>, d: int, j: int) -> bool {
    exists|p: Seq<usize>| #[trigger] placement_ok(cells, clue, p) && extends(p, q) && covers_run(clue, p, d, j)
}

/// Cell `j` and run `d` of a line of `n` cells, as one index into a `n * k` set.
proof fn lemma_flat_index(n: int, k: int)
    requires
        0 <= n,
        0 <= k,
    ensures
        forall|j: int, d: int, i: int, e: int|
            0 <= j < n && 0 <= d < k && 0 <= i < n && 0 <= e < k && (j != i || d != e) ==> #[trigger] (j
                * k + d) != #[trigger] (i * k + e),
        forall|j: int, d: int| 0 <= j < n && 0 <= d < k ==> 0 <= #[trigger] (j * k + d) < n * k,
{
    assert forall|j: int, d: int, i: int, e: int|
        0 <= j < n && 0 <= d < k && 0 <= i < n && 0 <= e < k && (j != i || d != e) implies #[trigger] (j
            * k + d) != #[trigger] (i * k + e) by {
        if j < i {
            assert(j * k + d < i * k + e) by (nonlinear_arith)
                requires
                    j < i,
                    0 <= d < k,
                    0 <= e,
            ;
        } else if j > i {
            assert(j * k + d > i * k + e) by (nonlinear_arith)
                requires
                    j > i,
                    0 <= e < k,
                    0 <= d,
            ;
        }
    }
    assert forall|j: int, d: int| 0 <= j < n && 0 <= d < k implies 0 <= #[trigger] (j * k + d) < n * k by {
        assert(0 <= j * k + d < n * k) by (nonlinear_arith)
            requires
                0 <= j < n,
                0 <= d < k,
        ;
    }
}

/// What every legal placement enumerated so far agrees on.
pub struct Possibilities {
    /// Cells that every placement fills.
    pub filled: FixedBitSet,
    /// Cells that no placement fills.
    pub crossed: FixedBitSet,
    /// For cell `j` and run `d`, bit `j * k + d`: some placement covers `j` with `d`.
    pub cell_numbers: FixedBitSet,
}

impl Possibilities {
    /// The sets are sized for a line of `n` cells and a clue of `k` runs.
    pub open spec fn wf(&self, n: nat, k: nat) -> bool {
        &&& bits_of(self.filled).len() == n
        &&& bits_of(self.crossed).len() == n
        &&& bits_of(self.cell_numbers).len() == n * k
        &&& n * k <= usize::MAX
    }

    /// Nothing enumerated yet: every cell is filled and crossed by every
    /// placement so far, and covered by none.
    pub fn new(line_len: usize, clue_len: usize) -> (r: Possibilities)
        requires
            line_len * clue_len <= usize::MAX,
        ensures
            r.wf(line_len as nat, clue_len as nat),
            forall|j: int| 0 <= j < line_len ==> bit(r.filled, j) && bit(r.crossed, j),
            forall|i: int| 0 <= i ==> !bit(r.cell_numbers, i),
    {
        let cell_numbers = bitset_with_capacity(line_len * clue_len);
        let mut filled = bitset_with_capacity(line_len);
        let mut crossed = bitset_with_capacity(line_len);
        bitset_set_range(&mut filled, 0, line_len, true);
        bitset_set_range(&mut crossed, 0, line_len, true);
        Possibilities { filled, crossed, cell_numbers }
    }

    /// Records one placement: its runs' cells are no longer crossed in every
    /// placement, the others no longer filled in every placement.
    fn positions(&mut self, positions: &Vec<usize>, clue: &[usize], Ghost(cells): Ghost<Seq<Cell>>)
        requires
            old(self).wf(cells.len(), clue@.len()),
            placement_ok(cells, clue@, positions@),
        ensures
            final(self).wf(cells.len(), clue@.len()),
            forall|j: int|
                0 <= j < cells.len() ==> bit(final(self).filled, j) == (bit(old(self).filled, j) && covers(
                    clue@,
                    positions@,
                    j,
                )),
            forall|j: int|
                0 <= j < cells.len() ==> bit(final(self).crossed, j) == (bit(old(self).crossed, j)
                    && !covers(clue@, positions@, j)),
            forall|j: int, d: int|
                0 <= j < cells.len() && 0 <= d < clue@.len() ==> bit(
                    final(self).cell_numbers,
                    #[trigger] (j * clue@.len() + d),
                ) == (bit(old(self).cell_numbers, j * clue@.len() + d) || covers_run(
                    clue@,
                    positions@,
                    d,
                    j,
                )),
    {
        let ghost q = positions@;
        let ghost n = cells.len() as int;
        let ghost k = clue@.len() as int;
        let ghost f0 = self.filled;
        let ghost c0 = self.crossed;
        let ghost cn0 = self.cell_numbers;
        proof {
            lemma_flat_index(n, k);
        }
        let line_len = bitset_len(&self.filled);
        let mut old_end: usize = 0;
        let mut d: usize = 0;
        while d < clue.len()
            invariant
                self.wf(n as nat, k as nat),
                n == cells.len(),
                line_len == n,
                k == clue@.len(),
                q == positions@,
                placement_ok(cells, clue@, q),
                d <= k,
                d == 0 ==> old_end == 0,
                d > 0 ==> old_end == q[d - 1] + clue@[d - 1],
                old_end <= n,
                forall|j: int| old_end <= j ==> !covers_upto(clue@, q, d as int, j),
                forall|j: int|
                    0 <= j < n ==> bit(self.filled, j) == (bit(f0, j) && (j >= old_end || covers_upto(
                        clue@,
                        q,
                        d as int,
                        j,
                    ))),
                forall|j: int|
                    0 <= j < n ==> bit(self.crossed, j) == (bit(c0, j) && !covers_upto(clue@, q, d as int, j)),
                forall|j: int, e: int|
                    0 <= j < n && 0 <= e < k ==> bit(self.cell_numbers, #[trigger] (j * k + e)) == (bit(
                        cn0,
                        j * k + e,
                    ) || (e < d && covers_run(clue@, q, e, j))),
            decreases k - d,
        {
            let start = positions[d];
            let number = clue[d];
            proof {
                assert(run_ok(cells, clue@[d as int] as int, prev_end(clue@, q, d as int), q[d as int] as int));
            }
            bitset_set_range(&mut self.filled, old_end, start, false);
            let ghost crossed0 = self.crossed;
            bitset_set_range(&mut self.crossed, start, start + number, false);
            let ghost crossed1 = self.crossed;
            assert forall|i: int| 0 <= i < n implies #[trigger] bit(crossed1, i) == (bit(c0, i) && !covers_upto(clue@, q, d as int, i)
                && !covers_run(clue@, q, d as int, i)) by {
                assert(bit(crossed0, i) == (bit(c0, i) && !covers_upto(clue@, q, d as int, i)));
                assert(covers_run(clue@, q, d as int, i) == (start <= i < start + number));
            }
            mark_numbers(&mut self.cell_numbers, start, number, d, clue.len(), Ghost(n));
            assert(self.crossed == crossed1);
            proof {
                assert forall|i: int|
                    0 <= i < n implies bit(self.filled, i) == (bit(f0, i) && (i >= start || covers_upto(
                        clue@,
                        q,
                        d as int,
                        i,
                    ))) by {
                    if old_end <= i < start {
                        assert(!covers_upto(clue@, q, d as int, i));
                    }
                }
            }
            let ghost filled1 = self.filled;
            let ghost d0 = d as int;
            old_end = start + number;
            d = d + 1;
            proof {
                let dd = d as int;
                assert forall|i: int|
                    #[trigger] covers_upto(clue@, q, dd, i) == (covers_upto(clue@, q, d0, i)
                        || covers_run(clue@, q, d0, i)) by {
                    if covers_run(clue@, q, d0, i) {
                        assert(covers_upto(clue@, q, dd, i));
                    }
                    if covers_upto(clue@, q, dd, i) && !covers_upto(clue@, q, d0, i) {
                        let e = choose|e: int| 0 <= e < dd && #[trigger] covers_run(clue@, q, e, i);
                        assert(e == d0);
                    }
                }
                assert forall|i: int| old_end <= i implies !#[trigger] covers_upto(clue@, q, dd, i) by {
                    assert(!covers_upto(clue@, q, d0, i));
                }
                assert forall|i: int|
                    0 <= i < n implies bit(self.filled, i) == (bit(f0, i) && (i >= old_end || #[trigger] covers_upto(
                        clue@,
                        q,
                        dd,
                        i,
                    ))) by {
                    assert(covers_upto(clue@, q, dd, i) == (covers_upto(clue@, q, d0, i) || covers_run(clue@, q, d0, i)));
                    assert(bit(filled1, i) == (bit(f0, i) && (i >= start || covers_upto(clue@, q, d0, i))));
                    assert(covers_run(clue@, q, d0, i) == (start <= i < start + number));
                }
                assert forall|i: int|
                    0 <= i < n implies bit(self.crossed, i) == (bit(c0, i) && !#[trigger] covers_upto(clue@, q, dd, i)) by {
                    assert(covers_upto(clue@, q, dd, i) == (covers_upto(clue@, q, d0, i) || covers_run(clue@, q, d0, i)));
                    assert(bit(crossed1, i) == (bit(c0, i) && !covers_upto(clue@, q, d0, i) && !covers_run(clue@, q, d0, i)));
                }
            }
        }
        proof {
            assert forall|i: int|
                0 <= i < n implies bit(self.crossed, i) == (bit(c0, i) && !#[trigger] covers(clue@, q, i)) by {
                assert(bit(self.crossed, i) == (bit(c0, i) && !covers_upto(clue@, q, d as int, i)));
            }
        }
        let ghost filled2 = self.filled;
        bitset_set_range(&mut self.filled, old_end, line_len, false);
        proof {
            assert forall|i: int|
                0 <= i < n implies bit(self.filled, i) == (bit(f0, i) && #[trigger] covers(clue@, q, i)) by {
                assert(bit(filled2, i) == (bit(f0, i) && (i >= old_end || covers_upto(clue@, q, d as int, i))));
                if old_end <= i {
                    assert(!covers_upto(clue@, q, d as int, i));
                }
            }
        }
    }
}

/// Every legal placement that begins with `q`, whose next run ends by `b`,
/// covers cell `j`.
pub open spec fn all_cover_below(cells: Seq<Cell>, clue: Seq<usize>, q: Seq<usize>, j: int, b: int) -> bool {
    forall|p: Seq<usize>|
        #[trigger] placement_ok(cells, clue, p) && extends(p, q) && p[q.len() as int] + clue[q.len() as int] <= b
            ==> covers(clue, p, j)
}

/// No legal placement that begins with `q`, whose next run ends by `b`,
/// covers cell `j`.
pub open spec fn none_cover_below(cells: Seq<Cell>, clue: Seq<usize>, q: Seq<usize>, j: int, b: int) -> bool {
    forall|p: Seq<usize>|
        #[trigger] placement_ok(cells, clue, p) && extends(p, q) && p[q.len() as int] + clue[q.len() as int] <= b
            ==> !covers(clue, p, j)
}

/// Some legal placement that begins with `q`, whose next run ends by `b`,
/// covers cell `j` with run `d`.
pub open spec fn some_cover_below(
    cells: Seq<Cell>,
    clue: Seq<usize>,
    q: Seq<usize>,
    d: int,
    j: int,
    b: int,
) -> bool {
    exists|p: Seq<usize>|
        #[trigger] placement_ok(cells, clue, p) && extends(p, q) && p[q.len() as int] + clue[q.len() as int] <= b
            && covers_run(clue, p, d, j)
}

/// A legal placement that begins with `q` places its next run where a search
/// from the end of `q` may place it.
proof fn lemma_next_run_ok(cells: Seq<Cell>, clue: Seq<usize>, q: Seq<usize>, p: Seq<usize>)
    requires
        placement_ok(cells, clue, p),
        extends(p, q),
        q.len() < clue.len(),
    ensures
        run_ok(cells, clue[q.len() as int] as int, prev_end(clue, q, q.len() as int), p[q.len() as int] as int),
{
    let dd = q.len() as int;
    assert(run_ok(cells, clue[dd] as int, prev_end(clue, p, dd), p[dd] as int));
    if dd > 0 {
        assert(p.subrange(0, dd)[dd - 1] == p[dd - 1]);
    }
}

/// `p` begins with `q` and then `s` exactly when it begins with `q` and its
/// next start is `s`.
proof fn lemma_extends_push(p: Seq<usize>, q: Seq<usize>, s: usize)
    requires
        q.len() < p.len(),
    ensures
        extends(p, q.push(s)) == (extends(p, q) && p[q.len() as int] == s),
{
    let dd = q.len() as int;
    if extends(p, q.push(s)) {
        assert(p.subrange(0, dd) =~= p.subrange(0, dd + 1).subrange(0, dd));
        assert(q.push(s).subrange(0, dd) =~= q);
        assert(p.subrange(0, dd + 1)[dd] == p[dd]);
    }
    if extends(p, q) && p[dd] == s {
        assert(p.subrange(0, dd + 1) =~= q.push(s));
    }
}

/// The placements found from one start of the next run, joined to those whose
/// next run ends earlier, are those whose next run ends by that start's end.
proof fn lemma_cover_step(cells: Seq<Cell>, clue: Seq<usize>, q: Seq<usize>, s: usize, b0: int, j: int, d: int)
    requires
        q.len() < clue.len(),
        clue[q.len() as int] >= 1,
        b0 < s + clue[q.len() as int],
        forall|t: int|
            b0 < t + clue[q.len() as int] < s + clue[q.len() as int] ==> !#[trigger] run_ok(
                cells,
                clue[q.len() as int] as int,
                prev_end(clue, q, q.len() as int),
                t,
            ),
    ensures
        all_cover_below(cells, clue, q, j, s + clue[q.len() as int]) == (all_cover_below(cells, clue, q, j, b0)
            && all_cover(cells, clue, q.push(s), j)),
        none_cover_below(cells, clue, q, j, s + clue[q.len() as int]) == (none_cover_below(cells, clue, q, j, b0)
            && none_cover(cells, clue, q.push(s), j)),
        some_cover_below(cells, clue, q, d, j, s + clue[q.len() as int]) == (some_cover_below(cells, clue, q, d, j, b0)
            || some_cover(cells, clue, q.push(s), d, j)),
{
    let dd = q.len() as int;
    let c = clue[dd] as int;
    let b1 = s + c;
    assert forall|p: Seq<usize>| #[trigger] placement_ok(cells, clue, p) && extends(p, q) implies (p[dd] + c <= b1
        <==> (p[dd] + c <= b0 || extends(p, q.push(s)))) by {
        lemma_extends_push(p, q, s);
        lemma_next_run_ok(cells, clue, q, p);
    }
    assert forall|p: Seq<usize>| #[trigger] placement_ok(cells, clue, p) && extends(p, q.push(s)) implies extends(p, q) && p[dd] == s by {
        lemma_extends_push(p, q, s);
    }
    if some_cover(cells, clue, q.push(s), d, j) {
        let p = choose|p: Seq<usize>| #[trigger] placement_ok(cells, clue, p) && extends(p, q.push(s)) && covers_run(clue, p, d, j);
        assert(extends(p, q) && p[dd] == s);
        assert(some_cover_below(cells, clue, q, d, j, b1));
    }
    if some_cover_below(cells, clue, q, d, j, b0) {
        let p = choose|p: Seq<usize>| #[trigger] placement_ok(cells, clue, p) && extends(p, q) && p[dd] + c <= b0 && covers_run(clue, p, d, j);
        assert(some_cover_below(cells, clue, q, d, j, b1));
    }
    if some_cover_below(cells, clue, q, d, j, b1) {
        let p = choose|p: Seq<usize>| #[trigger] placement_ok(cells, clue, p) && extends(p, q) && p[dd] + c <= b1 && covers_run(clue, p, d, j);
        if p[dd] + c > b0 {
            lemma_extends_push(p, q, s);
            assert(some_cover(cells, clue, q.push(s), d, j));
        } else {
            assert(some_cover_below(cells, clue, q, d, j, b0));
        }
    }
}

/// Once no further start of the next run is legal past `b`, the placements
/// whose next run ends by `b` are all of them.
proof fn lemma_cover_done(cells: Seq<Cell>, clue: Seq<usize>, q: Seq<usize>, b: int, j: int, d: int)
    requires
        q.len() < clue.len(),
        forall|t: int|
            b < t + clue[q.len() as int] ==> !#[trigger] run_ok(
                cells,
                clue[q.len() as int] as int,
                prev_end(clue, q, q.len() as int),
                t,
            ),
    ensures
        all_cover_below(cells, clue, q, j, b) == all_cover(cells, clue, q, j),
        none_cover_below(cells, clue, q, j, b) == none_cover(cells, clue, q, j),
        some_cover_below(cells, clue, q, d, j, b) == some_cover(cells, clue, q, d, j),
{
    let dd = q.len() as int;
    assert forall|p: Seq<usize>| #[trigger] placement_ok(cells, clue, p) && extends(p, q) implies p[dd] + clue[dd] <= b by {
        lemma_next_run_ok(cells, clue, q, p);
    }
    if some_cover(cells, clue, q, d, j) {
        let p = choose|p: Seq<usize>| #[trigger] placement_ok(cells, clue, p) && extends(p, q) && covers_run(clue, p, d, j);
        assert(some_cover_below(cells, clue, q, d, j, b));
    }
}

/// Before any start of the next run is tried, no placement counts.
proof fn lemma_cover_none(cells: Seq<Cell>, clue: Seq<usize>, q: Seq<usize>, b: int, j: int, d: int)
    requires
        q.len() < clue.len(),
        clue[q.len() as int] >= 1,
        b <= prev_end(clue, q, q.len() as int),
    ensures
        all_cover_below(cells, clue, q, j, b),
        none_cover_below(cells, clue, q, j, b),
        !some_cover_below(cells, clue, q, d, j, b),
{
    let dd = q.len() as int;
    assert forall|p: Seq<usize>| #[trigger] placement_ok(cells, clue, p) && extends(p, q) implies p[dd] + clue[dd] > b by {
        lemma_next_run_ok(cells, clue, q, p);
    }
}

/// With every run placed, the one legal placement that begins with `q`, if
/// any, is `q` itself.
proof fn lemma_cover_full(cells: Seq<Cell>, clue: Seq<usize>, q: Seq<usize>, j: int, d: int)
    requires
        q.len() == clue.len(),
        prefix_ok(cells, clue, q),
    ensures
        all_cover(cells, clue, q, j) == (placement_ok(cells, clue, q) ==> covers(clue, q, j)),
        none_cover(cells, clue, q, j) == (placement_ok(cells, clue, q) ==> !covers(clue, q, j)),
        some_cover(cells, clue, q, d, j) == (placement_ok(cells, clue, q) && covers_run(clue, q, d, j)),
{
    assert forall|p: Seq<usize>| #[trigger] placement_ok(cells, clue, p) && extends(p, q) implies p == q by {
        assert(p.subrange(0, q.len() as int) =~= p);
    }
    if placement_ok(cells, clue, q) {
        assert(extends(q, q)) by {
            assert(q.subrange(0, q.len() as int) =~= q);
        }
    }
}

impl Possibilities {
    /// Records every legal placement that begins with `positions`: the search
    /// for run `depth` begins at `start`, one past the end of the last run
    /// placed.
    pub fn solve<L: Line>(
        &mut self,
        line: &L,
        clue: &[usize],
        depth: usize,
        start: usize,
        positions: &mut Vec<usize>,
    )
        requires
            line.inv(),
            line.cells().len() < usize::MAX,
            old(self).wf(line.cells().len(), clue@.len()),
            forall|d: int| 0 <= d < clue@.len() ==> clue@[d] >= 1,
            old(positions)@.len() == depth,
            depth <= clue@.len(),
            prefix_ok(line.cells(), clue@, old(positions)@),
            start == prev_end(clue@, old(positions)@, depth as int),
        ensures
            final(positions)@ == old(positions)@,
            final(self).wf(line.cells().len(), clue@.len()),
            forall|j: int|
                0 <= j < line.cells().len() ==> bit(final(self).filled, j) == (bit(old(self).filled, j)
                    && all_cover(line.cells(), clue@, old(positions)@, j)),
            forall|j: int|
                0 <= j < line.cells().len() ==> bit(final(self).crossed, j) == (bit(old(self).crossed, j)
                    && none_cover(line.cells(), clue@, old(positions)@, j)),
            forall|j: int, d: int|
                0 <= j < line.cells().len() && 0 <= d < clue@.len() ==> bit(
                    final(self).cell_numbers,
                    #[trigger] (j * clue@.len() + d),
                ) == (bit(old(self).cell_numbers, j * clue@.len() + d) || some_cover(
                    line.cells(),
                    clue@,
                    old(positions)@,
                    d,
                    j,
                )),
        decreases clue@.len() - depth,
    {
        let ghost cells = line.cells();
        let ghost q = positions@;
        let ghost n = cells.len() as int;
        let ghost k = clue@.len() as int;
        let len = line.len();
        if depth < clue.len() {
            let number = clue[depth];
            if start > len {
                proof {
                    assert forall|t: int| 0 < t + clue@[depth as int] implies !#[trigger] run_ok(
                        cells,
                        clue@[depth as int] as int,
                        prev_end(clue@, q, depth as int),
                        t,
                    ) by {}
                    assert forall|j: int| #[trigger] all_cover(cells, clue@, q, j) by {
                        lemma_cover_done(cells, clue@, q, 0, j, 0);
                        lemma_cover_none(cells, clue@, q, 0, j, 0);
                    }
                    assert forall|j: int| #[trigger] none_cover(cells, clue@, q, j) by {
                        lemma_cover_done(cells, clue@, q, 0, j, 0);
                        lemma_cover_none(cells, clue@, q, 0, j, 0);
                    }
                    assert forall|j: int, d: int| !#[trigger] some_cover(cells, clue@, q, d, j) by {
                        lemma_cover_done(cells, clue@, q, 0, j, d);
                        lemma_cover_none(cells, clue@, q, 0, j, d);
                    }
                }
                return;
            }
            let ghost f0 = self.filled;
            let ghost c0 = self.crossed;
            let ghost cn0 = self.cell_numbers;
            let mut iter = Iter::new(line, number, start);
            proof {
                assert forall|j: int| #[trigger] all_cover_below(cells, clue@, q, j, start as int) by {
                    lemma_cover_none(cells, clue@, q, start as int, j, 0);
                }
                assert forall|j: int| #[trigger] none_cover_below(cells, clue@, q, j, start as int) by {
                    lemma_cover_none(cells, clue@, q, start as int, j, 0);
                }
                assert forall|j: int, d: int| !#[trigger] some_cover_below(cells, clue@, q, d, j, start as int) by {
                    lemma_cover_none(cells, clue@, q, start as int, j, d);
                }
            }
            loop
                invariant
                    iter.inv(),
                    iter.line == line,
                    iter.number == number,
                    iter.from@ == start,
                    start <= iter.focus,
                    cells == line.cells(),
                    n == cells.len(),
                    k == clue@.len(),
                    depth < k,
                    depth < clue.len(),
                    number == clue@[depth as int],
                    n < usize::MAX,
                    forall|d: int| 0 <= d < clue@.len() ==> clue@[d] >= 1,
                    positions@ == q,
                    q.len() == depth,
                    prefix_ok(cells, clue@, q),
                    start == prev_end(clue@, q, depth as int),
                    self.wf(n as nat, k as nat),
                    forall|j: int|
                        0 <= j < n ==> bit(self.filled, j) == (bit(f0, j) && all_cover_below(
                            cells,
                            clue@,
                            q,
                            j,
                            iter.focus as int,
                        )),
                    forall|j: int|
                        0 <= j < n ==> bit(self.crossed, j) == (bit(c0, j) && none_cover_below(
                            cells,
                            clue@,
                            q,
                            j,
                            iter.focus as int,
                        )),
                    forall|j: int, d: int|
                        0 <= j < n && 0 <= d < k ==> bit(self.cell_numbers, #[trigger] (j * k + d)) == (bit(
                            cn0,
                            j * k + d,
                        ) || some_cover_below(cells, clue@, q, d, j, iter.focus as int)),
                ensures
                    positions@ == q,
                    self.wf(n as nat, k as nat),
                    forall|j: int|
                        0 <= j < n ==> bit(self.filled, j) == (bit(f0, j) && all_cover(cells, clue@, q, j)),
                    forall|j: int|
                        0 <= j < n ==> bit(self.crossed, j) == (bit(c0, j) && none_cover(cells, clue@, q, j)),
                    forall|j: int, d: int|
                        0 <= j < n && 0 <= d < k ==> bit(self.cell_numbers, #[trigger] (j * k + d)) == (bit(
                            cn0,
                            j * k + d,
                        ) || some_cover(cells, clue@, q, d, j)),
                decreases n + 1 - iter.focus,
            {
                let ghost b0 = iter.focus as int;
                let ghost filled0 = self.filled;
                let ghost crossed0 = self.crossed;
                let ghost numbers0 = self.cell_numbers;
                match iter.next() {
                    Some(s) => {
                        proof {
                            assert(run_ok(cells, number as int, start as int, s as int));
                            assert(prefix_ok(cells, clue@, q.push(s))) by {
                                assert forall|d: int| 0 <= d < q.len() + 1 implies #[trigger] run_ok(
                                    cells,
                                    clue@[d] as int,
                                    prev_end(clue@, q.push(s), d),
                                    q.push(s)[d] as int,
                                ) by {
                                    if d < q.len() {
                                        assert(run_ok(cells, clue@[d] as int, prev_end(clue@, q, d), q[d] as int));
                                        assert(prev_end(clue@, q.push(s), d) == prev_end(clue@, q, d));
                                    }
                                }
                            }
                        }
                        positions.push(s);
                        self.solve(line, clue, depth + 1, s + number + 1, positions);
                        let _ = positions.pop();
                        proof {
                            assert(positions@ =~= q);
                            assert forall|j: int| 0 <= j < n implies bit(self.filled, j) == (bit(f0, j)
                                && #[trigger] all_cover_below(cells, clue@, q, j, iter.focus as int)) by {
                                lemma_cover_step(cells, clue@, q, s, b0, j, 0);
                                assert(bit(filled0, j) == (bit(f0, j) && all_cover_below(cells, clue@, q, j, b0)));
                            }
                            assert forall|j: int| 0 <= j < n implies bit(self.crossed, j) == (bit(c0, j)
                                && #[trigger] none_cover_below(cells, clue@, q, j, iter.focus as int)) by {
                                lemma_cover_step(cells, clue@, q, s, b0, j, 0);
                                assert(bit(crossed0, j) == (bit(c0, j) && none_cover_below(cells, clue@, q, j, b0)));
                            }
                            assert forall|j: int, d: int| 0 <= j < n && 0 <= d < k implies bit(
                                self.cell_numbers,
                                #[trigger] (j * k + d),
                            ) == (bit(cn0, j * k + d) || some_cover_below(cells, clue@, q, d, j, iter.focus as int)) by {
                                lemma_cover_step(cells, clue@, q, s, b0, j, d);
                                assert(bit(numbers0, j * k + d) == (bit(cn0, j * k + d) || some_cover_below(
                                    cells,
                                    clue@,
                                    q,
                                    d,
                                    j,
                                    b0,
                                )));
                            }
                        }
                    },
                    None => {
                        proof {
                            let b1 = iter.focus as int;
                            assert forall|t: int| b1 < t + number implies !#[trigger] run_ok(
                                cells,
                                clue@[depth as int] as int,
                                prev_end(clue@, q, depth as int),
                                t,
                            ) by {}
                            assert forall|j: int| 0 <= j < n implies bit(self.filled, j) == (bit(f0, j)
                                && #[trigger] all_cover(cells, clue@, q, j)) by {
                                lemma_cover_done(cells, clue@, q, b0, j, 0);
                                assert(bit(filled0, j) == (bit(f0, j) && all_cover_below(cells, clue@, q, j, b0)));
                            }
                            assert forall|j: int| 0 <= j < n implies bit(self.crossed, j) == (bit(c0, j)
                                && #[trigger] none_cover(cells, clue@, q, j)) by {
                                lemma_cover_done(cells, clue@, q, b0, j, 0);
                                assert(bit(crossed0, j) == (bit(c0, j) && none_cover_below(cells, clue@, q, j, b0)));
                            }
                            assert forall|j: int, d: int| 0 <= j < n && 0 <= d < k implies bit(
                                self.cell_numbers,
                                #[trigger] (j * k + d),
                            ) == (bit(cn0, j * k + d) || some_cover(cells, clue@, q, d, j)) by {
                                lemma_cover_done(cells, clue@, q, b0, j, d);
                                assert(bit(numbers0, j * k + d) == (bit(cn0, j * k + d) || some_cover_below(
                                    cells,
                                    clue@,
                                    q,
                                    d,
                                    j,
                                    b0,
                                )));
                            }
                            assert forall|j: int| 0 <= j < n implies bit(self.filled, j) == (bit(f0, j)
                                && #[trigger] all_cover_below(cells, clue@, q, j, b1)) by {
                                lemma_cover_done(cells, clue@, q, b1, j, 0);
                            }
                            assert forall|j: int| 0 <= j < n implies bit(self.crossed, j) == (bit(c0, j)
                                && #[trigger] none_cover_below(cells, clue@, q, j, b1)) by {
                                lemma_cover_done(cells, clue@, q, b1, j, 0);
                            }
                            assert forall|j: int, d: int| 0 <= j < n && 0 <= d < k implies bit(
                                self.cell_numbers,
                                #[trigger] (j * k + d),
                            ) == (bit(cn0, j * k + d) || some_cover_below(cells, clue@, q, d, j, b1)) by {
                                lemma_cover_done(cells, clue@, q, b1, j, d);
                            }
                        }
                        break;
                    },
                }
            }
        } else {
            proof {
                assert forall|j: int| #[trigger] all_cover(cells, clue@, q, j) == (placement_ok(cells, clue@, q)
                    ==> covers(clue@, q, j)) by {
                    lemma_cover_full(cells, clue@, q, j, 0);
                }
                assert forall|j: int| #[trigger] none_cover(cells, clue@, q, j) == (placement_ok(cells, clue@, q)
                    ==> !covers(clue@, q, j)) by {
                    lemma_cover_full(cells, clue@, q, j, 0);
                }
                assert forall|j: int, d: int| #[trigger] some_cover(cells, clue@, q, d, j) == (placement_ok(
                    cells,
                    clue@,
                    q,
                ) && covers_run(clue@, q, d, j)) by {
                    lemma_cover_full(cells, clue@, q, j, d);
                }
            }
            let end = if start < len {
                start
            } else {
                len
            };
            if !line.range_contains_filled(end..len) {
                assert(placement_ok(cells, clue@, q));
                self.positions(positions, clue, Ghost(cells));
            } else {
                assert(!placement_ok(cells, clue@, q));
            }
        }
    }
}

/// Sets, for each cell in `start..start + number`, the bit of run `d`.
fn mark_numbers(numbers: &mut FixedBitSet, start: usize, number: usize, d: usize, k: usize, Ghost(n): Ghost<int>)
    requires
        n <= usize::MAX,
        bits_of(*old(numbers)).len() == n * k,
        n * k <= usize::MAX,
        start + number <= n,
        d < k,
    ensures
        bits_of(*final(numbers)).len() == n * k,
        forall|i: int, e: int|
            0 <= i < n && 0 <= e < k ==> bit(*final(numbers), #[trigger] (i * k + e)) == (bit(
                *old(numbers),
                i * k + e,
            ) || (e == d && start <= i < start + number)),
{
    proof {
        lemma_flat_index(n, k as int);
    }
    let mut j = start;
    while j < start + number
        invariant
            bits_of(*numbers).len() == n * k,
            n * k <= usize::MAX,
            n <= usize::MAX,
            start + number <= n,
            d < k,
            start <= j <= start + number,
            forall|i: int, e: int|
                0 <= i < n && 0 <= e < k && (i != j || d != e) ==> #[trigger] (i * k + e) != j * k + d,
            forall|i: int, e: int|
                0 <= i < n && 0 <= e < k ==> bit(*numbers, #[trigger] (i * k + e)) == (bit(
                    *old(numbers),
                    i * k + e,
                ) || (e == d && start <= i < j)),
        decreases start + number - j,
    {
        proof {
            lemma_flat_index(n, k as int);
            assert(0 <= j * k + d < n * k);
        }
        bitset_put(numbers, j * k + d);
        j = j + 1;
    }
}

/// Every legal placement of the clue covers cell `j`.
pub open spec fn must_fill(cells: Seq<Cell>, clue: Seq<usize>, j: int) -> bool {
    forall|p: Seq<usize>| #[trigger] placement_ok(cells, clue, p) ==> covers(clue, p, j)
}

/// No legal placement of the clue covers cell `j`.
pub open spec fn must_cross(cells: Seq<Cell>, clue: Seq<usize>, j: int) -> bool {
    forall|p: Seq<usize>| #[trigger] placement_ok(cells, clue, p) ==> !covers(clue, p, j)
}

/// Some legal placement of the clue covers cell `j` with run `d`.
pub open spec fn may_cover(cells: Seq<Cell>, clue: Seq<usize>, d: int, j: int) -> bool {
    exists|p: Seq<usize>| #[trigger] placement_ok(cells, clue, p) && covers_run(clue, p, d, j)
}

/// The clue can be enumerated on a line of `len` cells.
pub open spec fn enumerable(clue: Seq<usize>, len: nat) -> bool {
    &&& len < usize::MAX
    &&& len * clue.len() <= usize::MAX
    &&& forall|d: int| 0 <= d < clue.len() ==> clue[d] >= 1
}

impl Possibilities {
    /// Enumerates every legal placement of the clue on the line: a cell is
    /// set in `filled` exactly when every placement covers it (the
    /// intersection of the placements), and set in `crossed` exactly when no
    /// placement covers it (the complement of their union).
    pub fn enumerate<L: Line>(line: &L, clue: &[usize]) -> (r: Possibilities)
        requires
            line.inv(),
            enumerable(clue@, line.cells().len()),
        ensures
            r.wf(line.cells().len(), clue@.len()),
            forall|j: int|
                0 <= j < line.cells().len() ==> bit(r.filled, j) == must_fill(line.cells(), clue@, j),
            forall|j: int|
                0 <= j < line.cells().len() ==> bit(r.crossed, j) == must_cross(line.cells(), clue@, j),
            forall|j: int, d: int|
                0 <= j < line.cells().len() && 0 <= d < clue@.len() ==> bit(
                    r.cell_numbers,
                    #[trigger] (j * clue@.len() + d),
                ) == may_cover(line.cells(), clue@, d, j),
    {
        let ghost cells = line.cells();
        let ghost k = clue@.len() as int;
        let mut possibilities = Possibilities::new(line.len(), clue.len());
        let ghost initial = possibilities;
        let mut positions: Vec<usize> = Vec::new();
        proof {
            lemma_flat_index(cells.len() as int, k);
            assert(prefix_ok(cells, clue@, positions@));
        }
        possibilities.solve(line, clue, 0, 0, &mut positions);
        proof {
            let q = Seq::<usize>::empty();
            assert(positions@ =~= q);
            assert forall|p: Seq<usize>| #[trigger] placement_ok(cells, clue@, p) implies extends(p, q) by {
                assert(p.subrange(0, 0) =~= q);
            }
            assert forall|j: int| #[trigger] all_cover(cells, clue@, q, j) == must_fill(cells, clue@, j) by {}
            assert forall|j: int| #[trigger] none_cover(cells, clue@, q, j) == must_cross(cells, clue@, j) by {}
            assert forall|j: int, d: int| #[trigger] some_cover(cells, clue@, q, d, j) == may_cover(cells, clue@, d, j) by {
                if may_cover(cells, clue@, d, j) {
                    let p = choose|p: Seq<usize>| #[trigger] placement_ok(cells, clue@, p) && covers_run(clue@, p, d, j);
                    assert(extends(p, q));
                }
            }
            assert forall|j: int, d: int| 0 <= j < cells.len() && 0 <= d < k implies !bit(
                initial.cell_numbers,
                #[trigger] (j * k + d),
            ) by {}
        }
        possibilities
    }
}

/// A discrete-range hint as plain values: its kind, its cells, and for a
/// filled run the set of run numbers as one flag per run.
pub enum HintShape {
    Crossed(int, int),
    Filled(int, int, Seq<bool>),
}

/// The shape of a hint.
pub open spec fn shape(h: DiscreteRangeHint) -> HintShape {
    match h {
        DiscreteRangeHint::CrossedRun(c) => HintShape::Crossed(c.start as int, c.end as int),
        DiscreteRangeHint::FilledRun(f) => HintShape::Filled(
            f.start as int,
            f.end as int,
            bits_of(f.numbers),
        ),
    }
}

/// The shapes of a list of hints.
pub open spec fn shapes(hints: Seq<DiscreteRangeHint>) -> Seq<HintShape> {
    Seq::new(hints.len(), |x: int| shape(hints[x]))
}

/// The first index from `i` on that is not marked.
pub open spec fn run_end(m: Seq<bool>, i: int) -> int
    decreases m.len() - i,
{
    if i >= m.len() || i < 0 || !m[i] {
        i
    } else {
        run_end(m, i + 1)
    }
}

proof fn lemma_run_end(m: Seq<bool>, i: int)
    requires
        0 <= i,
    ensures
        run_end(m, i) >= i,
        i < m.len() && m[i] ==> run_end(m, i) > i,
        i <= m.len() ==> run_end(m, i) <= m.len(),
        forall|j: int| i <= j < run_end(m, i) ==> 0 <= j < m.len() && #[trigger] m[j],
        run_end(m, i) >= m.len() || !m[run_end(m, i)],
    decreases m.len() - i,
{
    if i < m.len() && m[i] {
        lemma_run_end(m, i + 1);
    }
}

/// The hints read off the masks from cell `i` on: each maximal run of cells
/// that every placement fills, and each maximal run of cells that no
/// placement fills, where the hint would change the line.
pub open spec fn scan(
    mf: Seq<bool>,
    mc: Seq<bool>,
    nums: Seq<Seq<bool>>,
    cells: Seq<Cell>,
    i: int,
) -> Seq<HintShape>
    decreases mf.len() - i,
    via scan_decreases
{
    if i >= mf.len() || i < 0 {
        Seq::empty()
    } else if mf[i] {
        let e = run_end(mf, i);
        (if any_unfilled(cells, i, e) {
            seq![HintShape::Filled(i, e, nums[i])]
        } else {
            Seq::empty()
        }) + scan(mf, mc, nums, cells, e)
    } else if mc.len() == mf.len() && mc[i] {
        let e = run_end(mc, i);
        (if any_uncrossed(cells, i, e) {
            seq![HintShape::Crossed(i, e)]
        } else {
            Seq::empty()
        }) + scan(mf, mc, nums, cells, e)
    } else {
        scan(mf, mc, nums, cells, i + 1)
    }
}

#[via_fn]
proof fn scan_decreases(mf: Seq<bool>, mc: Seq<bool>, nums: Seq<Seq<bool>>, cells: Seq<Cell>, i: int) {
    if 0 <= i < mf.len() {
        lemma_run_end(mf, i);
        lemma_run_end(mc, i);
    }
}

/// The cells that every legal placement fills.
pub open spec fn fill_mask(cells: Seq<Cell>, clue: Seq<usize>) -> Seq<bool> {
    Seq::new(cells.len(), |j: int| must_fill(cells, clue, j))
}

/// The cells that no legal placement fills.
pub open spec fn cross_mask(cells: Seq<Cell>, clue: Seq<usize>) -> Seq<bool> {
    Seq::new(cells.len(), |j: int| must_cross(cells, clue, j))
}

/// For each cell, the runs that some legal placement covers it with.
pub open spec fn number_masks(cells: Seq<Cell>, clue: Seq<usize>) -> Seq<Seq<bool>> {
    Seq::new(cells.len(), |j: int| Seq::new(clue.len(), |d: int| may_cover(cells, clue, d, j)))
}

/// For each of `n` cells, the `k` run bits of a flat set indexed by
/// `j * k + d`.
pub open spec fn number_rows(cn: FixedBitSet, n: int, k: int) -> Seq<Seq<bool>> {
    Seq::new(n as nat, |j: int| Seq::new(k as nat, |d: int| bit(cn, j * k + d)))
}

/// The hints of the discrete-range pass, as shapes.
pub open spec fn discrete_hints(cells: Seq<Cell>, clue: Seq<usize>) -> Seq<HintShape> {
    scan(fill_mask(cells, clue), cross_mask(cells, clue), number_masks(cells, clue), cells, 0)
}

impl Possibilities {
    /// The hints read off the masks, in order along the line.
    pub fn hints<L: Line>(&self, line: &L, clue: &[usize]) -> (r: Vec<DiscreteRangeHint>)
        requires
            line.inv(),
            self.wf(line.cells().len(), clue@.len()),
        ensures
            shapes(r@) == scan(
                bits_of(self.filled),
                bits_of(self.crossed),
                number_rows(self.cell_numbers, line.cells().len() as int, clue@.len() as int),
                line.cells(),
                0,
            ),
            forall|x: int|
                0 <= x < r@.len() ==> #[trigger] r@[x].fits(line.cells().len()) && r@[x].useful(line.cells()),
    {
        let ghost cells = line.cells();
        let ghost k = clue@.len();
        let ghost mf = bits_of(self.filled);
        let ghost mc = bits_of(self.crossed);
        let ghost nums = number_rows(self.cell_numbers, cells.len() as int, k as int);
        let ghost total = scan(mf, mc, nums, cells, 0);
        let len = line.len();
        let mut hints: Vec<DiscreteRangeHint> = Vec::new();
        let mut i: usize = 0;
        while i < len
            invariant
                line.inv(),
                cells == line.cells(),
                len == cells.len(),
                k == clue@.len(),
                self.wf(len as nat, k),
                mf == bits_of(self.filled),
                mc == bits_of(self.crossed),
                nums == number_rows(self.cell_numbers, len as int, k as int),
                total == scan(mf, mc, nums, cells, 0),
                i <= len,
                shapes(hints@) + scan(mf, mc, nums, cells, i as int) == total,
                forall|x: int|
                    0 <= x < hints@.len() ==> #[trigger] hints@[x].fits(len as nat) && hints@[x].useful(cells),
            decreases len - i,
        {
            let ghost i0 = i as int;
            while i < len && !bitset_contains(&self.filled, i) && !bitset_contains(&self.crossed, i)
                invariant
                    i0 <= i <= len,
                    len == cells.len(),
                    mf.len() == len,
                    mc.len() == len,
                    forall|j: int| 0 <= j < len ==> bit(self.filled, j) == mf[j],
                    forall|j: int| 0 <= j < len ==> bit(self.crossed, j) == mc[j],
                    scan(mf, mc, nums, cells, i as int) == scan(mf, mc, nums, cells, i0),
                decreases len - i,
            {
                i = i + 1;
            }
            if i < len {
                let start = i;
                let ghost before = hints@;
                if bitset_contains(&self.filled, i) {
                    while i < len && bitset_contains(&self.filled, i)
                        invariant
                            start <= i <= len,
                            len == cells.len(),
                            mf.len() == len,
                            mf[start as int],
                            forall|j: int| 0 <= j < len ==> bit(self.filled, j) == mf[j],
                            forall|j: int| start <= j < i ==> mf[j],
                            run_end(mf, start as int) == run_end(mf, i as int),
                        decreases len - i,
                    {
                        i = i + 1;
                    }
                    let mut numbers = bitset_with_capacity(clue.len());
                    let mut d: usize = 0;
                    while d < clue.len()
                        invariant
                            k == clue@.len(),
                            start < len,
                            len * k <= usize::MAX,
                            bits_of(numbers).len() == k,
                            d <= k,
                            forall|e: int| 0 <= e < d ==> bit(numbers, e) == bit(self.cell_numbers, start * k + e),
                            forall|e: int| d <= e ==> !bit(numbers, e),
                        decreases k - d,
                    {
                        proof {
                            lemma_flat_index(len as int, k as int);
                            assert(0 <= start * k + d < len * k);
                        }
                        let ghost numbers0 = numbers;
                        if bitset_contains(&self.cell_numbers, start * clue.len() + d) {
                            bitset_put(&mut numbers, d);
                        }
                        proof {
                            assert forall|e: int| 0 <= e < d + 1 implies bit(numbers, e) == bit(self.cell_numbers, start * k + e) by {
                                if e < d {
                                    assert(bit(numbers0, e) == bit(self.cell_numbers, start * k + e));
                                }
                            }
                            assert forall|e: int| d + 1 <= e implies !bit(numbers, e) by {
                                assert(!bit(numbers0, e));
                            }
                        }
                        d = d + 1;
                    }
                    let filled_run = FilledRun { start, end: i, numbers };
                    assert forall|e: int| 0 <= e < k implies bits_of(filled_run.numbers)[e] == #[trigger] nums[start as int][e] by {
                        assert(bit(filled_run.numbers, e) == bit(self.cell_numbers, start * k + e));
                    }
                    assert(bits_of(filled_run.numbers) =~= nums[start as int]);
                    if filled_run.check(line) {
                        let h = DiscreteRangeHint::FilledRun(filled_run);
                        assert(h.fits(len as nat) && h.useful(cells));
                        hints.push(h);
                        assert(hints@ == before.push(h));
                    } else {
                        assert(hints@ == before);
                    }
                } else {
                    while i < len && bitset_contains(&self.crossed, i)
                        invariant
                            start <= i <= len,
                            len == cells.len(),
                            mc.len() == len,
                            mc[start as int],
                            forall|j: int| 0 <= j < len ==> bit(self.crossed, j) == mc[j],
                            forall|j: int| start <= j < i ==> mc[j],
                            run_end(mc, start as int) == run_end(mc, i as int),
                        decreases len - i,
                    {
                        i = i + 1;
                    }
                    let crossed_run = CrossedRun { start, end: i };
                    if crossed_run.check(line) {
                        let h = DiscreteRangeHint::CrossedRun(crossed_run);
                        assert(h.fits(len as nat) && h.useful(cells));
                        hints.push(h);
                        assert(hints@ == before.push(h));
                    } else {
                        assert(hints@ == before);
                    }
                }
                proof {
                    assert(shapes(hints@) + scan(mf, mc, nums, cells, i as int) =~= total);
                    assert forall|x: int| 0 <= x < hints@.len() implies #[trigger] hints@[x].fits(len as nat)
                        && hints@[x].useful(cells) by {
                        if x < before.len() {
                            assert(hints@[x] == before[x]);
                            assert(before[x].fits(len as nat));
                        }
                    }
                }
            }
        }
        assert(i >= len);
        assert(mf.len() == len);
        assert(scan(mf, mc, nums, cells, i as int) =~= Seq::<HintShape>::empty());
        assert(shapes(hints@) =~= total);
        hints
    }
}

/// The discrete-range pass.
#[derive(Clone, Copy, Debug)]
pub struct DiscreteRangePass;

impl LinePass for DiscreteRangePass {
    type Hint = DiscreteRangeHint;

    open spec fn derives(&self, clue: Seq<usize>, cells: Seq<Cell>, hints: Seq<DiscreteRangeHint>) -> bool {
        shapes(hints) == discrete_hints(cells, clue)
    }

    fn run<L: Line>(&self, clue: &[usize], line: &L) -> (r: Result<Vec<DiscreteRangeHint>, IllFormedClue>) {
        let ghost cells = line.cells();
        if !check_clue(clue, line.len()) {
            return Err(IllFormedClue);
        }
        let ghost k = clue@.len();
        let possibilities = Possibilities::enumerate(line, clue);
        proof {
            assert forall|j: int| 0 <= j < cells.len() implies #[trigger] bits_of(possibilities.filled)[j]
                == fill_mask(cells, clue@)[j] by {
                assert(bit(possibilities.filled, j) == must_fill(cells, clue@, j));
            }
            assert forall|j: int| 0 <= j < cells.len() implies #[trigger] bits_of(possibilities.crossed)[j]
                == cross_mask(cells, clue@)[j] by {
                assert(bit(possibilities.crossed, j) == must_cross(cells, clue@, j));
            }
            assert(bits_of(possibilities.filled) =~= fill_mask(cells, clue@));
            assert(bits_of(possibilities.crossed) =~= cross_mask(cells, clue@));
            assert forall|j: int| 0 <= j < cells.len() implies #[trigger] number_rows(
                possibilities.cell_numbers,
                cells.len() as int,
                k as int,
            )[j] =~= number_masks(cells, clue@)[j] by {
                assert forall|d: int| 0 <= d < k implies bit(possibilities.cell_numbers, j * k + d) == may_cover(
                    cells,
                    clue@,
                    d,
                    j,
                ) by {
                    assert(bit(possibilities.cell_numbers, #[trigger] (j * clue@.len() + d)) == may_cover(cells, clue@, d, j));
                }
            }
            assert(number_rows(possibilities.cell_numbers, cells.len() as int, k as int) =~= number_masks(cells, clue@));
        }
        Ok(possibilities.hints(line, clue))
    }
}

} // verus!
