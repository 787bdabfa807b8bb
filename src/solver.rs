//! The pass scheduler: which pass runs on which axis next, until the passes
//! stall on both axes.
use crate::continuous_range::{continuous_hints, ContinuousRangeHint, ContinuousRangePass};
use crate::crowded_clue::{crowded_hints, CrowdedClue, CrowdedCluePass};
use crate::discrete_range::{
    discrete_hints, shapes, DiscreteRangeHint, DiscreteRangePass,
};
use crate::hint::{IllFormedClue, LineHint, LinePass};
use crate::line::{Line, LineMut};
use crate::parser::Cell;
use crate::hint::applied_all;
use crate::puzzle::{line_hints, Axis, LinePassExt, Puzzle};
use vstd::prelude::*;

verus! {

/// A hint of any of the passes.
#[derive(Debug)]
pub enum Hint {
    CrowdedClue(CrowdedClue),
    ContinuousRange(ContinuousRangeHint),
    DiscreteRange(DiscreteRangeHint),
}

impl LineHint for Hint {
    open spec fn fits(&self, len: nat) -> bool {
        match self {
            Hint::CrowdedClue(h) => h.fits(len),
            Hint::ContinuousRange(h) => h.fits(len),
            Hint::DiscreteRange(h) => h.fits(len),
        }
    }

    open spec fn useful(&self, cells: Seq<Cell>) -> bool {
        match self {
            Hint::CrowdedClue(h) => h.useful(cells),
            Hint::ContinuousRange(h) => h.useful(cells),
            Hint::DiscreteRange(h) => h.useful(cells),
        }
    }

    open spec fn applied(&self, cells: Seq<Cell>) -> Seq<Cell> {
        match self {
            Hint::CrowdedClue(h) => h.applied(cells),
            Hint::ContinuousRange(h) => h.applied(cells),
            Hint::DiscreteRange(h) => h.applied(cells),
        }
    }

    fn check<L: Line>(&self, line: &L) -> (r: bool) {
        match self {
            Hint::CrowdedClue(h) => h.check(line),
            Hint::ContinuousRange(h) => h.check(line),
            Hint::DiscreteRange(h) => h.check(line),
        }
    }

    fn apply<L: LineMut>(&self, line: &mut L) {
        match self {
            Hint::CrowdedClue(h) => h.apply(line),
            Hint::ContinuousRange(h) => h.apply(line),
            Hint::DiscreteRange(h) => h.apply(line),
        }
    }

    proof fn lemma_applied(&self, cells: Seq<Cell>) {
        match self {
            Hint::CrowdedClue(h) => h.lemma_applied(cells),
            Hint::ContinuousRange(h) => h.lemma_applied(cells),
            Hint::DiscreteRange(h) => h.lemma_applied(cells),
        }
    }
}

/// One of the passes.
#[derive(Clone, Copy, Debug)]
pub enum Pass {
    CrowdedClue(CrowdedCluePass),
    ContinuousRange(ContinuousRangePass),
    DiscreteRange(DiscreteRangePass),
}

impl LinePass for Pass {
    type Hint = Hint;

    open spec fn derives(&self, clue: Seq<usize>, cells: Seq<Cell>, hints: Seq<Hint>) -> bool {
        match self {
            Pass::CrowdedClue(_) => hints == crowded_hints(clue, cells, clue.len() as int).map_values(
                |h: CrowdedClue| Hint::CrowdedClue(h),
            ),
            Pass::ContinuousRange(_) => hints == continuous_hints(cells, clue).map_values(
                |h: ContinuousRangeHint| Hint::ContinuousRange(h),
            ),
            Pass::DiscreteRange(_) => exists|inner: Seq<DiscreteRangeHint>|
                #![trigger shapes(inner)]
                shapes(inner) == discrete_hints(cells, clue) && hints == inner.map_values(
                    |h: DiscreteRangeHint| Hint::DiscreteRange(h),
                ),
        }
    }

    fn run<L: Line>(&self, clue: &[usize], line: &L) -> (r: Result<Vec<Hint>, IllFormedClue>) {
        let ghost cells = line.cells();
        match self {
            Pass::CrowdedClue(p) => {
                let res = p.run(clue, line);
                if res.is_err() {
                    return Err(IllFormedClue);
                }
                let inner = res.unwrap();
                Ok(wrap_crowded(inner, Ghost(cells)))
            },
            Pass::ContinuousRange(p) => {
                let res = p.run(clue, line);
                if res.is_err() {
                    return Err(IllFormedClue);
                }
                let inner = res.unwrap();
                Ok(wrap_continuous(inner, Ghost(cells)))
            },
            Pass::DiscreteRange(p) => {
                let res = p.run(clue, line);
                if res.is_err() {
                    return Err(IllFormedClue);
                }
                let inner = res.unwrap();
                let ghost all = inner@;
                let r = wrap_discrete(inner, Ghost(cells));
                assert(shapes(all) == discrete_hints(cells, clue@));
                Ok(r)
            },
        }
    }
}

fn wrap_crowded(inner: Vec<CrowdedClue>, Ghost(cells): Ghost<Seq<Cell>>) -> (r: Vec<Hint>)
    requires
        forall|i: int| 0 <= i < inner@.len() ==> #[trigger] inner@[i].fits(cells.len()) && inner@[i].useful(cells),
    ensures
        r@ == inner@.map_values(|h: CrowdedClue| Hint::CrowdedClue(h)),
        forall|i: int| 0 <= i < r@.len() ==> #[trigger] r@[i].fits(cells.len()) && r@[i].useful(cells),
{
    let mut inner = inner;
    let ghost all = inner@;
    let mut r: Vec<Hint> = Vec::new();
    while inner.len() > 0
        invariant
            r@.len() + inner@.len() == all.len(),
            inner@ == all.subrange(r@.len() as int, all.len() as int),
            forall|i: int| 0 <= i < r@.len() ==> #[trigger] r@[i] == Hint::CrowdedClue(all[i]),
            forall|i: int| 0 <= i < all.len() ==> #[trigger] all[i].fits(cells.len()) && all[i].useful(cells),
        decreases inner@.len(),
    {
        let h = inner.remove(0);
        r.push(Hint::CrowdedClue(h));
    }
    assert(r@ =~= all.map_values(|h: CrowdedClue| Hint::CrowdedClue(h)));
    r
}

fn wrap_continuous(inner: Vec<ContinuousRangeHint>, Ghost(cells): Ghost<Seq<Cell>>) -> (r: Vec<Hint>)
    requires
        forall|i: int| 0 <= i < inner@.len() ==> #[trigger] inner@[i].fits(cells.len()) && inner@[i].useful(cells),
    ensures
        r@ == inner@.map_values(|h: ContinuousRangeHint| Hint::ContinuousRange(h)),
        forall|i: int| 0 <= i < r@.len() ==> #[trigger] r@[i].fits(cells.len()) && r@[i].useful(cells),
{
    let mut inner = inner;
    let ghost all = inner@;
    let mut r: Vec<Hint> = Vec::new();
    while inner.len() > 0
        invariant
            r@.len() + inner@.len() == all.len(),
            inner@ == all.subrange(r@.len() as int, all.len() as int),
            forall|i: int| 0 <= i < r@.len() ==> #[trigger] r@[i] == Hint::ContinuousRange(all[i]),
            forall|i: int| 0 <= i < all.len() ==> #[trigger] all[i].fits(cells.len()) && all[i].useful(cells),
        decreases inner@.len(),
    {
        let h = inner.remove(0);
        r.push(Hint::ContinuousRange(h));
    }
    assert(r@ =~= all.map_values(|h: ContinuousRangeHint| Hint::ContinuousRange(h)));
    r
}

fn wrap_discrete(inner: Vec<DiscreteRangeHint>, Ghost(cells): Ghost<Seq<Cell>>) -> (r: Vec<Hint>)
    requires
        forall|i: int| 0 <= i < inner@.len() ==> #[trigger] inner@[i].fits(cells.len()) && inner@[i].useful(cells),
    ensures
        r@ == inner@.map_values(|h: DiscreteRangeHint| Hint::DiscreteRange(h)),
        forall|i: int| 0 <= i < r@.len() ==> #[trigger] r@[i].fits(cells.len()) && r@[i].useful(cells),
{
    let mut inner = inner;
    let ghost all = inner@;
    let mut r: Vec<Hint> = Vec::new();
    while inner.len() > 0
        invariant
            r@.len() + inner@.len() == all.len(),
            inner@ == all.subrange(r@.len() as int, all.len() as int),
            forall|i: int| 0 <= i < r@.len() ==> #[trigger] r@[i] == Hint::DiscreteRange(all[i]),
            forall|i: int| 0 <= i < all.len() ==> #[trigger] all[i].fits(cells.len()) && all[i].useful(cells),
        decreases inner@.len(),
    {
        let h = inner.remove(0);
        r.push(Hint::DiscreteRange(h));
    }
    assert(r@ =~= all.map_values(|h: DiscreteRangeHint| Hint::DiscreteRange(h)));
    r
}

impl LinePassExt for Pass {}

/// The axis with index `a`: 0 is horizontal, anything else vertical.
pub open spec fn axis_of(a: int) -> Axis {
    if a == 0 {
        Axis::Horz
    } else {
        Axis::Vert
    }
}

/// The scheduler's state after a step whose pass was `last_crowded` or not:
/// two failures in a row promote to the next pass, the axis flips, and a
/// wrap back to the horizontal axis after the crowded-clue pass moves on to
/// the continuous-range pass.
pub open spec fn next_state(p: int, a: int, f: int, last_crowded: bool) -> (int, int, int) {
    let (promoted, fails) = if f >= 2 {
        (p + 1, 0)
    } else {
        (p, f)
    };
    let a1 = 1 - a;
    let pass = if a1 == 0 && last_crowded {
        1
    } else {
        promoted
    };
    (pass, a1, fails)
}

/// Schedules the passes: state `(cur_p, cur_a, fail_count)`, with `cur_p`
/// an index into `passes` and `cur_a` the axis index.
pub struct Solver<'a> {
    pub cur_p: usize,
    pub cur_a: usize,
    pub fail_count: usize,
    pub passes: &'a [Pass],
}

impl<'a> Solver<'a> {
    /// The state the scheduler keeps between steps.
    pub open spec fn wf(&self) -> bool {
        self.cur_a < 2 && self.fail_count < 2
    }

    /// The pass at index `p`, if any, and the axis with index `a`.
    pub open spec fn pick(&self, p: int, a: int) -> Option<(&'a Pass, Axis)> {
        if 0 <= p < self.passes@.len() {
            Some((&self.passes@[p], axis_of(a)))
        } else {
            None
        }
    }

    /// Whether the pass at index `p` is the crowded-clue pass.
    pub open spec fn is_crowded(&self, p: int) -> bool {
        0 <= p < self.passes@.len() && self.passes@[p] is CrowdedClue
    }

    /// A scheduler at the first pass, on the horizontal axis.
    pub fn new(passes: &'a [Pass]) -> (r: Self)
        ensures
            r.wf(),
            r.cur_p == 0,
            r.cur_a == 0,
            r.fail_count == 0,
            r.passes == passes,
    {
        Solver { cur_p: 0, cur_a: 0, fail_count: 0, passes }
    }

    /// The first pass and axis to run.
    pub fn initial(&mut self) -> (r: (&'a Pass, Axis))
        requires
            old(self).wf(),
            old(self).cur_p < old(self).passes@.len(),
        ensures
            *final(self) == *old(self),
            Some(r) == old(self).pick(old(self).cur_p as int, old(self).cur_a as int),
    {
        (&self.passes[self.cur_p], if self.cur_a == 0 {
            Axis::Horz
        } else {
            Axis::Vert
        })
    }

    /// After a step that produced hints: the failure count resets, a
    /// discrete-range step drops back to the continuous-range pass, and the
    /// scheduler moves on.
    pub fn succeeded(&mut self) -> (r: Option<(&'a Pass, Axis)>)
        requires
            old(self).wf(),
            old(self).cur_p < usize::MAX,
        ensures
            final(self).wf(),
            final(self).passes == old(self).passes,
            ({
                let p = if old(self).cur_p > 1 { 1 } else { old(self).cur_p as int };
                let (np, na, nf) = next_state(p, old(self).cur_a as int, 0, old(self).is_crowded(old(self).cur_p as int));
                &&& final(self).cur_p == np
                &&& final(self).cur_a == na
                &&& final(self).fail_count == nf
            }),
            r == final(self).pick(final(self).cur_p as int, final(self).cur_a as int),
    {
        self.fail_count = 0;
        let last_p = self.cur_p;
        if self.cur_p > 1 {
            self.cur_p = 1;
            self.next(last_p)
        } else {
            self.next(last_p)
        }
    }

    /// After a step that produced no hints: the failure count grows, and the
    /// scheduler moves on.
    pub fn failed(&mut self) -> (r: Option<(&'a Pass, Axis)>)
        requires
            old(self).wf(),
            old(self).cur_p < usize::MAX,
        ensures
            final(self).wf(),
            final(self).passes == old(self).passes,
            ({
                let (np, na, nf) = next_state(
                    old(self).cur_p as int,
                    old(self).cur_a as int,
                    old(self).fail_count + 1,
                    old(self).is_crowded(old(self).cur_p as int),
                );
                &&& final(self).cur_p == np
                &&& final(self).cur_a == na
                &&& final(self).fail_count == nf
            }),
            r == final(self).pick(final(self).cur_p as int, final(self).cur_a as int),
    {
        self.fail_count = self.fail_count + 1;
        let last_p = self.cur_p;
        self.next(last_p)
    }

    /// Moves to the next pass and axis, given the pass of the step just run.
    pub fn next(&mut self, last_p: usize) -> (r: Option<(&'a Pass, Axis)>)
        requires
            old(self).cur_a < 2,
            old(self).fail_count <= 2,
            old(self).cur_p < usize::MAX,
        ensures
            final(self).wf(),
            final(self).passes == old(self).passes,
            ({
                let (np, na, nf) = next_state(
                    old(self).cur_p as int,
                    old(self).cur_a as int,
                    old(self).fail_count as int,
                    old(self).is_crowded(last_p as int),
                );
                &&& final(self).cur_p == np
                &&& final(self).cur_a == na
                &&& final(self).fail_count == nf
            }),
            r == final(self).pick(final(self).cur_p as int, final(self).cur_a as int),
    {
        if self.fail_count >= 2 {
            self.cur_p = self.cur_p + 1;
            self.fail_count = 0;
        }
        self.cur_a = 1 - self.cur_a;
        if self.cur_a == 0 {
            if last_p < self.passes.len() {
                if let Pass::CrowdedClue(_) = self.passes[last_p] {
                    self.cur_p = 1;
                }
            }
        }
        if self.cur_p < self.passes.len() {
            Some((&self.passes[self.cur_p], if self.cur_a == 0 {
                Axis::Horz
            } else {
                Axis::Vert
            }))
        } else {
            None
        }
    }
}

/// One step of the scheduler: the pass run, its axis, and the hints it
/// applied.
pub struct Step<'a> {
    pub pass: &'a Pass,
    pub axis: Axis,
    pub hints: Vec<crate::puzzle::Hint<Hint>>,
}

impl<'a> Solver<'a> {
    /// Runs the scheduled pass on the scheduled axis of the puzzle, applies
    /// its hints, and moves the scheduler on: after a success when there were
    /// hints, after a failure when there were none. Nothing happens, and
    /// `None` comes back, once the puzzle is complete or every pass has
    /// stalled.
    pub fn step(&mut self, puzzle: &mut Puzzle) -> (r: Option<Step<'a>>)
        requires
            old(self).wf(),
            old(puzzle).wf(),
        ensures
            final(self).wf(),
            final(self).passes == old(self).passes,
            final(puzzle).wf(),
            r is None <==> (old(puzzle).complete() || old(self).cur_p >= old(self).passes@.len()),
            r is None ==> *final(self) == *old(self) && final(puzzle).grid == old(puzzle).grid,
            final(puzzle).vert_clues@ == old(puzzle).vert_clues@,
            final(puzzle).horz_clues@ == old(puzzle).horz_clues@,
            r matches Some(st) ==> {
                &&& old(self).pick(old(self).cur_p as int, old(self).cur_a as int) == Some((st.pass, st.axis))
                &&& forall|x: int|
                    0 <= x < old(puzzle).grid.lines(st.axis) ==> st.pass.derives(
                        old(puzzle).clues(st.axis)[x],
                        old(puzzle).grid.line(st.axis, x),
                        #[trigger] line_hints(st.hints@, x),
                    )
                &&& forall|x: int|
                    0 <= x < old(puzzle).grid.lines(st.axis) ==> #[trigger] final(puzzle).grid.line(st.axis, x)
                        == applied_all(line_hints(st.hints@, x), old(puzzle).grid.line(st.axis, x))
                &&& ({
                    let p = if old(self).cur_p > 1 { 1 } else { old(self).cur_p as int };
                    let (sp, sa, sf) = next_state(p, old(self).cur_a as int, 0, old(self).is_crowded(old(self).cur_p as int));
                    let (fp, fa, ff) = next_state(
                        old(self).cur_p as int,
                        old(self).cur_a as int,
                        old(self).fail_count + 1,
                        old(self).is_crowded(old(self).cur_p as int),
                    );
                    if st.hints@.len() > 0 {
                        final(self).cur_p == sp && final(self).cur_a == sa && final(self).fail_count == sf
                    } else {
                        final(self).cur_p == fp && final(self).cur_a == fa && final(self).fail_count == ff
                    }
                })
            },
    {
        if puzzle.is_complete() || self.cur_p >= self.passes.len() {
            return None;
        }
        let pass = &self.passes[self.cur_p];
        let axis = if self.cur_a == 0 {
            Axis::Horz
        } else {
            Axis::Vert
        };
        let hints = pass.apply(&axis, puzzle);
        if hints.len() == 0 {
            let _ = self.failed();
        } else {
            let _ = self.succeeded();
        }
        Some(Step { pass, axis, hints })
    }
}

} // verus!

