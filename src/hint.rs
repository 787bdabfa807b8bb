//! Hints: deductions about one line that can be checked for use and applied,
//! and passes: the algorithms that produce them.
use crate::clue::clue_ok;
use crate::line::{grows, Line, LineMut};
use crate::parser::Cell;
use vstd::prelude::*;

verus! {

/// A deduction about one line.
pub trait LineHint: Sized {
    /// Every index the hint names lies on a line of `len` cells.
    spec fn fits(&self, len: nat) -> bool;

    /// Applying the hint would change at least one cell.
    spec fn useful(&self, cells: Seq<Cell>) -> bool;

    /// The cells after the hint is applied.
    spec fn applied(&self, cells: Seq<Cell>) -> Seq<Cell>;

    /// Whether the hint would still change the line.
    fn check<L: Line>(&self, line: &L) -> (r: bool)
        requires
            line.inv(),
            self.fits(line.cells().len()),
        ensures
            r == self.useful(line.cells()),
    ;

    /// Writes the hint's cells into the line.
    fn apply<L: LineMut>(&self, line: &mut L)
        requires
            old(line).inv(),
            self.fits(old(line).cells().len()),
        ensures
            final(line).inv(),
            final(line).cells() == self.applied(old(line).cells()),
            final(line).frame() == old(line).frame(),
            final(line).place() == old(line).place(),
    ;

    /// Applying the hint only sets bits, and leaves it with nothing to change.
    proof fn lemma_applied(&self, cells: Seq<Cell>)
        requires
            self.fits(cells.len()),
        ensures
            grows(cells, self.applied(cells)),
            !self.useful(self.applied(cells)),
    ;
}

/// A clue that cannot be placed on its line: its runs with one cell between
/// each two need more cells than the line has, a run is empty, or the line
/// and clue are too large to enumerate.
#[derive(Clone, Copy, Debug, PartialEq, Eq, Structural)]
pub struct IllFormedClue;

/// An algorithm that reads one line and its clue and derives hints.
pub trait LinePass {
    type Hint: LineHint;

    /// The pass derives `hints` from the clue and the line's cells.
    spec fn derives(&self, clue: Seq<usize>, cells: Seq<Cell>, hints: Seq<Self::Hint>) -> bool;

    /// The hints derived for the line, in order, each one fitting the line and
    /// useful on it; or, for a clue the line cannot take, the report of it and
    /// no hint.
    fn run<L: Line>(&self, clue: &[usize], line: &L) -> (r: Result<Vec<Self::Hint>, IllFormedClue>)
        requires
            line.inv(),
            line.cells().len() <= usize::MAX / 8,
        ensures
            r is Err <==> !clue_ok(clue@, line.cells().len() as int),
            r matches Ok(hints) ==> {
                &&& forall|i: int|
                    0 <= i < hints@.len() ==> #[trigger] hints@[i].fits(line.cells().len()) && hints@[i].useful(
                        line.cells(),
                    )
                &&& self.derives(clue@, line.cells(), hints@)
            },
    ;
}

/// A hint that fits its line is of no further use once applied.
pub proof fn lemma_hint_single_use<H: LineHint>(h: H, cells: Seq<Cell>)
    requires
        h.fits(cells.len()),
    ensures
        !h.useful(h.applied(cells)),
{
    h.lemma_applied(cells);
}

/// The cells after each hint in turn is applied.
pub open spec fn applied_all<H: LineHint>(hints: Seq<H>, cells: Seq<Cell>) -> Seq<Cell>
    decreases hints.len(),
{
    if hints.len() == 0 {
        cells
    } else {
        hints.last().applied(applied_all(hints.drop_last(), cells))
    }
}

/// No sequence of hint applications clears a bit: the cells only gain bits.
pub proof fn lemma_hints_grow<H: LineHint>(hints: Seq<H>, cells: Seq<Cell>)
    requires
        forall|i: int| 0 <= i < hints.len() ==> #[trigger] hints[i].fits(cells.len()),
    ensures
        grows(cells, applied_all(hints, cells)),
    decreases hints.len(),
{
    if hints.len() > 0 {
        let prefix = hints.drop_last();
        assert forall|i: int| 0 <= i < prefix.len() implies #[trigger] prefix[i].fits(cells.len()) by {
            assert(prefix[i] == hints[i]);
        }
        lemma_hints_grow(prefix, cells);
        let mid = applied_all(prefix, cells);
        assert(hints[hints.len() - 1].fits(cells.len()));
        hints.last().lemma_applied(mid);
    }
}

} // verus!
