//! The crowded-clue pass: runs that overlap themselves in every placement
//! because the clue leaves little room.
use crate::clue::{check_clue, clue_fits, clue_span, lemma_prefix_sum_mono, packed_offset, prefix_sum};
use crate::hint::{IllFormedClue, LineHint, LinePass};
use crate::line::{any_unfilled, fill_span, lemma_fill_span, Line, LineMut};
use crate::parser::Cell;
use vstd::prelude::*;

verus! {

/// The cells `kernel_start..kernel_end` are filled in every placement of a run.
#[derive(Clone, Copy, Debug, PartialEq, Eq, Structural)]
pub struct CrowdedClue {
    pub kernel_start: usize,
    pub kernel_end: usize,
}

impl LineHint for CrowdedClue {
    open spec fn fits(&self, len: nat) -> bool {
        self.kernel_end <= len
    }

    open spec fn useful(&self, cells: Seq<Cell>) -> bool {
        any_unfilled(cells, self.kernel_start as int, self.kernel_end as int)
    }

    open spec fn applied(&self, cells: Seq<Cell>) -> Seq<Cell> {
        fill_span(cells, self.kernel_start as int, self.kernel_end as int)
    }

    fn check<L: Line>(&self, line: &L) -> (r: bool) {
        line.range_contains_unfilled(self.kernel_start..self.kernel_end)
    }

    fn apply<L: LineMut>(&self, line: &mut L) {
        line.fill_range(self.kernel_start..self.kernel_end);
    }

    proof fn lemma_applied(&self, cells: Seq<Cell>) {
        lemma_fill_span(cells, self.kernel_start as int, self.kernel_end as int);
    }
}

/// The room a clue leaves on a line of `len` cells.
pub open spec fn line_freedom(clue: Seq<usize>, len: int) -> int {
    len - clue_span(clue)
}

/// The crowded-clue hints of the first `i` runs: for each run longer than the
/// freedom, the cells it covers both when packed left and when packed right,
/// where that would change the line.
pub open spec fn crowded_hints(clue: Seq<usize>, cells: Seq<Cell>, i: int) -> Seq<CrowdedClue>
    decreases i,
{
    if i <= 0 {
        Seq::empty()
    } else {
        let prev = crowded_hints(clue, cells, i - 1);
        let f = line_freedom(clue, cells.len() as int);
        let x0 = packed_offset(clue, i - 1);
        let h = CrowdedClue {
            kernel_start: (x0 + f) as usize,
            kernel_end: (x0 + clue[i - 1]) as usize,
        };
        if clue[i - 1] > f && h.useful(cells) {
            prev.push(h)
        } else {
            prev
        }
    }
}

/// Each crowded-clue hint fits its line and would change it.
pub proof fn lemma_crowded_hints_fit(clue: Seq<usize>, cells: Seq<Cell>, i: int)
    requires
        clue_fits(clue, cells.len() as int),
        cells.len() <= usize::MAX,
        clue.len() > 0,
        0 <= i <= clue.len(),
    ensures
        forall|k: int|
            0 <= k < crowded_hints(clue, cells, i).len() ==> (#[trigger] crowded_hints(clue, cells, i)[k]).fits(
                cells.len(),
            ) && crowded_hints(clue, cells, i)[k].useful(cells),
    decreases i,
{
    if i > 0 {
        lemma_crowded_hints_fit(clue, cells, i - 1);
        lemma_prefix_sum_mono(clue, i, clue.len() as int);
        lemma_prefix_sum_mono(clue, i - 1, clue.len() as int);
        assert(prefix_sum(clue, i) == prefix_sum(clue, i - 1) + clue[i - 1]);
        assert(packed_offset(clue, i - 1) + clue[i - 1] <= cells.len());
        let prev = crowded_hints(clue, cells, i - 1);
        let r = crowded_hints(clue, cells, i);
        let f = line_freedom(clue, cells.len() as int);
        let x0 = packed_offset(clue, i - 1);
        let h = CrowdedClue { kernel_start: (x0 + f) as usize, kernel_end: (x0 + clue[i - 1]) as usize };
        if clue[i - 1] > f && h.useful(cells) {
            assert(r == prev.push(h));
            assert(h.fits(cells.len()));
        } else {
            assert(r == prev);
        }
        assert forall|k: int| 0 <= k < r.len() implies (#[trigger] r[k]).fits(cells.len()) && r[k].useful(cells) by {
            if k < prev.len() {
                assert(r[k] == prev[k]);
                assert(prev[k].fits(cells.len()) && prev[k].useful(cells));
            }
        }
    }
}

/// The crowded-clue pass.
#[derive(Clone, Copy, Debug)]
pub struct CrowdedCluePass;

impl LinePass for CrowdedCluePass {
    type Hint = CrowdedClue;

    open spec fn derives(&self, clue: Seq<usize>, cells: Seq<Cell>, hints: Seq<CrowdedClue>) -> bool {
        hints == crowded_hints(clue, cells, clue.len() as int)
    }

    fn run<L: Line>(&self, clue: &[usize], line: &L) -> (r: Result<Vec<CrowdedClue>, IllFormedClue>) {
        let ghost cells = line.cells();
        if !check_clue(clue, line.len()) {
            return Err(IllFormedClue);
        }
        let mut hints: Vec<CrowdedClue> = Vec::new();
        if clue.len() == 0 {
            return Ok(hints);
        }
        let len = line.len();
        let mut sum: usize = 0;
        let mut j: usize = 0;
        while j < clue.len()
            invariant
                j <= clue.len(),
                sum == prefix_sum(clue@, j as int),
                clue_fits(clue@, len as int),
                clue@.len() > 0,
            decreases clue.len() - j,
        {
            proof {
                lemma_prefix_sum_mono(clue@, j as int + 1, clue@.len() as int);
            }
            sum = sum + clue[j];
            j = j + 1;
        }
        let freedom: usize = len - sum - (clue.len() - 1);
        let mut x0: usize = 0;
        let mut i: usize = 0;
        while i < clue.len()
            invariant
                line.inv(),
                cells == line.cells(),
                len == cells.len(),
                i <= clue.len(),
                clue@.len() > 0,
                clue_fits(clue@, len as int),
                len < usize::MAX,
                freedom == line_freedom(clue@, len as int),
                x0 == packed_offset(clue@, i as int),
                hints@ == crowded_hints(clue@, cells, i as int),
            decreases clue.len() - i,
        {
            let number = clue[i];
            proof {
                lemma_prefix_sum_mono(clue@, i as int + 1, clue@.len() as int);
                assert(prefix_sum(clue@, i as int + 1) == prefix_sum(clue@, i as int) + number);
                assert(packed_offset(clue@, i as int + 1) <= len + 1);
            }
            if number > freedom {
                let hint = CrowdedClue { kernel_start: x0 + freedom, kernel_end: x0 + number };
                if hint.check(line) {
                    hints.push(hint);
                }
            }
            x0 = x0 + number + 1;
            i = i + 1;
        }
        proof {
            lemma_crowded_hints_fit(clue@, cells, clue@.len() as int);
        }
        Ok(hints)
    }
}

} // verus!
