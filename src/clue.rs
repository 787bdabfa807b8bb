//! Arithmetic on clues: run lengths, their sums, and where each run starts
//! when the runs are packed to the left.
use vstd::prelude::*;

verus! {

/// The sum of the first `i` run lengths.
pub open spec fn prefix_sum(clue: Seq<usize>, i: int) -> int
    decreases i,
{
    if i <= 0 {
        0
    } else {
        prefix_sum(clue, i - 1) + clue[i - 1]
    }
}

/// The sum of all run lengths.
pub open spec fn clue_sum(clue: Seq<usize>) -> int {
    prefix_sum(clue, clue.len() as int)
}

/// Where run `i` starts when every run is packed to the left with one cell
/// between runs.
pub open spec fn packed_offset(clue: Seq<usize>, i: int) -> int {
    prefix_sum(clue, i) + i
}

/// The fewest cells the clue needs: its runs with one cell between each two.
pub open spec fn clue_span(clue: Seq<usize>) -> int {
    if clue.len() == 0 {
        0
    } else {
        clue_sum(clue) + clue.len() - 1
    }
}

/// The clue can be placed on a line of `len` cells.
pub open spec fn clue_fits(clue: Seq<usize>, len: int) -> bool {
    clue_span(clue) <= len
}

pub proof fn lemma_prefix_sum_mono(clue: Seq<usize>, i: int, j: int)
    requires
        0 <= i <= j <= clue.len(),
    ensures
        prefix_sum(clue, i) <= prefix_sum(clue, j),
        prefix_sum(clue, i) >= 0,
    decreases j - i,
{
    if i < j {
        lemma_prefix_sum_mono(clue, i, j - 1);
    } else {
        lemma_prefix_sum_nonneg(clue, i);
    }
}

pub proof fn lemma_prefix_sum_nonneg(clue: Seq<usize>, i: int)
    ensures
        prefix_sum(clue, i) >= 0,
    decreases i,
{
    if i > 0 {
        lemma_prefix_sum_nonneg(clue, i - 1);
    }
}

/// The clue suits a line of `len` cells: its runs are positive and fit, and
/// the sizes the passes compute with stay within machine words.
pub open spec fn clue_ok(clue: Seq<usize>, len: int) -> bool {
    &&& clue_fits(clue, len)
    &&& len <= usize::MAX / 8
    &&& len * clue.len() <= usize::MAX
    &&& forall|d: int| 0 <= d < clue.len() ==> clue[d] >= 1
}

/// Whether the clue suits a line of `len` cells.
pub fn check_clue(clue: &[usize], len: usize) -> (r: bool)
    ensures
        r == clue_ok(clue@, len as int),
{
    if len > usize::MAX / 8 {
        return false;
    }
    let k = clue.len();
    if len > 0 && k > usize::MAX / len {
        proof {
            assert(len * k > usize::MAX) by (nonlinear_arith)
                requires
                    len > 0,
                    k > usize::MAX / len,
            ;
        }
        return false;
    }
    proof {
        if len > 0 {
            assert(len * k <= usize::MAX) by (nonlinear_arith)
                requires
                    len > 0,
                    k <= usize::MAX / len,
            ;
        }
    }
    let mut sum: usize = 0;
    let mut i: usize = 0;
    while i < k
        invariant
            k == clue@.len(),
            len <= usize::MAX / 8,
            len * k <= usize::MAX,
            i <= k,
            sum == prefix_sum(clue@, i as int),
            sum <= len + 1,
            forall|d: int| 0 <= d < i ==> clue@[d] >= 1,
        decreases k - i,
    {
        let c = clue[i];
        proof {
            lemma_prefix_sum_mono(clue@, i as int + 1, k as int);
            assert(prefix_sum(clue@, i as int + 1) == sum + c);
        }
        if c == 0 {
            return false;
        }
        if c > len + 1 - sum {
            return false;
        }
        sum = sum + c;
        i = i + 1;
    }
    k == 0 || (sum <= len && k - 1 <= len - sum)
}

} // verus!
