//! Lines: the rows and columns of a grid seen as sequences of cells, with the
//! range predicates and sweeps that the passes are built on.
use crate::parser::Cell;
use crate::puzzle::Axis;
use std::ops::Range;
use vstd::prelude::*;

verus! {

/// Some cell in `a..b` has its filled bit set.
pub open spec fn any_filled(cells: Seq<Cell>, a: int, b: int) -> bool {
    exists|i: int| a <= i < b && #[trigger] cells[i].has_fill()
}

/// Some cell in `a..b` does not have its filled bit set.
pub open spec fn any_unfilled(cells: Seq<Cell>, a: int, b: int) -> bool {
    exists|i: int| a <= i < b && !#[trigger] cells[i].has_fill()
}

/// Some cell in `a..b` does not have its crossed bit set.
pub open spec fn any_uncrossed(cells: Seq<Cell>, a: int, b: int) -> bool {
    exists|i: int| a <= i < b && !#[trigger] cells[i].has_cross()
}

/// The cells with the filled bit set on every index in `a..b`.
pub open spec fn fill_span(cells: Seq<Cell>, a: int, b: int) -> Seq<Cell> {
    Seq::new(cells.len(), |i: int| if a <= i < b { cells[i].filled() } else { cells[i] })
}

/// The cells with the crossed bit set on every index in `a..b`.
pub open spec fn cross_span(cells: Seq<Cell>, a: int, b: int) -> Seq<Cell> {
    Seq::new(cells.len(), |i: int| if a <= i < b { cells[i].crossed() } else { cells[i] })
}

/// `b` keeps every bit that `a` has set: the cells only ever gain bits.
pub open spec fn grows(a: Seq<Cell>, b: Seq<Cell>) -> bool {
    &&& a.len() == b.len()
    &&& forall|i: int| 0 <= i < a.len() && #[trigger] a[i].has_fill() ==> b[i].has_fill()
    &&& forall|i: int| 0 <= i < a.len() && #[trigger] a[i].has_cross() ==> b[i].has_cross()
}

/// No cell in `t..t + n` that lies on the line is crossed.
pub open spec fn window_clear(cells: Seq<Cell>, t: int, n: int) -> bool {
    forall|i: int| t <= i < t + n && 0 <= i < cells.len() ==> !#[trigger] cells[i].has_cross()
}

/// The first `t`, from the given one on, whose window of `n` cells is clear.
pub open spec fn first_clear(cells: Seq<Cell>, t: int, n: int) -> int
    decreases cells.len() - t,
{
    if t >= cells.len() || window_clear(cells, t, n) {
        t
    } else {
        first_clear(cells, t + 1, n)
    }
}

/// The first index, from `f` on, that is off the line or not filled.
pub open spec fn fill_end(cells: Seq<Cell>, f: int) -> int
    decreases cells.len() - f,
{
    if f >= cells.len() || f < 0 || !cells[f].has_fill() {
        f
    } else {
        fill_end(cells, f + 1)
    }
}

/// No cell in the window of `n` cells that ends at `t` (inclusive) is crossed.
pub open spec fn window_clear_ending(cells: Seq<Cell>, t: int, n: int) -> bool {
    window_clear(cells, t - n + 1, n)
}

/// The last `t`, from the given one down, whose window of `n` cells ending
/// at `t` is clear.
pub open spec fn last_clear(cells: Seq<Cell>, t: int, n: int) -> int
    decreases t + 1,
{
    if t < 0 || window_clear_ending(cells, t, n) {
        t
    } else {
        last_clear(cells, t - 1, n)
    }
}

/// The last index, from `f` down, that is off the line or not filled.
pub open spec fn fill_begin(cells: Seq<Cell>, f: int) -> int
    decreases f + 1,
{
    if f < 0 || f >= cells.len() || !cells[f].has_fill() {
        f
    } else {
        fill_begin(cells, f - 1)
    }
}

/// Where the search for a run of `n` starts: one further on when the cell
/// before `s` is filled.
pub open spec fn bump_origin(cells: Seq<Cell>, s: int) -> int {
    if 0 < s <= cells.len() && cells[s - 1].has_fill() {
        s + 1
    } else {
        s
    }
}

/// The start of a run of `n` found from `s`: pushed right past crossed cells
/// until its window is clear, then pulled right past filled cells that follow.
pub open spec fn bump_start_of(cells: Seq<Cell>, s: int, n: int) -> int {
    fill_end(cells, first_clear(cells, bump_origin(cells, s), n) + n) - n
}

/// The exclusive end of a run of `n` whose last cell is searched from `last`
/// down: pushed left past crossed cells, then pulled left past filled cells
/// that precede it.
pub open spec fn bump_last_of(cells: Seq<Cell>, last: int, n: int) -> int {
    if last < 0 {
        last + n + 1
    } else {
        let t = last_clear(cells, last, n);
        let f = if t - n >= -1 { t - n } else { -1 };
        fill_begin(cells, f) + n + 1
    }
}

/// No cell of the line is `Impossible`.
pub open spec fn consistent(cells: Seq<Cell>) -> bool {
    forall|i: int| 0 <= i < cells.len() ==> #[trigger] cells[i] != Cell::Impossible
}

pub proof fn lemma_first_clear(cells: Seq<Cell>, t: int, n: int)
    ensures
        first_clear(cells, t, n) >= t,
        window_clear(cells, first_clear(cells, t, n), n),
        forall|u: int| t <= u < first_clear(cells, t, n) ==> !window_clear(cells, u, n),
        t <= cells.len() ==> first_clear(cells, t, n) <= cells.len(),
        t > cells.len() ==> first_clear(cells, t, n) == t,
    decreases cells.len() - t,
{
    if t < cells.len() && !window_clear(cells, t, n) {
        lemma_first_clear(cells, t + 1, n);
    }
}

pub proof fn lemma_fill_end(cells: Seq<Cell>, f: int)
    ensures
        fill_end(cells, f) >= f,
        forall|g: int| f <= g < fill_end(cells, f) ==> 0 <= g < cells.len() && #[trigger] cells[g].has_fill(),
        fill_end(cells, f) >= cells.len() || fill_end(cells, f) < 0 || !cells[fill_end(cells, f)].has_fill(),
        f <= cells.len() ==> fill_end(cells, f) <= cells.len(),
        f >= cells.len() ==> fill_end(cells, f) == f,
    decreases cells.len() - f,
{
    if f < cells.len() && f >= 0 && cells[f].has_fill() {
        lemma_fill_end(cells, f + 1);
    }
}

pub proof fn lemma_last_clear(cells: Seq<Cell>, t: int, n: int)
    ensures
        last_clear(cells, t, n) <= t,
        last_clear(cells, t, n) >= -1 || last_clear(cells, t, n) == t,
        last_clear(cells, t, n) >= 0 ==> window_clear_ending(cells, last_clear(cells, t, n), n),
        forall|u: int| last_clear(cells, t, n) < u <= t ==> !#[trigger] window_clear_ending(cells, u, n),
    decreases t + 1,
{
    if t >= 0 && !window_clear_ending(cells, t, n) {
        lemma_last_clear(cells, t - 1, n);
    }
}

pub proof fn lemma_fill_begin(cells: Seq<Cell>, f: int)
    ensures
        fill_begin(cells, f) <= f,
        f >= -1 ==> fill_begin(cells, f) >= -1,
        forall|g: int| fill_begin(cells, f) < g <= f ==> 0 <= g < cells.len() && #[trigger] cells[g].has_fill(),
    decreases f + 1,
{
    if f >= 0 && f < cells.len() && cells[f].has_fill() {
        lemma_fill_begin(cells, f - 1);
    }
}

/// `bump_start` is idempotent exactly where the cell before its result is not
/// filled and no cell of the run it found is crossed: restarting the search
/// at the start it found finds that start again.
pub proof fn lemma_bump_start_idempotent(cells: Seq<Cell>, s: int, n: int)
    requires
        n >= 0,
        s >= 0,
        ({
            let r = bump_start_of(cells, s, n);
            (r <= 0 || r > cells.len() || !cells[r - 1].has_fill()) && window_clear(cells, r, n)
        }),
    ensures
        bump_start_of(cells, bump_start_of(cells, s, n), n) == bump_start_of(cells, s, n),
{
    let s0 = bump_origin(cells, s);
    let t = first_clear(cells, s0, n);
    lemma_first_clear(cells, s0, n);
    lemma_fill_end(cells, t + n);
    let fe = fill_end(cells, t + n);
    let r = fe - n;
    assert(bump_origin(cells, r) == r);
    assert(first_clear(cells, r, n) == r);
    lemma_fill_end(cells, fe);
}

/// On a line with no impossible cell, the run that `bump_start` finds covers
/// no crossed cell.
pub proof fn lemma_bump_start_window_clear(cells: Seq<Cell>, s: int, n: int)
    requires
        consistent(cells),
        n >= 0,
        s >= 0,
    ensures
        window_clear(cells, bump_start_of(cells, s, n), n),
{
    let s0 = bump_origin(cells, s);
    let t = first_clear(cells, s0, n);
    lemma_first_clear(cells, s0, n);
    lemma_fill_end(cells, t + n);
    let fe = fill_end(cells, t + n);
    let r = fe - n;
    assert forall|i: int| r <= i < r + n && 0 <= i < cells.len() implies !#[trigger] cells[i].has_cross() by {
        if i >= t + n {
            assert(cells[i].has_fill());
            assert(cells[i] != Cell::Impossible);
        }
    }
}

/// On a line with no impossible cell, `bump_start` is idempotent wherever
/// the cell before its result is not filled.
pub proof fn lemma_bump_start_idempotent_consistent(cells: Seq<Cell>, s: int, n: int)
    requires
        consistent(cells),
        n >= 0,
        s >= 0,
        ({
            let r = bump_start_of(cells, s, n);
            r <= 0 || r > cells.len() || !cells[r - 1].has_fill()
        }),
    ensures
        bump_start_of(cells, bump_start_of(cells, s, n), n) == bump_start_of(cells, s, n),
{
    lemma_bump_start_window_clear(cells, s, n);
    lemma_bump_start_idempotent(cells, s, n);
}

/// A read-only line: a sequence of cells.
pub trait Line {
    /// The cells of the line, in order.
    spec fn cells(&self) -> Seq<Cell>;

    /// The line can be read.
    spec fn inv(&self) -> bool;

    fn len(&self) -> (r: usize)
        requires
            self.inv(),
        ensures
            r == self.cells().len(),
    ;

    fn get(&self, i: usize) -> (r: Cell)
        requires
            self.inv(),
            i < self.cells().len(),
        ensures
            r == self.cells()[i as int],
    ;

    fn is_crossed(&self, i: usize) -> (r: bool)
        requires
            self.inv(),
            i < self.cells().len(),
        ensures
            r == self.cells()[i as int].has_cross(),
    ;

    fn is_filled(&self, i: usize) -> (r: bool)
        requires
            self.inv(),
            i < self.cells().len(),
        ensures
            r == self.cells()[i as int].has_fill(),
    ;

    fn range_contains_filled(&self, r: Range<usize>) -> (b: bool)
        requires
            self.inv(),
            r.end <= self.cells().len(),
        ensures
            b == any_filled(self.cells(), r.start as int, r.end as int),
    {
        let mut i = r.start;
        while i < r.end
            invariant
                self.inv(),
                r.end <= self.cells().len(),
                r.start <= i,
                i <= r.end || i == r.start,
                forall|j: int| r.start <= j < i ==> !#[trigger] self.cells()[j].has_fill(),
            decreases r.end - i,
        {
            if self.is_filled(i) {
                assert(self.cells()[i as int].has_fill());
                return true;
            }
            i = i + 1;
        }
        false
    }

    fn range_contains_unfilled(&self, r: Range<usize>) -> (b: bool)
        requires
            self.inv(),
            r.end <= self.cells().len(),
        ensures
            b == any_unfilled(self.cells(), r.start as int, r.end as int),
    {
        let mut i = r.start;
        while i < r.end
            invariant
                self.inv(),
                r.end <= self.cells().len(),
                r.start <= i,
                i <= r.end || i == r.start,
                forall|j: int| r.start <= j < i ==> #[trigger] self.cells()[j].has_fill(),
            decreases r.end - i,
        {
            if !self.is_filled(i) {
                assert(!self.cells()[i as int].has_fill());
                return true;
            }
            i = i + 1;
        }
        false
    }

    fn range_contains_uncrossed(&self, r: Range<usize>) -> (b: bool)
        requires
            self.inv(),
            r.end <= self.cells().len(),
        ensures
            b == any_uncrossed(self.cells(), r.start as int, r.end as int),
    {
        let mut i = r.start;
        while i < r.end
            invariant
                self.inv(),
                r.end <= self.cells().len(),
                r.start <= i,
                i <= r.end || i == r.start,
                forall|j: int| r.start <= j < i ==> #[trigger] self.cells()[j].has_cross(),
            decreases r.end - i,
        {
            if !self.is_crossed(i) {
                assert(!self.cells()[i as int].has_cross());
                return true;
            }
            i = i + 1;
        }
        false
    }

    /// The earliest start, searching from `start`, of a run of `number` cells.
    fn bump_start(&self, start: usize, number: usize) -> (r: usize)
        requires
            self.inv(),
            start + number + self.cells().len() + 2 <= usize::MAX,
        ensures
            r == bump_start_of(self.cells(), start as int, number as int),
    {
        let ghost cells = self.cells();
        let len = self.len();
        let mut start = if start > 0 && start - 1 < len && self.is_filled(start - 1) {
            start + 1
        } else {
            start
        };
        let ghost s0 = start as int;
        let ghost top = if s0 > len { s0 } else { len as int };
        let mut focus = start;
        while focus < start + number
            invariant
                self.inv(),
                cells == self.cells(),
                len == cells.len(),
                s0 <= start <= focus <= start + number,
                start <= top,
                len <= top,
                top + number + 2 <= usize::MAX,
                forall|u: int| s0 <= u < start ==> !window_clear(cells, u, number as int),
                forall|i: int| start <= i < focus && i < len ==> !#[trigger] cells[i].has_cross(),
            decreases top + number - focus,
        {
            if focus < len && self.is_crossed(focus) {
                assert forall|u: int| start <= u < focus + 1 implies !window_clear(
                    cells,
                    u,
                    number as int,
                ) by {
                    assert(cells[focus as int].has_cross());
                }
                start = focus + 1;
            }
            focus = focus + 1;
        }
        proof {
            lemma_first_clear(cells, s0, number as int);
            let t = first_clear(cells, s0, number as int);
            if t < start {
                assert(!window_clear(cells, t, number as int));
            }
            if start < t {
                assert(!window_clear(cells, start as int, number as int));
            }
            assert(t == start);
        }
        let ghost f0 = focus as int;
        while focus < len && self.is_filled(focus)
            invariant
                self.inv(),
                cells == self.cells(),
                len == cells.len(),
                f0 <= focus,
                f0 <= len ==> focus <= len,
                f0 > len ==> focus == f0,
                fill_end(cells, f0) == fill_end(cells, focus as int),
            decreases len - focus,
        {
            focus = focus + 1;
        }
        proof {
            lemma_fill_end(cells, f0);
        }
        focus - number
    }

    /// The exclusive end of a run of `number` cells whose last cell is
    /// searched from `last` down.
    fn bump_last(&self, last: isize, number: usize) -> (r: isize)
        requires
            self.inv(),
            number <= self.cells().len(),
            self.cells().len() <= isize::MAX / 2,
            isize::MIN / 2 <= last < self.cells().len(),
        ensures
            r == bump_last_of(self.cells(), last as int, number as int),
    {
        let ghost cells = self.cells();
        let len = self.len();
        let number = number as isize;
        let ghost last0 = last as int;
        let mut last = last;
        let mut focus: isize = last;
        while focus >= 0 && focus + number >= last + 1
            invariant
                self.inv(),
                cells == self.cells(),
                len == cells.len(),
                len <= isize::MAX / 2,
                0 <= number <= len,
                isize::MIN / 2 <= last0 < len,
                last0 >= 0 ==> -1 <= focus,
                last0 < 0 ==> focus == last0 && last == last0,
                focus <= last <= last0,
                last0 >= 0 ==> last - number <= focus,
                forall|u: int| last < u <= last0 ==> !#[trigger] window_clear_ending(cells, u, number as int),
                forall|i: int| focus < i <= last && 0 <= i ==> !#[trigger] cells[i].has_cross(),
            decreases focus + 1,
        {
            if self.is_crossed(focus as usize) {
                assert forall|u: int| focus - 1 < u <= last0 && u > focus - 1 && u <= last implies !window_clear_ending(cells, u, number as int) by {
                    assert(cells[focus as int].has_cross());
                }
                last = focus - 1;
            }
            focus = focus - 1;
        }
        proof {
            if last0 >= 0 {
                lemma_last_clear(cells, last0, number as int);
                let t = last_clear(cells, last0, number as int);
                if t > last {
                    assert(!window_clear_ending(cells, t, number as int));
                }
                if t < last && last >= 0 {
                    assert(window_clear_ending(cells, last as int, number as int));
                }
                if last < 0 {
                    assert(last == -1);
                }
                assert(t == last);
            }
        }
        let ghost f0 = focus as int;
        while focus >= 0 && self.is_filled(focus as usize)
            invariant
                self.inv(),
                cells == self.cells(),
                len == cells.len(),
                focus <= f0,
                f0 >= -1 ==> focus >= -1,
                f0 < -1 ==> focus == f0,
                f0 < len,
                fill_begin(cells, f0) == fill_begin(cells, focus as int),
            decreases focus + 1,
        {
            focus = focus - 1;
        }
        focus + number + 1
    }
}

/// A line whose cells can be filled or crossed.
pub trait LineMut: Line {
    /// What the line's writes leave untouched.
    spec fn frame(&self) -> Seq<Seq<Cell>>;

    /// The axis and index of the line in its grid.
    spec fn place(&self) -> (Axis, int);

    fn cross(&mut self, i: usize)
        requires
            old(self).inv(),
            i < old(self).cells().len(),
        ensures
            final(self).inv(),
            final(self).cells() == old(self).cells().update(i as int, old(self).cells()[i as int].crossed()),
            final(self).frame() == old(self).frame(),
            final(self).place() == old(self).place(),
    ;

    fn fill(&mut self, i: usize)
        requires
            old(self).inv(),
            i < old(self).cells().len(),
        ensures
            final(self).inv(),
            final(self).cells() == old(self).cells().update(i as int, old(self).cells()[i as int].filled()),
            final(self).frame() == old(self).frame(),
            final(self).place() == old(self).place(),
    ;

    fn cross_range(&mut self, r: Range<usize>)
        requires
            old(self).inv(),
            r.end <= old(self).cells().len(),
        ensures
            final(self).inv(),
            final(self).cells() == cross_span(old(self).cells(), r.start as int, r.end as int),
            final(self).frame() == old(self).frame(),
            final(self).place() == old(self).place(),
    {
        let ghost c0 = self.cells();
        let ghost f0 = self.frame();
        let ghost place0 = self.place();
        let mut i = r.start;
        while i < r.end
            invariant
                self.inv(),
                r.end <= c0.len(),
                r.start <= i,
                i <= r.end || i == r.start,
                self.cells() == cross_span(c0, r.start as int, i as int),
                self.frame() == f0,
                self.place() == place0,
            decreases r.end - i,
        {
            self.cross(i);
            i = i + 1;
            assert(self.cells() =~= cross_span(c0, r.start as int, i as int));
        }
        assert(self.cells() =~= cross_span(c0, r.start as int, r.end as int));
    }

    fn fill_range(&mut self, r: Range<usize>)
        requires
            old(self).inv(),
            r.end <= old(self).cells().len(),
        ensures
            final(self).inv(),
            final(self).cells() == fill_span(old(self).cells(), r.start as int, r.end as int),
            final(self).frame() == old(self).frame(),
            final(self).place() == old(self).place(),
    {
        let ghost c0 = self.cells();
        let ghost f0 = self.frame();
        let ghost place0 = self.place();
        let mut i = r.start;
        while i < r.end
            invariant
                self.inv(),
                r.end <= c0.len(),
                r.start <= i,
                i <= r.end || i == r.start,
                self.cells() == fill_span(c0, r.start as int, i as int),
                self.frame() == f0,
                self.place() == place0,
            decreases r.end - i,
        {
            self.fill(i);
            i = i + 1;
            assert(self.cells() =~= fill_span(c0, r.start as int, i as int));
        }
        assert(self.cells() =~= fill_span(c0, r.start as int, r.end as int));
    }
}

} // verus!

verus! {

pub proof fn lemma_fill_span(cells: Seq<Cell>, a: int, b: int)
    requires
        0 <= a,
    ensures
        grows(cells, fill_span(cells, a, b)),
        !any_unfilled(fill_span(cells, a, b), a, if b <= cells.len() { b } else { cells.len() as int }),
{
    let r = fill_span(cells, a, b);
    if any_unfilled(r, a, if b <= cells.len() { b } else { cells.len() as int }) {
        let i = choose|i: int| a <= i < (if b <= cells.len() { b } else { cells.len() as int }) && !#[trigger] r[i].has_fill();
        assert(r[i].has_fill());
    }
}

pub proof fn lemma_cross_span(cells: Seq<Cell>, a: int, b: int)
    requires
        0 <= a,
    ensures
        grows(cells, cross_span(cells, a, b)),
        !any_uncrossed(cross_span(cells, a, b), a, if b <= cells.len() { b } else { cells.len() as int }),
{
    let r = cross_span(cells, a, b);
    if any_uncrossed(r, a, if b <= cells.len() { b } else { cells.len() as int }) {
        let i = choose|i: int| a <= i < (if b <= cells.len() { b } else { cells.len() as int }) && !#[trigger] r[i].has_cross();
        assert(r[i].has_cross());
    }
}

/// Growth is transitive, and keeps ranges that were all filled or all crossed.
pub proof fn lemma_grows_trans(a: Seq<Cell>, b: Seq<Cell>, c: Seq<Cell>)
    requires
        grows(a, b),
        grows(b, c),
    ensures
        grows(a, c),
{
}

pub proof fn lemma_grows_keeps(a: Seq<Cell>, b: Seq<Cell>, s: int, e: int)
    requires
        grows(a, b),
        0 <= s,
        e <= a.len(),
    ensures
        !any_unfilled(a, s, e) ==> !any_unfilled(b, s, e),
        !any_uncrossed(a, s, e) ==> !any_uncrossed(b, s, e),
{
    if !any_unfilled(a, s, e) && any_unfilled(b, s, e) {
        let i = choose|i: int| s <= i < e && !#[trigger] b[i].has_fill();
        assert(a[i].has_fill());
    }
    if !any_uncrossed(a, s, e) && any_uncrossed(b, s, e) {
        let i = choose|i: int| s <= i < e && !#[trigger] b[i].has_cross();
        assert(a[i].has_cross());
    }
}

} // verus!

verus! {

/// `bump_start` never moves left, and moves right of the line only from a
/// start that is already there (plus the one cell it steps over).
pub proof fn lemma_bump_start_bounds(cells: Seq<Cell>, s: int, n: int)
    requires
        s >= 0,
        n >= 0,
    ensures
        s <= bump_start_of(cells, s, n),
        bump_start_of(cells, s, n) <= if s + 1 > cells.len() { s + 1 } else { cells.len() as int },
{
    let s0 = bump_origin(cells, s);
    lemma_first_clear(cells, s0, n);
    let t = first_clear(cells, s0, n);
    lemma_fill_end(cells, t + n);
}

/// `bump_last` ends a run no further right than the line's end.
pub proof fn lemma_bump_last_bounds(cells: Seq<Cell>, last: int, n: int)
    requires
        last < cells.len(),
        0 <= n <= cells.len(),
    ensures
        last < 0 ==> bump_last_of(cells, last, n) == last + n + 1,
        last >= 0 ==> n <= bump_last_of(cells, last, n) <= if last + 1 > n { last + 1 } else { n },
        bump_last_of(cells, last, n) <= cells.len(),
{
    if last >= 0 {
        lemma_last_clear(cells, last, n);
        let t = last_clear(cells, last, n);
        let f = if t - n >= -1 { t - n } else { -1 };
        lemma_fill_begin(cells, f);
    }
}

/// The first filled cell in `a..b`, if any.
pub open spec fn first_filled(cells: Seq<Cell>, a: int, b: int) -> Option<int>
    decreases b - a,
{
    if a >= b {
        None
    } else if cells[a].has_fill() {
        Some(a)
    } else {
        first_filled(cells, a + 1, b)
    }
}

/// The last filled cell in `a..b`, if any.
pub open spec fn last_filled(cells: Seq<Cell>, a: int, b: int) -> Option<int>
    decreases b - a,
{
    if a >= b {
        None
    } else if cells[b - 1].has_fill() {
        Some(b - 1)
    } else {
        last_filled(cells, a, b - 1)
    }
}

pub proof fn lemma_first_filled(cells: Seq<Cell>, a: int, b: int)
    ensures
        first_filled(cells, a, b) matches Some(x) ==> a <= x < b && cells[x].has_fill(),
    decreases b - a,
{
    if a < b && !cells[a].has_fill() {
        lemma_first_filled(cells, a + 1, b);
    }
}

pub proof fn lemma_last_filled(cells: Seq<Cell>, a: int, b: int)
    ensures
        last_filled(cells, a, b) matches Some(x) ==> a <= x < b && cells[x].has_fill(),
    decreases b - a,
{
    if a < b && !cells[b - 1].has_fill() {
        lemma_last_filled(cells, a, b - 1);
    }
}

/// The first filled cell in `a..b`, if any.
pub fn find_first_filled<L: Line>(line: &L, a: usize, b: usize) -> (r: Option<usize>)
    requires
        line.inv(),
        b <= line.cells().len(),
    ensures
        r matches Some(x) ==> first_filled(line.cells(), a as int, b as int) == Some(x as int),
        r is None ==> first_filled(line.cells(), a as int, b as int) is None,
{
    let mut i = a;
    while i < b
        invariant
            line.inv(),
            b <= line.cells().len(),
            a <= i,
            i <= b || i == a,
            first_filled(line.cells(), a as int, b as int) == first_filled(line.cells(), i as int, b as int),
        decreases b - i,
    {
        if line.is_filled(i) {
            return Some(i);
        }
        i = i + 1;
    }
    None
}

/// The last filled cell in `a..b`, if any.
pub fn find_last_filled<L: Line>(line: &L, a: usize, b: usize) -> (r: Option<usize>)
    requires
        line.inv(),
        b <= line.cells().len(),
    ensures
        r matches Some(x) ==> last_filled(line.cells(), a as int, b as int) == Some(x as int),
        r is None ==> last_filled(line.cells(), a as int, b as int) is None,
{
    let mut j = b;
    while j > a
        invariant
            line.inv(),
            b <= line.cells().len(),
            j <= b,
            last_filled(line.cells(), a as int, b as int) == last_filled(line.cells(), a as int, j as int),
        decreases j,
    {
        if line.is_filled(j - 1) {
            return Some(j - 1);
        }
        j = j - 1;
    }
    None
}

} // verus!

verus! {

/// The cells of a line, for display.
pub struct LineView<'a, L: Line>(pub &'a L);

impl<'a, L: Line> LineView<'a, L> {
    /// The line's cells as text: `#` filled, `x` crossed, `.` undecided, `!`
    /// impossible.
    pub fn to_text(&self) -> (r: Vec<u8>)
        requires
            self.0.inv(),
        ensures
            r@ == crate::parser::grid_line_text(self.0.cells()),
    {
        let len = self.0.len();
        let mut out: Vec<u8> = Vec::new();
        let mut i: usize = 0;
        while i < len
            invariant
                self.0.inv(),
                len == self.0.cells().len(),
                i <= len,
                out@ =~= crate::parser::grid_line_text(self.0.cells().subrange(0, i as int)),
            decreases len - i,
        {
            out.push(self.0.get(i).to_char());
            i = i + 1;
            assert(out@ =~= crate::parser::grid_line_text(self.0.cells().subrange(0, i as int)));
        }
        assert(self.0.cells().subrange(0, len as int) =~= self.0.cells());
        out
    }
}

/// A display view of any line.
pub trait LineExt: Line + Sized {
    fn view(&self) -> (r: LineView<'_, Self>)
        ensures
            r.0 == self,
    {
        LineView(self)
    }
}

impl<'a> LineExt for crate::puzzle::HorzLine<'a> {}

impl<'a> LineExt for crate::puzzle::VertLine<'a> {}

impl<'a> LineExt for crate::puzzle::HorzLineMut<'a> {}

impl<'a> LineExt for crate::puzzle::VertLineMut<'a> {}

} // verus!

verus! {

/// `bump_start` never passes a legal start `t` of a run of `n` at or after
/// the search's start: one whose window is clear, that lies on the line, is
/// not followed by a filled cell, and, when the search starts at it, is not
/// preceded by one.
pub proof fn lemma_bump_start_at_most(cells: Seq<Cell>, s: int, n: int, t: int)
    requires
        0 <= s <= t,
        n >= 0,
        t + n <= cells.len(),
        window_clear(cells, t, n),
        t + n < cells.len() ==> !cells[t + n].has_fill(),
        s == t && t > 0 ==> !cells[t - 1].has_fill(),
    ensures
        bump_start_of(cells, s, n) <= t,
{
    let s0 = bump_origin(cells, s);
    assert(s0 <= t);
    lemma_first_clear(cells, s0, n);
    let fc = first_clear(cells, s0, n);
    if fc > t {
        assert(!window_clear(cells, t, n));
    }
    lemma_fill_end(cells, fc + n);
    let fe = fill_end(cells, fc + n);
    if fe > t + n {
        assert(t + n < cells.len() && cells[t + n].has_fill());
    }
}

/// `bump_last` never ends a run before the end of a legal run `t..t + n`
/// whose last cell is at or before the search's start: one whose window is
/// clear, that lies on the line, and is not preceded by a filled cell.
pub proof fn lemma_bump_last_at_least(cells: Seq<Cell>, last: int, n: int, t: int)
    requires
        n >= 0,
        0 <= t,
        t + n <= cells.len(),
        window_clear(cells, t, n),
        last >= t + n - 1,
        t > 0 ==> !cells[t - 1].has_fill(),
    ensures
        bump_last_of(cells, last, n) >= t + n,
{
    if last >= 0 {
        lemma_last_clear(cells, last, n);
        let lc = last_clear(cells, last, n);
        assert(window_clear_ending(cells, t + n - 1, n));
        if lc < t + n - 1 {
            assert(!window_clear_ending(cells, t + n - 1, n));
        }
        let f = if lc - n >= -1 {
            lc - n
        } else {
            -1
        };
        lemma_fill_begin(cells, f);
        let fb = fill_begin(cells, f);
        if fb < t - 1 {
            assert(cells[t - 1].has_fill());
        }
    }
}

} // verus!

