//! The grid of cells, its row and column views, and the puzzle that owns it.
use crate::bitset::{
    bit, bits_of, bitset_contains, bitset_put, bitset_with_capacity,
};
use crate::clue::{check_clue, clue_ok};
use crate::hint::{applied_all, LineHint, LinePass};
use crate::line::{Line, LineMut};
use crate::parser;
use crate::parser::{grid_line_of, Cell, ClueList, GridLine, NonoParser};
use fixedbitset::FixedBitSet;
use vstd::prelude::*;

verus! {

/// The direction in which a grid is scanned.
#[derive(Clone, Copy, Debug, PartialEq, Eq, Structural)]
pub enum Axis {
    Horz,
    Vert,
}

impl Axis {
    /// The axis with the given index: 0 is horizontal, 1 vertical.
    pub fn get(index: usize) -> (r: Option<Axis>)
        ensures
            index == 0 ==> r == Some(Axis::Horz),
            index == 1 ==> r == Some(Axis::Vert),
            index > 1 ==> r.is_none(),
    {
        if index == 0 {
            Some(Axis::Horz)
        } else if index == 1 {
            Some(Axis::Vert)
        } else {
            None
        }
    }
}

/// A `width` by `height` grid, stored as two bit sets indexed by `y * width + x`.
pub struct Grid {
    pub width: usize,
    pub height: usize,
    pub filled: FixedBitSet,
    pub crossed: FixedBitSet,
}

impl Grid {
    /// Both bit sets hold one bit per cell.
    pub open spec fn wf(&self) -> bool {
        &&& self.width * self.height <= usize::MAX
        &&& bits_of(self.filled).len() == self.width * self.height
        &&& bits_of(self.crossed).len() == self.width * self.height
    }

    /// The cell at `(x, y)`.
    pub open spec fn cell(&self, x: int, y: int) -> Cell {
        let i = y * self.width + x;
        Cell::from_bits(bit(self.filled, i), bit(self.crossed, i))
    }

    /// The cells of row `y`, left to right.
    pub open spec fn row(&self, y: int) -> Seq<Cell> {
        Seq::new(self.width as nat, |x: int| self.cell(x, y))
    }

    /// The cells of column `x`, top to bottom.
    pub open spec fn column(&self, x: int) -> Seq<Cell> {
        Seq::new(self.height as nat, |y: int| self.cell(x, y))
    }

    /// The cells of the given line of the given axis.
    pub open spec fn line(&self, axis: Axis, index: int) -> Seq<Cell> {
        match axis {
            Axis::Horz => self.row(index),
            Axis::Vert => self.column(index),
        }
    }

    /// The number of lines along the given axis.
    pub open spec fn lines(&self, axis: Axis) -> nat {
        match axis {
            Axis::Horz => self.height as nat,
            Axis::Vert => self.width as nat,
        }
    }

    /// A grid of undecided cells.
    pub fn new(width: usize, height: usize) -> (r: Grid)
        requires
            width * height <= usize::MAX,
        ensures
            r.wf(),
            r.width == width,
            r.height == height,
            forall|x: int, y: int| 0 <= x < width && 0 <= y < height ==> #[trigger] r.cell(x, y) == Cell::Undecided,
    {
        let r = Grid {
            width,
            height,
            filled: bitset_with_capacity(width * height),
            crossed: bitset_with_capacity(width * height),
        };
        r
    }

    /// A mutable view of row `y`.
    pub fn horz_mut(&mut self, y: usize) -> (r: HorzLineMut<'_>)
        requires
            old(self).wf(),
            y < old(self).height,
        ensures
            r.inv(),
            *r.grid == *old(self),
            r.y == y,
            *final(self) == *final(r.grid),
    {
        HorzLineMut { grid: self, y }
    }

    /// A mutable view of column `x`.
    pub fn vert_mut(&mut self, x: usize) -> (r: VertLineMut<'_>)
        requires
            old(self).wf(),
            x < old(self).width,
        ensures
            r.inv(),
            *r.grid == *old(self),
            r.x == x,
            *final(self) == *final(r.grid),
    {
        VertLineMut { grid: self, x }
    }

    fn index(&self, x: usize, y: usize) -> (r: usize)
        requires
            self.wf(),
            x < self.width,
            y < self.height,
        ensures
            r == y * self.width + x,
            r < self.width * self.height,
    {
        proof {
            assert(y * self.width + x < self.width * self.height) by (nonlinear_arith)
                requires
                    x < self.width,
                    y < self.height,
            ;
        }
        y * self.width + x
    }

    /// The cell at `(x, y)`.
    pub fn get(&self, x: usize, y: usize) -> (r: Cell)
        requires
            self.wf(),
            x < self.width,
            y < self.height,
        ensures
            r == self.cell(x as int, y as int),
    {
        let i = self.index(x, y);
        Cell::of_bits(bitset_contains(&self.filled, i), bitset_contains(&self.crossed, i))
    }

    /// Sets the filled bit of the cell at `(x, y)`; returns whether it was clear.
    pub fn fill(&mut self, x: usize, y: usize) -> (r: bool)
        requires
            old(self).wf(),
            x < old(self).width,
            y < old(self).height,
        ensures
            final(self).wf(),
            final(self).width == old(self).width,
            final(self).height == old(self).height,
            r == !old(self).cell(x as int, y as int).has_fill(),
            forall|a: int, b: int|
                0 <= a < old(self).width && 0 <= b < old(self).height ==> #[trigger] final(self).cell(a, b)
                    == if a == x && b == y {
                    old(self).cell(a, b).filled()
                } else {
                    old(self).cell(a, b)
                },
    {
        let i = self.index(x, y);
        let old_value = bitset_put(&mut self.filled, i);
        proof {
            self.lemma_index_unique(x as int, y as int);
        }
        !old_value
    }

    /// Sets the crossed bit of the cell at `(x, y)`; returns whether it was clear.
    pub fn cross(&mut self, x: usize, y: usize) -> (r: bool)
        requires
            old(self).wf(),
            x < old(self).width,
            y < old(self).height,
        ensures
            final(self).wf(),
            final(self).width == old(self).width,
            final(self).height == old(self).height,
            r == !old(self).cell(x as int, y as int).has_cross(),
            forall|a: int, b: int|
                0 <= a < old(self).width && 0 <= b < old(self).height ==> #[trigger] final(self).cell(a, b)
                    == if a == x && b == y {
                    old(self).cell(a, b).crossed()
                } else {
                    old(self).cell(a, b)
                },
    {
        let i = self.index(x, y);
        let old_value = bitset_put(&mut self.crossed, i);
        proof {
            self.lemma_index_unique(x as int, y as int);
        }
        !old_value
    }

    proof fn lemma_index_unique(&self, x: int, y: int)
        requires
            0 <= x < self.width,
            0 <= y < self.height,
        ensures
            forall|a: int, b: int|
                0 <= a < self.width && 0 <= b < self.height && (a != x || b != y) ==> #[trigger] (b
                    * self.width + a) != y * self.width + x,
            forall|a: int, b: int|
                0 <= a < self.width && 0 <= b < self.height ==> 0 <= #[trigger] (b * self.width + a)
                    < self.width * self.height,
    {
        assert forall|a: int, b: int|
            0 <= a < self.width && 0 <= b < self.height && (a != x || b != y) implies #[trigger] (b
                * self.width + a) != y * self.width + x by {
            if b == y {
            } else if b < y {
                assert(b * self.width + a < y * self.width + x) by (nonlinear_arith)
                    requires
                        b < y,
                        0 <= a < self.width,
                        0 <= x,
                ;
            } else {
                assert(b * self.width + a > y * self.width + x) by (nonlinear_arith)
                    requires
                        b > y,
                        0 <= x < self.width,
                        0 <= a,
                ;
            }
        }
        assert forall|a: int, b: int|
            0 <= a < self.width && 0 <= b < self.height implies 0 <= #[trigger] (b * self.width + a)
                < self.width * self.height by {
            assert(0 <= b * self.width + a < self.width * self.height) by (nonlinear_arith)
                requires
                    0 <= a < self.width,
                    0 <= b < self.height,
            ;
        }
    }

    /// Whether the cell at `(x, y)` has its crossed bit set.
    pub fn is_crossed(&self, x: usize, y: usize) -> (r: bool)
        requires
            self.wf(),
            x < self.width,
            y < self.height,
        ensures
            r == self.cell(x as int, y as int).has_cross(),
    {
        let i = self.index(x, y);
        bitset_contains(&self.crossed, i)
    }

    /// Whether the cell at `(x, y)` has its filled bit set.
    pub fn is_filled(&self, x: usize, y: usize) -> (r: bool)
        requires
            self.wf(),
            x < self.width,
            y < self.height,
        ensures
            r == self.cell(x as int, y as int).has_fill(),
    {
        let i = self.index(x, y);
        bitset_contains(&self.filled, i)
    }
}

/// Row `y` of a grid, read-only.
pub struct HorzLine<'a> {
    pub grid: &'a Grid,
    pub y: usize,
}

impl<'a> Line for HorzLine<'a> {
    open spec fn cells(&self) -> Seq<Cell> {
        self.grid.row(self.y as int)
    }

    open spec fn inv(&self) -> bool {
        self.grid.wf() && self.y < self.grid.height
    }

    fn len(&self) -> (r: usize) {
        self.grid.width
    }

    fn get(&self, x: usize) -> (r: Cell) {
        self.grid.get(x, self.y)
    }

    fn is_crossed(&self, x: usize) -> (r: bool) {
        self.grid.is_crossed(x, self.y)
    }

    fn is_filled(&self, x: usize) -> (r: bool) {
        self.grid.is_filled(x, self.y)
    }
}

/// Column `x` of a grid, read-only.
pub struct VertLine<'a> {
    pub grid: &'a Grid,
    pub x: usize,
}

impl<'a> Line for VertLine<'a> {
    open spec fn cells(&self) -> Seq<Cell> {
        self.grid.column(self.x as int)
    }

    open spec fn inv(&self) -> bool {
        self.grid.wf() && self.x < self.grid.width
    }

    fn len(&self) -> (r: usize) {
        self.grid.height
    }

    fn get(&self, y: usize) -> (r: Cell) {
        self.grid.get(self.x, y)
    }

    fn is_crossed(&self, y: usize) -> (r: bool) {
        self.grid.is_crossed(self.x, y)
    }

    fn is_filled(&self, y: usize) -> (r: bool) {
        self.grid.is_filled(self.x, y)
    }
}

/// Row `y` of a grid, writable.
pub struct HorzLineMut<'a> {
    pub grid: &'a mut Grid,
    pub y: usize,
}

impl<'a> Line for HorzLineMut<'a> {
    open spec fn cells(&self) -> Seq<Cell> {
        self.grid.row(self.y as int)
    }

    open spec fn inv(&self) -> bool {
        self.grid.wf() && self.y < self.grid.height
    }

    fn len(&self) -> (r: usize) {
        self.grid.width
    }

    fn get(&self, x: usize) -> (r: Cell) {
        self.grid.get(x, self.y)
    }

    fn is_crossed(&self, x: usize) -> (r: bool) {
        self.grid.is_crossed(x, self.y)
    }

    fn is_filled(&self, x: usize) -> (r: bool) {
        self.grid.is_filled(x, self.y)
    }
}

impl<'a> LineMut for HorzLineMut<'a> {
    open spec fn place(&self) -> (Axis, int) {
        (Axis::Horz, self.y as int)
    }

    /// The cells of every other row.
    open spec fn frame(&self) -> Seq<Seq<Cell>> {
        Seq::new(
            self.grid.height as nat,
            |b: int|
                if b == self.y {
                    Seq::empty()
                } else {
                    self.grid.row(b)
                },
        )
    }

    fn cross(&mut self, x: usize) {
        self.grid.cross(x, self.y);
        assert(self.cells() =~= old(self).cells().update(x as int, old(self).cells()[x as int].crossed()));
        assert(self.frame() =~~= old(self).frame());
    }

    fn fill(&mut self, x: usize) {
        self.grid.fill(x, self.y);
        assert(self.cells() =~= old(self).cells().update(x as int, old(self).cells()[x as int].filled()));
        assert(self.frame() =~~= old(self).frame());
    }
}

/// Column `x` of a grid, writable.
pub struct VertLineMut<'a> {
    pub grid: &'a mut Grid,
    pub x: usize,
}

impl<'a> Line for VertLineMut<'a> {
    open spec fn cells(&self) -> Seq<Cell> {
        self.grid.column(self.x as int)
    }

    open spec fn inv(&self) -> bool {
        self.grid.wf() && self.x < self.grid.width
    }

    fn len(&self) -> (r: usize) {
        self.grid.height
    }

    fn get(&self, y: usize) -> (r: Cell) {
        self.grid.get(self.x, y)
    }

    fn is_crossed(&self, y: usize) -> (r: bool) {
        self.grid.is_crossed(self.x, y)
    }

    fn is_filled(&self, y: usize) -> (r: bool) {
        self.grid.is_filled(self.x, y)
    }
}

impl<'a> LineMut for VertLineMut<'a> {
    open spec fn place(&self) -> (Axis, int) {
        (Axis::Vert, self.x as int)
    }

    /// The cells of every other column.
    open spec fn frame(&self) -> Seq<Seq<Cell>> {
        Seq::new(
            self.grid.width as nat,
            |a: int|
                if a == self.x {
                    Seq::empty()
                } else {
                    self.grid.column(a)
                },
        )
    }

    fn cross(&mut self, y: usize) {
        self.grid.cross(self.x, y);
        assert(self.cells() =~= old(self).cells().update(y as int, old(self).cells()[y as int].crossed()));
        assert(self.frame() =~~= old(self).frame());
    }

    fn fill(&mut self, y: usize) {
        self.grid.fill(self.x, y);
        assert(self.cells() =~= old(self).cells().update(y as int, old(self).cells()[y as int].filled()));
        assert(self.frame() =~~= old(self).frame());
    }
}

/// Why a written puzzle was refused.
#[derive(Clone, Copy, Debug, PartialEq, Eq, Structural)]
pub enum PuzzleError {
    /// Grid line `line` (counted from 1) holds `actual` cells, not `expected`.
    GridLineWidth { line: usize, expected: usize, actual: usize },
    /// The grid holds `actual` lines, not `expected`.
    GridHeight { expected: usize, actual: usize },
    /// The grid is too large to index.
    TooLarge,
    /// The clue of the given line cannot be placed on it.
    IllFormedClue { axis: Axis, line: usize },
}

/// A puzzle: one clue per column, one per row, and the grid.
pub struct Puzzle {
    pub vert_clues: ClueList,
    pub horz_clues: ClueList,
    pub grid: Grid,
}

/// The grid's sizes can be stored and indexed.
pub open spec fn size_ok(w: int, h: int) -> bool {
    w <= usize::MAX / 8 && h <= usize::MAX / 8 && w * h <= usize::MAX
}

/// Every grid line holds `w` cells.
pub open spec fn widths_ok(g: Seq<Seq<Cell>>, w: int) -> bool {
    forall|i: int| 0 <= i < g.len() ==> #[trigger] g[i].len() == w
}

/// The written grid, if any, has the shape the clues give.
pub open spec fn shape_ok(ast: parser::Puzzle) -> bool {
    ast.grid matches Some(g) ==> widths_ok(g@, ast.vert_clues@.len() as int) && g@.len()
        == ast.horz_clues@.len()
}

/// Every clue of the list suits a line of `len` cells.
pub open spec fn clues_ok(clues: Seq<Seq<usize>>, len: int) -> bool {
    forall|i: int| 0 <= i < clues.len() ==> #[trigger] clue_ok(clues[i], len)
}

impl Puzzle {
    /// The clues match the grid's sizes and suit their lines.
    pub open spec fn wf(&self) -> bool {
        &&& self.grid.wf()
        &&& size_ok(self.grid.width as int, self.grid.height as int)
        &&& self.vert_clues@.len() == self.grid.width
        &&& self.horz_clues@.len() == self.grid.height
        &&& clues_ok(self.vert_clues@, self.grid.height as int)
        &&& clues_ok(self.horz_clues@, self.grid.width as int)
    }

    /// The clues of the given axis.
    pub open spec fn clues(&self, axis: Axis) -> Seq<Seq<usize>> {
        match axis {
            Axis::Horz => self.horz_clues@,
            Axis::Vert => self.vert_clues@,
        }
    }

    /// No cell is undecided.
    pub open spec fn complete(&self) -> bool {
        forall|x: int, y: int|
            0 <= x < self.grid.width && 0 <= y < self.grid.height ==> #[trigger] self.grid.cell(x, y)
                != Cell::Undecided
    }

    /// Whether no cell is undecided.
    pub fn is_complete(&self) -> (r: bool)
        requires
            self.wf(),
        ensures
            r == self.complete(),
    {
        let mut y: usize = 0;
        while y < self.grid.height
            invariant
                self.wf(),
                y <= self.grid.height,
                forall|a: int, b: int|
                    0 <= a < self.grid.width && 0 <= b < y ==> #[trigger] self.grid.cell(a, b) != Cell::Undecided,
            decreases self.grid.height - y,
        {
            let mut x: usize = 0;
            while x < self.grid.width
                invariant
                    self.wf(),
                    y < self.grid.height,
                    x <= self.grid.width,
                    forall|a: int, b: int|
                        0 <= a < self.grid.width && 0 <= b < y ==> #[trigger] self.grid.cell(a, b) != Cell::Undecided,
                    forall|a: int| 0 <= a < x ==> #[trigger] self.grid.cell(a, y as int) != Cell::Undecided,
                decreases self.grid.width - x,
            {
                if self.grid.get(x, y) == Cell::Undecided {
                    return false;
                }
                x = x + 1;
            }
            y = y + 1;
        }
        true
    }

    /// The first impossible cell, row by row, if any: the mark of two hints
    /// that disagreed.
    pub fn find_impossible(&self) -> (r: Option<(usize, usize)>)
        requires
            self.wf(),
        ensures
            r matches Some((x, y)) ==> {
                &&& x < self.grid.width
                &&& y < self.grid.height
                &&& self.grid.cell(x as int, y as int) == Cell::Impossible
                &&& forall|a: int, b: int|
                    0 <= a < self.grid.width && 0 <= b < self.grid.height && (b < y || (b == y && a < x))
                        ==> #[trigger] self.grid.cell(a, b) != Cell::Impossible
            },
            r is None ==> forall|a: int, b: int|
                0 <= a < self.grid.width && 0 <= b < self.grid.height ==> #[trigger] self.grid.cell(a, b)
                    != Cell::Impossible,
    {
        let mut y: usize = 0;
        while y < self.grid.height
            invariant
                self.wf(),
                y <= self.grid.height,
                forall|a: int, b: int|
                    0 <= a < self.grid.width && 0 <= b < y ==> #[trigger] self.grid.cell(a, b) != Cell::Impossible,
            decreases self.grid.height - y,
        {
            let mut x: usize = 0;
            while x < self.grid.width
                invariant
                    self.wf(),
                    y < self.grid.height,
                    x <= self.grid.width,
                    forall|a: int, b: int|
                        0 <= a < self.grid.width && 0 <= b < y ==> #[trigger] self.grid.cell(a, b) != Cell::Impossible,
                    forall|a: int| 0 <= a < x ==> #[trigger] self.grid.cell(a, y as int) != Cell::Impossible,
                decreases self.grid.width - x,
            {
                if self.grid.get(x, y) == Cell::Impossible {
                    return Some((x, y));
                }
                x = x + 1;
            }
            y = y + 1;
        }
        None
    }

    /// The puzzle of a written one: its grid, or an undecided one when none is
    /// written. Fails on the first check that does not hold: each grid line's
    /// width, the number of grid lines, the grid's size, then each column's
    /// clue and each row's clue.
    pub fn try_from_ast(ast: parser::Puzzle) -> (r: Result<Puzzle, PuzzleError>)
        ensures
            r matches Err(PuzzleError::GridLineWidth { line, expected, actual }) ==> ast.grid matches Some(g) && {
                &&& 1 <= line <= g@.len()
                &&& expected == ast.vert_clues@.len()
                &&& actual == g@[line - 1].len()
                &&& actual != expected
                &&& widths_ok(g@.subrange(0, line - 1), expected as int)
            },
            r matches Err(PuzzleError::GridHeight { expected, actual }) ==> ast.grid matches Some(g) && {
                &&& widths_ok(g@, ast.vert_clues@.len() as int)
                &&& expected == ast.horz_clues@.len()
                &&& actual == g@.len()
                &&& actual != expected
            },
            r matches Err(PuzzleError::TooLarge) ==> shape_ok(ast) && !size_ok(
                ast.vert_clues@.len() as int,
                ast.horz_clues@.len() as int,
            ),
            r matches Err(PuzzleError::IllFormedClue { axis, line }) ==> {
                &&& shape_ok(ast)
                &&& size_ok(ast.vert_clues@.len() as int, ast.horz_clues@.len() as int)
                &&& axis == Axis::Vert ==> {
                    &&& line < ast.vert_clues@.len()
                    &&& !clue_ok(ast.vert_clues@[line as int], ast.horz_clues@.len() as int)
                    &&& clues_ok(ast.vert_clues@.subrange(0, line as int), ast.horz_clues@.len() as int)
                }
                &&& axis == Axis::Horz ==> {
                    &&& clues_ok(ast.vert_clues@, ast.horz_clues@.len() as int)
                    &&& line < ast.horz_clues@.len()
                    &&& !clue_ok(ast.horz_clues@[line as int], ast.vert_clues@.len() as int)
                    &&& clues_ok(ast.horz_clues@.subrange(0, line as int), ast.vert_clues@.len() as int)
                }
            },
            r matches Ok(p) ==> {
                &&& shape_ok(ast)
                &&& p.wf()
                &&& p.vert_clues@ == ast.vert_clues@
                &&& p.horz_clues@ == ast.horz_clues@
                &&& forall|x: int, y: int|
                    0 <= x < p.grid.width && 0 <= y < p.grid.height ==> #[trigger] p.grid.cell(x, y)
                        == match ast.grid {
                        Some(g) => g@[y][x],
                        None => Cell::Undecided,
                    }
            },
    {
        let w = ast.vert_clues.0.len();
        let h = ast.horz_clues.0.len();
        if let Some(grid) = &ast.grid {
            let mut i: usize = 0;
            while i < grid.0.len()
                invariant
                    ast.grid == Some(*grid),
                    i <= grid@.len(),
                    grid@.len() == grid.0@.len(),
                    w == ast.vert_clues@.len(),
                    widths_ok(grid@.subrange(0, i as int), w as int),
                decreases grid.0@.len() - i,
            {
                assert(grid@[i as int] == grid.0@[i as int]@);
                if w != grid.0[i].0.len() {
                    return Err(PuzzleError::GridLineWidth { line: i + 1, expected: w, actual: grid.0[i].0.len() });
                }
                i = i + 1;
                assert forall|j: int| 0 <= j < i implies #[trigger] grid@.subrange(0, i as int)[j].len() == w by {
                    if j < i - 1 {
                        assert(grid@.subrange(0, i - 1)[j] == grid@.subrange(0, i as int)[j]);
                    }
                }
            }
            assert(grid@.subrange(0, grid@.len() as int) =~= grid@);
            if h != grid.0.len() {
                return Err(PuzzleError::GridHeight { expected: h, actual: grid.0.len() });
            }
        }
        if w > usize::MAX / 8 || h > usize::MAX / 8 || (w > 0 && h > usize::MAX / w) {
            proof {
                if w > 0 && h > usize::MAX / w {
                    assert(w * h > usize::MAX) by (nonlinear_arith)
                        requires
                            w > 0,
                            h > usize::MAX / w,
                    ;
                }
            }
            return Err(PuzzleError::TooLarge);
        }
        proof {
            if w > 0 {
                assert(w * h <= usize::MAX) by (nonlinear_arith)
                    requires
                        w > 0,
                        h <= usize::MAX / w,
                ;
            }
        }
        let mut x: usize = 0;
        while x < w
            invariant
                w == ast.vert_clues@.len(),
                h == ast.horz_clues@.len(),
                shape_ok(ast),
                size_ok(w as int, h as int),
                x <= w,
                clues_ok(ast.vert_clues@.subrange(0, x as int), h as int),
            decreases w - x,
        {
            assert(ast.vert_clues@[x as int] == ast.vert_clues.0@[x as int]@);
            if !check_clue(ast.vert_clues.0[x].0.as_slice(), h) {
                return Err(PuzzleError::IllFormedClue { axis: Axis::Vert, line: x });
            }
            x = x + 1;
            assert forall|j: int| 0 <= j < x implies #[trigger] clue_ok(ast.vert_clues@.subrange(0, x as int)[j], h as int) by {
                if j < x - 1 {
                    assert(ast.vert_clues@.subrange(0, x - 1)[j] == ast.vert_clues@.subrange(0, x as int)[j]);
                }
            }
        }
        assert(ast.vert_clues@.subrange(0, w as int) =~= ast.vert_clues@);
        let mut y: usize = 0;
        while y < h
            invariant
                w == ast.vert_clues@.len(),
                h == ast.horz_clues@.len(),
                shape_ok(ast),
                size_ok(w as int, h as int),
                clues_ok(ast.vert_clues@, h as int),
                y <= h,
                clues_ok(ast.horz_clues@.subrange(0, y as int), w as int),
            decreases h - y,
        {
            assert(ast.horz_clues@[y as int] == ast.horz_clues.0@[y as int]@);
            if !check_clue(ast.horz_clues.0[y].0.as_slice(), w) {
                return Err(PuzzleError::IllFormedClue { axis: Axis::Horz, line: y });
            }
            y = y + 1;
            assert forall|j: int| 0 <= j < y implies #[trigger] clue_ok(ast.horz_clues@.subrange(0, y as int)[j], w as int) by {
                if j < y - 1 {
                    assert(ast.horz_clues@.subrange(0, y - 1)[j] == ast.horz_clues@.subrange(0, y as int)[j]);
                }
            }
        }
        assert(ast.horz_clues@.subrange(0, h as int) =~= ast.horz_clues@);
        let mut grid = Grid::new(w, h);
        if let Some(g) = &ast.grid {
            let mut y: usize = 0;
            while y < h
                invariant
                    grid.wf(),
                    grid.width == w,
                    grid.height == h,
                    g@.len() == h,
                    widths_ok(g@, w as int),
                    y <= h,
                    forall|a: int, b: int|
                        0 <= a < w && 0 <= b < h ==> #[trigger] grid.cell(a, b) == if b < y {
                            g@[b][a]
                        } else {
                            Cell::Undecided
                        },
                decreases h - y,
            {
                let line = &g.0[y];
                assert(line@ == g@[y as int]);
                let mut x: usize = 0;
                while x < w
                    invariant
                        grid.wf(),
                        grid.width == w,
                        grid.height == h,
                        g@.len() == h,
                        y < h,
                        line@ == g@[y as int],
                        line@.len() == w,
                        x <= w,
                        forall|a: int, b: int|
                            0 <= a < w && 0 <= b < h ==> #[trigger] grid.cell(a, b) == if b < y || (b == y && a
                                < x) {
                                g@[b][a]
                            } else {
                                Cell::Undecided
                            },
                    decreases w - x,
                {
                    match line.0[x] {
                        Cell::Filled => {
                            grid.fill(x, y);
                        },
                        Cell::Crossed => {
                            grid.cross(x, y);
                        },
                        Cell::Impossible => {
                            grid.fill(x, y);
                            grid.cross(x, y);
                        },
                        Cell::Undecided => {},
                    }
                    x = x + 1;
                }
                y = y + 1;
            }
        }
        let p = Puzzle { vert_clues: ast.vert_clues, horz_clues: ast.horz_clues, grid };
        Ok(p)
    }

    /// The written form of the puzzle, without its grid.
    pub fn into_ast_without_grid(self) -> (r: parser::Puzzle)
        ensures
            r.vert_clues@ == self.vert_clues@,
            r.horz_clues@ == self.horz_clues@,
            r.grid is None,
    {
        parser::Puzzle { vert_clues: self.vert_clues, horz_clues: self.horz_clues, grid: None }
    }

    /// The written form of the puzzle, with its grid.
    pub fn as_ast(&self) -> (r: parser::Puzzle)
        requires
            self.wf(),
        ensures
            r.vert_clues@ == self.vert_clues@,
            r.horz_clues@ == self.horz_clues@,
            r.grid matches Some(g) && g@.len() == self.grid.height && forall|y: int|
                0 <= y < self.grid.height ==> #[trigger] g@[y] == self.grid.row(y),
    {
        let h = self.grid.height;
        let w = self.grid.width;
        let mut grid_lines: Vec<GridLine> = Vec::new();
        let mut y: usize = 0;
        while y < h
            invariant
                self.wf(),
                h == self.grid.height,
                w == self.grid.width,
                y <= h,
                grid_lines@.len() == y,
                forall|b: int| 0 <= b < y ==> #[trigger] grid_lines@[b]@ == self.grid.row(b),
            decreases h - y,
        {
            let mut cells: Vec<Cell> = Vec::new();
            let mut x: usize = 0;
            while x < w
                invariant
                    self.wf(),
                    h == self.grid.height,
                    w == self.grid.width,
                    y < h,
                    x <= w,
                    cells@ =~= self.grid.row(y as int).subrange(0, x as int),
                decreases w - x,
            {
                cells.push(self.grid.get(x, y));
                x = x + 1;
                assert(cells@ =~= self.grid.row(y as int).subrange(0, x as int));
            }
            assert(cells@ =~= self.grid.row(y as int));
            grid_lines.push(GridLine(cells));
            y = y + 1;
        }
        let g = parser::Grid(grid_lines);
        assert forall|b: int| 0 <= b < h implies #[trigger] g@[b] == self.grid.row(b) by {}
        parser::Puzzle {
            vert_clues: self.vert_clues.copy(),
            horz_clues: self.horz_clues.copy(),
            grid: Some(g),
        }
    }
}

/// `b` keeps every bit that `a` has set.
pub open spec fn cell_grows(a: Cell, b: Cell) -> bool {
    (a.has_fill() ==> b.has_fill()) && (a.has_cross() ==> b.has_cross())
}

/// `b` has the sizes of `a` and keeps every bit that `a` has set.
pub open spec fn grid_grows(a: Grid, b: Grid) -> bool {
    &&& a.width == b.width
    &&& a.height == b.height
    &&& forall|x: int, y: int|
        0 <= x < a.width && 0 <= y < a.height ==> cell_grows(#[trigger] a.cell(x, y), b.cell(x, y))
}

pub proof fn lemma_grid_grows_trans(a: Grid, b: Grid, c: Grid)
    requires
        grid_grows(a, b),
        grid_grows(b, c),
    ensures
        grid_grows(a, c),
{
    assert forall|x: int, y: int| 0 <= x < a.width && 0 <= y < a.height implies cell_grows(
        #[trigger] a.cell(x, y),
        c.cell(x, y),
    ) by {
        assert(cell_grows(a.cell(x, y), b.cell(x, y)));
        assert(cell_grows(b.cell(x, y), c.cell(x, y)));
    }
}

/// A line hint placed on a puzzle: the axis and index of its line.
#[derive(Debug)]
pub struct Hint<H: LineHint> {
    pub axis: Axis,
    pub line: usize,
    pub line_hint: H,
}

impl<H: LineHint> Hint<H> {
    /// The hint names a line of the puzzle, and fits it.
    pub open spec fn fits(&self, puzzle: &Puzzle) -> bool {
        &&& self.line < puzzle.grid.lines(self.axis)
        &&& self.line_hint.fits(puzzle.grid.line(self.axis, self.line as int).len())
    }

    /// Writes the hint into its line of the puzzle; the other lines and the
    /// clues stay as they were.
    pub fn apply(&self, puzzle: &mut Puzzle)
        requires
            old(puzzle).wf(),
            self.fits(old(puzzle)),
        ensures
            final(puzzle).wf(),
            final(puzzle).vert_clues@ == old(puzzle).vert_clues@,
            final(puzzle).horz_clues@ == old(puzzle).horz_clues@,
            final(puzzle).grid.width == old(puzzle).grid.width,
            final(puzzle).grid.height == old(puzzle).grid.height,
            final(puzzle).grid.line(self.axis, self.line as int) == self.line_hint.applied(
                old(puzzle).grid.line(self.axis, self.line as int),
            ),
            forall|i: int|
                0 <= i < old(puzzle).grid.lines(self.axis) && i != self.line
                    ==> #[trigger] final(puzzle).grid.line(self.axis, i) == old(puzzle).grid.line(self.axis, i),
            grid_grows(old(puzzle).grid, final(puzzle).grid),
    {
        let mut grid = Grid::new(0, 0);
        core::mem::swap(&mut puzzle.grid, &mut grid);
        let mut line = AxisLine { grid, axis: self.axis, index: self.line };
        assert(line.grid == old(puzzle).grid);
        let ghost f0 = line.frame();
        let ghost c0 = line.cells();
        assert(line.inv());
        self.line_hint.apply(&mut line);
        assert(line.frame() == f0);
        assert(line.cells() == self.line_hint.applied(c0));
        assert(line.axis == self.axis && line.index == self.line);
        proof {
            self.line_hint.lemma_applied(c0);
            assert forall|i: int| 0 <= i < old(puzzle).grid.lines(self.axis) && i != self.line implies #[trigger] line.grid.line(
                self.axis,
                i,
            ) == old(puzzle).grid.line(self.axis, i) by {
                assert(line.frame()[i] == f0[i]);
            }
        }
        proof {
            let g0 = old(puzzle).grid;
            let g1 = line.grid;
            assert forall|x: int, y: int| 0 <= x < g0.width && 0 <= y < g0.height implies cell_grows(
                #[trigger] g0.cell(x, y),
                g1.cell(x, y),
            ) by {
                let c1 = g1.line(self.axis, self.line as int);
                if self.axis == Axis::Horz {
                    if y == self.line {
                        assert(c0[x] == g0.cell(x, y));
                        assert(c1[x] == g1.cell(x, y));
                        assert(c0[x].has_fill() ==> c1[x].has_fill());
                        assert(c0[x].has_cross() ==> c1[x].has_cross());
                    } else {
                        assert(g1.line(self.axis, y) == g0.line(self.axis, y));
                        assert(g0.row(y)[x] == g0.cell(x, y));
                        assert(g1.row(y)[x] == g1.cell(x, y));
                    }
                } else {
                    if x == self.line {
                        assert(c0[y] == g0.cell(x, y));
                        assert(c1[y] == g1.cell(x, y));
                        assert(c0[y].has_fill() ==> c1[y].has_fill());
                        assert(c0[y].has_cross() ==> c1[y].has_cross());
                    } else {
                        assert(g1.line(self.axis, x) == g0.line(self.axis, x));
                        assert(g0.column(x)[y] == g0.cell(x, y));
                        assert(g1.column(x)[y] == g1.cell(x, y));
                    }
                }
            }
        }
        core::mem::swap(&mut puzzle.grid, &mut line.grid);
    }
}

/// A line of a grid that the line holds while it is written.
pub struct AxisLine {
    pub grid: Grid,
    pub axis: Axis,
    pub index: usize,
}

impl Line for AxisLine {
    open spec fn cells(&self) -> Seq<Cell> {
        self.grid.line(self.axis, self.index as int)
    }

    open spec fn inv(&self) -> bool {
        self.grid.wf() && self.index < self.grid.lines(self.axis)
    }

    fn len(&self) -> (r: usize) {
        match self.axis {
            Axis::Horz => self.grid.width,
            Axis::Vert => self.grid.height,
        }
    }

    fn get(&self, i: usize) -> (r: Cell) {
        match self.axis {
            Axis::Horz => self.grid.get(i, self.index),
            Axis::Vert => self.grid.get(self.index, i),
        }
    }

    fn is_crossed(&self, i: usize) -> (r: bool) {
        match self.axis {
            Axis::Horz => self.grid.is_crossed(i, self.index),
            Axis::Vert => self.grid.is_crossed(self.index, i),
        }
    }

    fn is_filled(&self, i: usize) -> (r: bool) {
        match self.axis {
            Axis::Horz => self.grid.is_filled(i, self.index),
            Axis::Vert => self.grid.is_filled(self.index, i),
        }
    }
}

impl LineMut for AxisLine {
    open spec fn place(&self) -> (Axis, int) {
        (self.axis, self.index as int)
    }

    /// The cells of every other line of the axis, and the grid's sizes.
    open spec fn frame(&self) -> Seq<Seq<Cell>> {
        Seq::new(
            self.grid.lines(self.axis),
            |i: int|
                if i == self.index {
                    Seq::new(self.grid.lines(self.axis), |j: int| Cell::Undecided)
                } else {
                    self.grid.line(self.axis, i)
                },
        )
    }

    fn cross(&mut self, i: usize) {
        match self.axis {
            Axis::Horz => {
                self.grid.cross(i, self.index);
            },
            Axis::Vert => {
                self.grid.cross(self.index, i);
            },
        }
        assert(self.cells() =~= old(self).cells().update(i as int, old(self).cells()[i as int].crossed()));
        assert(self.frame() =~~= old(self).frame());
    }

    fn fill(&mut self, i: usize) {
        match self.axis {
            Axis::Horz => {
                self.grid.fill(i, self.index);
            },
            Axis::Vert => {
                self.grid.fill(self.index, i);
            },
        }
        assert(self.cells() =~= old(self).cells().update(i as int, old(self).cells()[i as int].filled()));
        assert(self.frame() =~~= old(self).frame());
    }
}

/// The line hints of the hints placed on line `i`, in order.
pub open spec fn line_hints<H: LineHint>(hints: Seq<Hint<H>>, i: int) -> Seq<H>
    decreases hints.len(),
{
    if hints.len() == 0 {
        Seq::empty()
    } else {
        let rest = line_hints(hints.drop_last(), i);
        if hints.last().line == i {
            rest.push(hints.last().line_hint)
        } else {
            rest
        }
    }
}

/// A pass run over every line of an axis of a puzzle.
pub trait LinePassExt: LinePass + Sized {
    /// The hints for every column, column by column: those of each column
    /// are what the pass derives from its clue and cells.
    fn run_vert(&self, puzzle: &Puzzle) -> (r: Vec<Hint<Self::Hint>>)
        requires
            puzzle.wf(),
        ensures
            forall|i: int| 0 <= i < r@.len() ==> (#[trigger] r@[i]).axis == Axis::Vert && r@[i].fits(puzzle),
            forall|x: int|
                0 <= x < puzzle.grid.width ==> self.derives(
                    puzzle.vert_clues@[x],
                    puzzle.grid.column(x),
                    #[trigger] line_hints(r@, x),
                ),
    {
        let mut hints: Vec<Hint<Self::Hint>> = Vec::new();
        let mut x: usize = 0;
        while x < puzzle.vert_clues.0.len()
            invariant
                puzzle.wf(),
                    x <= puzzle.grid.width,
                forall|i: int| 0 <= i < hints@.len() ==> (#[trigger] hints@[i]).axis == Axis::Vert && hints@[i].fits(puzzle),
                forall|a: int|
                    0 <= a < x ==> self.derives(
                        puzzle.vert_clues@[a],
                        puzzle.grid.column(a),
                        #[trigger] line_hints(hints@, a),
                    ),
                forall|a: int| x <= a ==> #[trigger] line_hints(hints@, a) == Seq::<Self::Hint>::empty(),
            decreases puzzle.grid.width - x,
        {
            let line = VertLine { grid: &puzzle.grid, x };
            let clue = puzzle.vert_clues.0[x].0.as_slice();
            assert(clue@ == puzzle.vert_clues@[x as int]);
            assert(clue_ok(clue@, puzzle.grid.height as int));
            let mut found = match self.run(clue, &line) {
                Ok(found) => found,
                Err(_) => Vec::new(),
            };
            let ghost all = found@;
            let ghost start = hints@;
            while found.len() > 0
                invariant
                    puzzle.wf(),
                    x < puzzle.grid.width,
                    line.x == x,
                    line.grid == &puzzle.grid,
                    all.len() == line_hints(hints@, x as int).len() + found@.len(),
                    line_hints(hints@, x as int) == all.subrange(0, all.len() - found@.len()),
                    found@ == all.subrange(all.len() - found@.len(), all.len() as int),
                    forall|i: int| 0 <= i < all.len() ==> #[trigger] all[i].fits(line.cells().len()),
                    forall|a: int| a != x ==> #[trigger] line_hints(hints@, a) == line_hints(start, a),
                    forall|i: int| 0 <= i < hints@.len() ==> (#[trigger] hints@[i]).axis == Axis::Vert && hints@[i].fits(puzzle),
                decreases found@.len(),
            {
                let ghost before = hints@;
                let ghost rest = found@;
                let h = found.remove(0);
                assert(rest[0] == all[all.len() - rest.len()]);
                assert(all[all.len() - rest.len()].fits(line.cells().len()));
                hints.push(Hint { axis: Axis::Vert, line: x, line_hint: h });
                assert(hints@.drop_last() == before);
                assert forall|a: int| a != x implies #[trigger] line_hints(hints@, a) == line_hints(start, a) by {
                    assert(line_hints(hints@, a) == line_hints(before, a));
                }
                assert forall|i: int| 0 <= i < hints@.len() implies (#[trigger] hints@[i]).axis == Axis::Vert
                    && hints@[i].fits(puzzle) by {
                    if i < before.len() {
                        assert(hints@[i] == before[i]);
                    }
                }
                assert(line_hints(hints@, x as int) =~= all.subrange(0, all.len() - found@.len()));
                assert(found@ =~= all.subrange(all.len() - found@.len(), all.len() as int));
            }
            assert(line_hints(hints@, x as int) =~= all);
            x = x + 1;
        }
        hints
    }

    /// The hints for every row, row by row: those of each row
    /// are what the pass derives from its clue and cells.
    fn run_horz(&self, puzzle: &Puzzle) -> (r: Vec<Hint<Self::Hint>>)
        requires
            puzzle.wf(),
        ensures
            forall|i: int| 0 <= i < r@.len() ==> (#[trigger] r@[i]).axis == Axis::Horz && r@[i].fits(puzzle),
            forall|x: int|
                0 <= x < puzzle.grid.height ==> self.derives(
                    puzzle.horz_clues@[x],
                    puzzle.grid.row(x),
                    #[trigger] line_hints(r@, x),
                ),
    {
        let mut hints: Vec<Hint<Self::Hint>> = Vec::new();
        let mut x: usize = 0;
        while x < puzzle.horz_clues.0.len()
            invariant
                puzzle.wf(),
                    x <= puzzle.grid.height,
                forall|i: int| 0 <= i < hints@.len() ==> (#[trigger] hints@[i]).axis == Axis::Horz && hints@[i].fits(puzzle),
                forall|a: int|
                    0 <= a < x ==> self.derives(
                        puzzle.horz_clues@[a],
                        puzzle.grid.row(a),
                        #[trigger] line_hints(hints@, a),
                    ),
                forall|a: int| x <= a ==> #[trigger] line_hints(hints@, a) == Seq::<Self::Hint>::empty(),
            decreases puzzle.grid.height - x,
        {
            let line = HorzLine { grid: &puzzle.grid, y: x };
            let clue = puzzle.horz_clues.0[x].0.as_slice();
            assert(clue@ == puzzle.horz_clues@[x as int]);
            assert(clue_ok(clue@, puzzle.grid.width as int));
            let mut found = match self.run(clue, &line) {
                Ok(found) => found,
                Err(_) => Vec::new(),
            };
            let ghost all = found@;
            let ghost start = hints@;
            while found.len() > 0
                invariant
                    puzzle.wf(),
                    x < puzzle.grid.height,
                    line.y == x,
                    line.grid == &puzzle.grid,
                    all.len() == line_hints(hints@, x as int).len() + found@.len(),
                    line_hints(hints@, x as int) == all.subrange(0, all.len() - found@.len()),
                    found@ == all.subrange(all.len() - found@.len(), all.len() as int),
                    forall|i: int| 0 <= i < all.len() ==> #[trigger] all[i].fits(line.cells().len()),
                    forall|a: int| a != x ==> #[trigger] line_hints(hints@, a) == line_hints(start, a),
                    forall|i: int| 0 <= i < hints@.len() ==> (#[trigger] hints@[i]).axis == Axis::Horz && hints@[i].fits(puzzle),
                decreases found@.len(),
            {
                let ghost before = hints@;
                let ghost rest = found@;
                let h = found.remove(0);
                assert(rest[0] == all[all.len() - rest.len()]);
                assert(all[all.len() - rest.len()].fits(line.cells().len()));
                hints.push(Hint { axis: Axis::Horz, line: x, line_hint: h });
                assert(hints@.drop_last() == before);
                assert forall|a: int| a != x implies #[trigger] line_hints(hints@, a) == line_hints(start, a) by {
                    assert(line_hints(hints@, a) == line_hints(before, a));
                }
                assert forall|i: int| 0 <= i < hints@.len() implies (#[trigger] hints@[i]).axis == Axis::Horz
                    && hints@[i].fits(puzzle) by {
                    if i < before.len() {
                        assert(hints@[i] == before[i]);
                    }
                }
                assert(line_hints(hints@, x as int) =~= all.subrange(0, all.len() - found@.len()));
                assert(found@ =~= all.subrange(all.len() - found@.len(), all.len() as int));
            }
            assert(line_hints(hints@, x as int) =~= all);
            x = x + 1;
        }
        hints
    }

    /// The hints for every line of the given axis.
    fn run_puzzle(&self, axis: &Axis, puzzle: &Puzzle) -> (r: Vec<Hint<Self::Hint>>)
        requires
            puzzle.wf(),
        ensures
            forall|i: int| 0 <= i < r@.len() ==> (#[trigger] r@[i]).axis == *axis && r@[i].fits(puzzle),
            forall|x: int|
                0 <= x < puzzle.grid.lines(*axis) ==> self.derives(
                    puzzle.clues(*axis)[x],
                    puzzle.grid.line(*axis, x),
                    #[trigger] line_hints(r@, x),
                ),
    {
        match axis {
            Axis::Vert => self.run_vert(puzzle),
            Axis::Horz => self.run_horz(puzzle),
        }
    }

    /// Runs the pass over every line of the axis, then applies the hints in
    /// order; returns them.
    fn apply(&self, axis: &Axis, puzzle: &mut Puzzle) -> (r: Vec<Hint<Self::Hint>>)
        requires
            old(puzzle).wf(),
        ensures
            final(puzzle).wf(),
            final(puzzle).vert_clues@ == old(puzzle).vert_clues@,
            final(puzzle).horz_clues@ == old(puzzle).horz_clues@,
            grid_grows(old(puzzle).grid, final(puzzle).grid),
            forall|i: int| 0 <= i < r@.len() ==> (#[trigger] r@[i]).axis == *axis && r@[i].fits(old(puzzle)),
            forall|x: int|
                0 <= x < old(puzzle).grid.lines(*axis) ==> self.derives(
                    old(puzzle).clues(*axis)[x],
                    old(puzzle).grid.line(*axis, x),
                    #[trigger] line_hints(r@, x),
                ),
            forall|x: int|
                0 <= x < old(puzzle).grid.lines(*axis) ==> #[trigger] final(puzzle).grid.line(*axis, x)
                    == applied_all(line_hints(r@, x), old(puzzle).grid.line(*axis, x)),
    {
        let hints = self.run_puzzle(axis, puzzle);
        let mut i: usize = 0;
        while i < hints.len()
            invariant
                puzzle.wf(),
                puzzle.vert_clues@ == old(puzzle).vert_clues@,
                puzzle.horz_clues@ == old(puzzle).horz_clues@,
                grid_grows(old(puzzle).grid, puzzle.grid),
                i <= hints@.len(),
                forall|j: int| 0 <= j < hints@.len() ==> (#[trigger] hints@[j]).axis == *axis && hints@[j].fits(old(puzzle)),
                puzzle.grid.width == old(puzzle).grid.width,
                puzzle.grid.height == old(puzzle).grid.height,
                forall|x: int|
                    0 <= x < old(puzzle).grid.lines(*axis) ==> #[trigger] puzzle.grid.line(*axis, x) == applied_all(
                        line_hints(hints@.subrange(0, i as int), x),
                        old(puzzle).grid.line(*axis, x),
                    ),
            decreases hints@.len() - i,
        {
            let ghost g = puzzle.grid;
            let ghost h = hints@[i as int];
            assert(h.fits(old(puzzle)));
            hints[i].apply(puzzle);
            proof {
                lemma_grid_grows_trans(old(puzzle).grid, g, puzzle.grid);
                let prefix = hints@.subrange(0, i as int);
                let next = hints@.subrange(0, i + 1);
                assert(next.drop_last() =~= prefix);
                assert(next.last() == h);
                assert forall|x: int| 0 <= x < old(puzzle).grid.lines(*axis) implies #[trigger] puzzle.grid.line(
                    *axis,
                    x,
                ) == applied_all(line_hints(next, x), old(puzzle).grid.line(*axis, x)) by {
                    if x == h.line {
                        assert(line_hints(next, x) == line_hints(prefix, x).push(h.line_hint));
                        assert(line_hints(prefix, x).push(h.line_hint).drop_last() =~= line_hints(prefix, x));
                        assert(g.line(*axis, x) == applied_all(line_hints(prefix, x), old(puzzle).grid.line(*axis, x)));
                    } else {
                        assert(line_hints(next, x) == line_hints(prefix, x));
                        assert(g.line(*axis, x) == applied_all(line_hints(prefix, x), old(puzzle).grid.line(*axis, x)));
                    }
                }
            }
            i = i + 1;
        }
        assert(hints@.subrange(0, hints@.len() as int) =~= hints@);
        hints
    }
}

impl LinePassExt for crate::crowded_clue::CrowdedCluePass {}

impl LinePassExt for crate::continuous_range::ContinuousRangePass {}

impl LinePassExt for crate::discrete_range::DiscreteRangePass {}

/// How cells are drawn.
#[derive(Clone, Copy, Debug, PartialEq, Eq, Structural)]
pub enum Theme {
    Ascii,
    Unicode,
    Brief,
}

impl Theme {
    /// The character of a crossed cell.
    pub fn crossed(&self) -> (r: char)
        ensures
            r == match self {
                Theme::Ascii => '.',
                Theme::Unicode => '\u{2a09}',
                Theme::Brief => 'E',
            },
    {
        match self {
            Theme::Ascii => '.',
            Theme::Unicode => '\u{2a09}',
            Theme::Brief => 'E',
        }
    }

    /// The character of a filled cell.
    pub fn filled(&self) -> (r: char)
        ensures
            r == match self {
                Theme::Ascii => '#',
                Theme::Unicode => '\u{25a0}',
                Theme::Brief => 'E',
            },
    {
        match self {
            Theme::Ascii => '#',
            Theme::Unicode => '\u{25a0}',
            Theme::Brief => 'E',
        }
    }

    /// The character of an impossible cell.
    pub fn impossible(&self) -> (r: char)
        ensures
            r == match self {
                Theme::Ascii => '!',
                Theme::Unicode => '!',
                Theme::Brief => 'E',
            },
    {
        match self {
            Theme::Ascii => '!',
            Theme::Unicode => '!',
            Theme::Brief => 'E',
        }
    }

    /// The character of an undecided cell.
    pub fn undecided(&self) -> (r: char)
        ensures
            r == match self {
                Theme::Ascii => ' ',
                Theme::Unicode => '\u{b7}',
                Theme::Brief => 'E',
            },
    {
        match self {
            Theme::Ascii => ' ',
            Theme::Unicode => '\u{b7}',
            Theme::Brief => 'E',
        }
    }

    /// The character of the given cell.
    pub fn cell(&self, cell: Cell) -> (r: char)
        ensures
            r == match cell {
                Cell::Crossed => match self {
                    Theme::Ascii => '.',
                    Theme::Unicode => '\u{2a09}',
                    Theme::Brief => 'E',
                },
                Cell::Filled => match self {
                    Theme::Ascii => '#',
                    Theme::Unicode => '\u{25a0}',
                    Theme::Brief => 'E',
                },
                Cell::Impossible => match self {
                    Theme::Ascii => '!',
                    Theme::Unicode => '!',
                    Theme::Brief => 'E',
                },
                Cell::Undecided => match self {
                    Theme::Ascii => ' ',
                    Theme::Unicode => '\u{b7}',
                    Theme::Brief => 'E',
                },
            },
    {
        match cell {
            Cell::Crossed => self.crossed(),
            Cell::Filled => self.filled(),
            Cell::Impossible => self.impossible(),
            Cell::Undecided => self.undecided(),
        }
    }
}

/// A grid of one row, written as a grid line; `None` when the text is not one.
pub fn line_grid(s: &[u8]) -> (r: Option<Grid>)
    ensures
        r matches Some(g) ==> grid_line_of(s@) matches Some(cells) && {
            &&& g.wf()
            &&& g.height == 1
            &&& g.row(0) == cells
        },
        r is None ==> grid_line_of(s@) is None,
{
    let line = match NonoParser::grid_line(s) {
        Some(line) => line,
        None => {
            return None;
        },
    };
    let w = line.0.len();
    let mut grid = Grid::new(w, 1);
    let mut x: usize = 0;
    while x < w
        invariant
            grid.wf(),
            grid.width == w,
            grid.height == 1,
            line@.len() == w,
            x <= w,
            forall|a: int| 0 <= a < w ==> #[trigger] grid.cell(a, 0) == if a < x {
                line@[a]
            } else {
                Cell::Undecided
            },
        decreases w - x,
    {
        match line.0[x] {
            Cell::Filled => {
                grid.fill(x, 0);
            },
            Cell::Crossed => {
                grid.cross(x, 0);
            },
            Cell::Impossible => {
                grid.fill(x, 0);
                grid.cross(x, 0);
            },
            Cell::Undecided => {},
        }
        x = x + 1;
    }
    assert(grid.row(0) =~= line@);
    Some(grid)
}

} // verus!
