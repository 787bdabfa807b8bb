//! The puzzle text format: cells, clues, grid lines, and whole puzzles.
use crate::text::{
    decimal, free_of, is_digit, join, lemma_decimal, lemma_number_of_decimal, lemma_split_join, number_of,
    parse_number, split, split_bytes, write_decimal, write_joined,
};
use vstd::prelude::*;

verus! {

/// The state of one cell: two independent bits, `filled` and `crossed`.
#[derive(Clone, Copy, Debug, PartialEq, Eq, Structural)]
pub enum Cell {
    Filled,
    Crossed,
    Undecided,
    Impossible,
}

impl Cell {
    /// Whether the cell's filled bit is set.
    pub open spec fn has_fill(self) -> bool {
        self == Cell::Filled || self == Cell::Impossible
    }

    /// Whether the cell's crossed bit is set.
    pub open spec fn has_cross(self) -> bool {
        self == Cell::Crossed || self == Cell::Impossible
    }

    /// The cell with the given bits.
    pub open spec fn from_bits(filled: bool, crossed: bool) -> Cell {
        if filled && crossed {
            Cell::Impossible
        } else if filled {
            Cell::Filled
        } else if crossed {
            Cell::Crossed
        } else {
            Cell::Undecided
        }
    }

    /// The cell after its filled bit is set.
    pub open spec fn filled(self) -> Cell {
        Cell::from_bits(true, self.has_cross())
    }

    /// The cell after its crossed bit is set.
    pub open spec fn crossed(self) -> Cell {
        Cell::from_bits(self.has_fill(), true)
    }

    /// The cell with the given bits.
    pub fn of_bits(filled: bool, crossed: bool) -> (r: Cell)
        ensures
            r == Cell::from_bits(filled, crossed),
            r.has_fill() == filled,
            r.has_cross() == crossed,
    {
        match (filled, crossed) {
            (false, false) => Cell::Undecided,
            (false, true) => Cell::Crossed,
            (true, false) => Cell::Filled,
            (true, true) => Cell::Impossible,
        }
    }
}

/// The run lengths of one line.
#[derive(Clone, Debug, PartialEq, Eq)]
pub struct Clue(pub Vec<usize>);

/// One clue per line of an axis.
#[derive(Clone, Debug, PartialEq, Eq)]
pub struct ClueList(pub Vec<Clue>);

/// The cells of one grid row.
#[derive(Clone, Debug, PartialEq, Eq)]
pub struct GridLine(pub Vec<Cell>);

/// The rows of a grid.
#[derive(Clone, Debug, PartialEq, Eq)]
pub struct Grid(pub Vec<GridLine>);

/// A puzzle as written: the column clues, the row clues, and optionally the
/// grid.
#[derive(Clone, Debug, PartialEq, Eq)]
pub struct Puzzle {
    pub vert_clues: ClueList,
    pub horz_clues: ClueList,
    pub grid: Option<Grid>,
}

impl Clue {
    pub open spec fn view(&self) -> Seq<usize> {
        self.0@
    }
}

impl ClueList {
    pub open spec fn view(&self) -> Seq<Seq<usize>> {
        Seq::new(self.0@.len(), |i: int| self.0@[i]@)
    }
}

impl GridLine {
    pub open spec fn view(&self) -> Seq<Cell> {
        self.0@
    }
}

impl Grid {
    pub open spec fn view(&self) -> Seq<Seq<Cell>> {
        Seq::new(self.0@.len(), |i: int| self.0@[i]@)
    }
}

impl Clue {
    /// A copy of the clue.
    pub fn copy(&self) -> (r: Clue)
        ensures
            r@ == self@,
    {
        let mut v: Vec<usize> = Vec::new();
        let mut i: usize = 0;
        while i < self.0.len()
            invariant
                i <= self.0@.len(),
                v@ == self.0@.subrange(0, i as int),
            decreases self.0@.len() - i,
        {
            v.push(self.0[i]);
            i = i + 1;
            assert(v@ =~= self.0@.subrange(0, i as int));
        }
        assert(v@ =~= self.0@);
        Clue(v)
    }
}

impl ClueList {
    /// A copy of the clue list.
    pub fn copy(&self) -> (r: ClueList)
        ensures
            r@ == self@,
    {
        let mut v: Vec<Clue> = Vec::new();
        let mut i: usize = 0;
        while i < self.0.len()
            invariant
                i <= self.0@.len(),
                v@.len() == i,
                forall|j: int| 0 <= j < i ==> #[trigger] v@[j]@ == self.0@[j]@,
            decreases self.0@.len() - i,
        {
            v.push(self.0[i].copy());
            i = i + 1;
        }
        let r = ClueList(v);
        assert(r@ =~= self@);
        r
    }
}

/// The cell a character stands for: `#` filled, `x` crossed, `.` undecided,
/// `!` impossible.
pub open spec fn cell_of(c: u8) -> Option<Cell> {
    if c == 35 {
        Some(Cell::Filled)
    } else if c == 120 {
        Some(Cell::Crossed)
    } else if c == 46 {
        Some(Cell::Undecided)
    } else if c == 33 {
        Some(Cell::Impossible)
    } else {
        None
    }
}

/// The character of a cell.
pub open spec fn cell_char(c: Cell) -> u8 {
    match c {
        Cell::Filled => 35,
        Cell::Crossed => 120,
        Cell::Undecided => 46,
        Cell::Impossible => 33,
    }
}

/// A clue: empty, or numbers separated by `,`.
pub open spec fn clue_of(b: Seq<u8>) -> Option<Seq<usize>> {
    let parts = split(b, 44);
    if b.len() == 0 {
        Some(Seq::empty())
    } else if forall|i: int| 0 <= i < parts.len() ==> (#[trigger] number_of(parts[i])) is Some {
        Some(Seq::new(parts.len(), |i: int| number_of(parts[i])->0))
    } else {
        None
    }
}

/// A clue list: clues separated by `;`.
pub open spec fn clue_list_of(b: Seq<u8>) -> Option<Seq<Seq<usize>>> {
    let parts = split(b, 59);
    if forall|i: int| 0 <= i < parts.len() ==> (#[trigger] clue_of(parts[i])) is Some {
        Some(Seq::new(parts.len(), |i: int| clue_of(parts[i])->0))
    } else {
        None
    }
}

/// A grid line: one or more cell characters.
pub open spec fn grid_line_of(b: Seq<u8>) -> Option<Seq<Cell>> {
    if b.len() > 0 && forall|i: int| 0 <= i < b.len() ==> (#[trigger] cell_of(b[i])) is Some {
        Some(Seq::new(b.len(), |i: int| cell_of(b[i])->0))
    } else {
        None
    }
}

/// A grid: grid lines separated by `;`.
pub open spec fn grid_of(b: Seq<u8>) -> Option<Seq<Seq<Cell>>> {
    let parts = split(b, 59);
    if forall|i: int| 0 <= i < parts.len() ==> (#[trigger] grid_line_of(parts[i])) is Some {
        Some(Seq::new(parts.len(), |i: int| grid_line_of(parts[i])->0))
    } else {
        None
    }
}

/// The text of a clue.
pub open spec fn clue_text(c: Seq<usize>) -> Seq<u8> {
    join(Seq::new(c.len(), |i: int| decimal(c[i] as nat)), 44)
}

/// The text of a clue list.
pub open spec fn clue_list_text(l: Seq<Seq<usize>>) -> Seq<u8> {
    join(Seq::new(l.len(), |i: int| clue_text(l[i])), 59)
}

/// The text of a grid line.
pub open spec fn grid_line_text(cells: Seq<Cell>) -> Seq<u8> {
    Seq::new(cells.len(), |i: int| cell_char(cells[i]))
}

/// The text of a grid.
pub open spec fn grid_text(g: Seq<Seq<Cell>>) -> Seq<u8> {
    join(Seq::new(g.len(), |i: int| grid_line_text(g[i])), 59)
}

/// The puzzle text format.
pub struct NonoParser;

impl NonoParser {
    /// The cell a character stands for.
    pub fn cell(c: u8) -> (r: Option<Cell>)
        ensures
            r == cell_of(c),
    {
        if c == 35 {
            Some(Cell::Filled)
        } else if c == 120 {
            Some(Cell::Crossed)
        } else if c == 46 {
            Some(Cell::Undecided)
        } else if c == 33 {
            Some(Cell::Impossible)
        } else {
            None
        }
    }

    /// Reads a clue.
    pub fn clue(b: &[u8]) -> (r: Option<Clue>)
        ensures
            r matches Some(c) ==> clue_of(b@) == Some(c@),
            r is None ==> clue_of(b@) is None,
    {
        if b.len() == 0 {
            return Some(Clue(Vec::new()));
        }
        let parts = split_bytes(b, 44);
        let ghost sp = split(b@, 44);
        let mut numbers: Vec<usize> = Vec::new();
        let mut i: usize = 0;
        while i < parts.len()
            invariant
                b@.len() > 0,
                sp == split(b@, 44),
                parts@.len() == sp.len(),
                forall|j: int| 0 <= j < parts@.len() ==> #[trigger] parts@[j]@ == sp[j],
                i <= parts@.len(),
                numbers@.len() == i,
                forall|j: int| 0 <= j < i ==> (#[trigger] number_of(sp[j])) == Some(numbers@[j]),
            decreases parts@.len() - i,
        {
            assert(parts@[i as int]@ == sp[i as int]);
            match parse_number(parts[i].as_slice()) {
                Some(n) => {
                    numbers.push(n);
                },
                None => {
                    assert(number_of(sp[i as int]) is None);
                    return None;
                },
            }
            i = i + 1;
        }
        let c = Clue(numbers);
        assert(c@ =~= Seq::new(sp.len(), |j: int| number_of(sp[j])->0));
        Some(c)
    }

    /// Reads a clue list.
    pub fn clue_list(b: &[u8]) -> (r: Option<ClueList>)
        ensures
            r matches Some(l) ==> clue_list_of(b@) == Some(l@),
            r is None ==> clue_list_of(b@) is None,
    {
        let parts = split_bytes(b, 59);
        let ghost sp = split(b@, 59);
        let mut clues: Vec<Clue> = Vec::new();
        let mut i: usize = 0;
        while i < parts.len()
            invariant
                sp == split(b@, 59),
                parts@.len() == sp.len(),
                forall|j: int| 0 <= j < parts@.len() ==> #[trigger] parts@[j]@ == sp[j],
                i <= parts@.len(),
                clues@.len() == i,
                forall|j: int| 0 <= j < i ==> (#[trigger] clue_of(sp[j])) == Some(clues@[j]@),
            decreases parts@.len() - i,
        {
            assert(parts@[i as int]@ == sp[i as int]);
            match Self::clue(parts[i].as_slice()) {
                Some(c) => {
                    clues.push(c);
                },
                None => {
                    return None;
                },
            }
            i = i + 1;
        }
        let l = ClueList(clues);
        assert(l@ =~= Seq::new(sp.len(), |j: int| clue_of(sp[j])->0));
        Some(l)
    }

    /// Reads a grid line.
    pub fn grid_line(b: &[u8]) -> (r: Option<GridLine>)
        ensures
            r matches Some(l) ==> grid_line_of(b@) == Some(l@),
            r is None ==> grid_line_of(b@) is None,
    {
        if b.len() == 0 {
            return None;
        }
        let mut cells: Vec<Cell> = Vec::new();
        let mut i: usize = 0;
        while i < b.len()
            invariant
                b@.len() > 0,
                i <= b@.len(),
                cells@.len() == i,
                forall|j: int| 0 <= j < i ==> (#[trigger] cell_of(b@[j])) == Some(cells@[j]),
            decreases b@.len() - i,
        {
            match Self::cell(b[i]) {
                Some(c) => {
                    cells.push(c);
                },
                None => {
                    return None;
                },
            }
            i = i + 1;
        }
        let l = GridLine(cells);
        assert(l@ =~= Seq::new(b@.len(), |j: int| cell_of(b@[j])->0));
        Some(l)
    }

    /// Reads a grid.
    pub fn grid(b: &[u8]) -> (r: Option<Grid>)
        ensures
            r matches Some(g) ==> grid_of(b@) == Some(g@),
            r is None ==> grid_of(b@) is None,
    {
        let parts = split_bytes(b, 59);
        let ghost sp = split(b@, 59);
        let mut lines: Vec<GridLine> = Vec::new();
        let mut i: usize = 0;
        while i < parts.len()
            invariant
                sp == split(b@, 59),
                parts@.len() == sp.len(),
                forall|j: int| 0 <= j < parts@.len() ==> #[trigger] parts@[j]@ == sp[j],
                i <= parts@.len(),
                lines@.len() == i,
                forall|j: int| 0 <= j < i ==> (#[trigger] grid_line_of(sp[j])) == Some(lines@[j]@),
            decreases parts@.len() - i,
        {
            assert(parts@[i as int]@ == sp[i as int]);
            match Self::grid_line(parts[i].as_slice()) {
                Some(l) => {
                    lines.push(l);
                },
                None => {
                    return None;
                },
            }
            i = i + 1;
        }
        let g = Grid(lines);
        assert(g@ =~= Seq::new(sp.len(), |j: int| grid_line_of(sp[j])->0));
        Some(g)
    }
}

/// A puzzle's parts: column clues, row clues, and the grid if written.
pub open spec fn puzzle_of(b: Seq<u8>) -> Option<(Seq<Seq<usize>>, Seq<Seq<usize>>, Option<Seq<Seq<Cell>>>)> {
    if b.len() >= 2 && b[0] == 91 && b.last() == 93 {
        let parts = split(b.subrange(1, b.len() - 1), 124);
        if parts.len() == 2 {
            match (clue_list_of(parts[0]), clue_list_of(parts[1])) {
                (Some(v), Some(h)) => Some((v, h, None)),
                _ => None,
            }
        } else if parts.len() == 3 {
            match (clue_list_of(parts[0]), clue_list_of(parts[1]), grid_of(parts[2])) {
                (Some(v), Some(h), Some(g)) => Some((v, h, Some(g))),
                _ => None,
            }
        } else {
            None
        }
    } else {
        None
    }
}

/// The parts of a written puzzle.
pub open spec fn puzzle_parts(p: Puzzle) -> (Seq<Seq<usize>>, Seq<Seq<usize>>, Option<Seq<Seq<Cell>>>) {
    (
        p.vert_clues@,
        p.horz_clues@,
        match p.grid {
            Some(g) => Some(g@),
            None => None,
        },
    )
}

/// The text of a puzzle: `[columns|rows]`, or `[columns|rows|grid]`.
pub open spec fn puzzle_text(p: (Seq<Seq<usize>>, Seq<Seq<usize>>, Option<Seq<Seq<Cell>>>)) -> Seq<u8> {
    let inner = clue_list_text(p.0).push(124) + clue_list_text(p.1);
    let body = match p.2 {
        Some(g) => inner.push(124) + grid_text(g),
        None => inner,
    };
    seq![91u8] + body + seq![93u8]
}

impl NonoParser {
    /// Reads a puzzle.
    pub fn puzzle(b: &[u8]) -> (r: Option<Puzzle>)
        ensures
            r matches Some(p) ==> puzzle_of(b@) == Some(puzzle_parts(p)),
            r is None ==> puzzle_of(b@) is None,
    {
        let n = b.len();
        if n < 2 || b[0] != 91 || b[n - 1] != 93 {
            return None;
        }
        let inner = &b[1..n - 1];
        assert(inner@ == b@.subrange(1, n - 1));
        let parts = split_bytes(inner, 124);
        if parts.len() != 2 && parts.len() != 3 {
            return None;
        }
        assert(parts@[0]@ == split(inner@, 124)[0]);
        assert(parts@[1]@ == split(inner@, 124)[1]);
        let vert_clues = match Self::clue_list(parts[0].as_slice()) {
            Some(v) => v,
            None => {
                return None;
            },
        };
        let horz_clues = match Self::clue_list(parts[1].as_slice()) {
            Some(h) => h,
            None => {
                return None;
            },
        };
        if parts.len() == 2 {
            return Some(Puzzle { vert_clues, horz_clues, grid: None });
        }
        assert(parts@[2]@ == split(inner@, 124)[2]);
        match Self::grid(parts[2].as_slice()) {
            Some(g) => Some(Puzzle { vert_clues, horz_clues, grid: Some(g) }),
            None => None,
        }
    }
}

impl Cell {
    /// The character of the cell.
    pub fn to_char(&self) -> (r: u8)
        ensures
            r == cell_char(*self),
    {
        match self {
            Cell::Filled => 35,
            Cell::Crossed => 120,
            Cell::Undecided => 46,
            Cell::Impossible => 33,
        }
    }
}

impl Clue {
    /// The text of the clue.
    pub fn to_text(&self) -> (r: Vec<u8>)
        ensures
            r@ == clue_text(self@),
    {
        let mut parts: Vec<Vec<u8>> = Vec::new();
        let mut i: usize = 0;
        while i < self.0.len()
            invariant
                i <= self.0@.len(),
                parts@.len() == i,
                forall|j: int| 0 <= j < i ==> #[trigger] parts@[j]@ == decimal(self.0@[j] as nat),
            decreases self.0@.len() - i,
        {
            let mut digits: Vec<u8> = Vec::new();
            write_decimal(self.0[i], &mut digits);
            assert(digits@ =~= decimal(self.0@[i as int] as nat));
            parts.push(digits);
            i = i + 1;
        }
        let mut out: Vec<u8> = Vec::new();
        write_joined(&parts, 44, &mut out);
        assert(Seq::new(parts@.len(), |j: int| parts@[j]@) =~= Seq::new(self@.len(), |j: int| decimal(self@[j] as nat)));
        assert(out@ =~= clue_text(self@));
        out
    }
}

impl ClueList {
    /// The text of the clue list.
    pub fn to_text(&self) -> (r: Vec<u8>)
        ensures
            r@ == clue_list_text(self@),
    {
        let mut parts: Vec<Vec<u8>> = Vec::new();
        let mut i: usize = 0;
        while i < self.0.len()
            invariant
                i <= self.0@.len(),
                parts@.len() == i,
                forall|j: int| 0 <= j < i ==> #[trigger] parts@[j]@ == clue_text(self.0@[j]@),
            decreases self.0@.len() - i,
        {
            parts.push(self.0[i].to_text());
            i = i + 1;
        }
        let mut out: Vec<u8> = Vec::new();
        write_joined(&parts, 59, &mut out);
        assert(Seq::new(parts@.len(), |j: int| parts@[j]@) =~= Seq::new(self@.len(), |j: int| clue_text(self@[j])));
        assert(out@ =~= clue_list_text(self@));
        out
    }
}

impl GridLine {
    /// The text of the grid line.
    pub fn to_text(&self) -> (r: Vec<u8>)
        ensures
            r@ == grid_line_text(self@),
    {
        let mut out: Vec<u8> = Vec::new();
        let mut i: usize = 0;
        while i < self.0.len()
            invariant
                i <= self.0@.len(),
                out@ =~= grid_line_text(self@.subrange(0, i as int)),
            decreases self.0@.len() - i,
        {
            out.push(self.0[i].to_char());
            i = i + 1;
            assert(out@ =~= grid_line_text(self@.subrange(0, i as int)));
        }
        assert(self@.subrange(0, self@.len() as int) =~= self@);
        out
    }
}

impl Grid {
    /// The text of the grid.
    pub fn to_text(&self) -> (r: Vec<u8>)
        ensures
            r@ == grid_text(self@),
    {
        let mut parts: Vec<Vec<u8>> = Vec::new();
        let mut i: usize = 0;
        while i < self.0.len()
            invariant
                i <= self.0@.len(),
                parts@.len() == i,
                forall|j: int| 0 <= j < i ==> #[trigger] parts@[j]@ == grid_line_text(self.0@[j]@),
            decreases self.0@.len() - i,
        {
            parts.push(self.0[i].to_text());
            i = i + 1;
        }
        let mut out: Vec<u8> = Vec::new();
        write_joined(&parts, 59, &mut out);
        assert(Seq::new(parts@.len(), |j: int| parts@[j]@) =~= Seq::new(self@.len(), |j: int| grid_line_text(self@[j])));
        assert(out@ =~= grid_text(self@));
        out
    }
}

fn append(out: &mut Vec<u8>, more: &Vec<u8>)
    ensures
        final(out)@ == old(out)@ + more@,
{
    let mut i: usize = 0;
    while i < more.len()
        invariant
            i <= more@.len(),
            out@ == old(out)@ + more@.subrange(0, i as int),
        decreases more@.len() - i,
    {
        out.push(more[i]);
        i = i + 1;
        assert(out@ =~= old(out)@ + more@.subrange(0, i as int));
    }
    assert(more@.subrange(0, more@.len() as int) =~= more@);
}

impl Puzzle {
    /// The text of the puzzle.
    pub fn to_text(&self) -> (r: Vec<u8>)
        ensures
            r@ == puzzle_text(puzzle_parts(*self)),
    {
        let mut out: Vec<u8> = Vec::new();
        out.push(91);
        append(&mut out, &self.vert_clues.to_text());
        out.push(124);
        append(&mut out, &self.horz_clues.to_text());
        if let Some(g) = &self.grid {
            out.push(124);
            append(&mut out, &g.to_text());
        }
        out.push(93);
        assert(out@ =~= puzzle_text(puzzle_parts(*self)));
        out
    }
}

} // verus!

verus! {

/// Joining pieces that hold no `c` with a separator other than `c` gives a
/// text with no `c`.
proof fn lemma_join_free(parts: Seq<Seq<u8>>, sep: u8, c: u8)
    requires
        sep != c,
        forall|i: int| 0 <= i < parts.len() ==> free_of(#[trigger] parts[i], c),
    ensures
        free_of(join(parts, sep), c),
    decreases parts.len(),
{
    if parts.len() > 1 {
        let init = parts.drop_last();
        assert forall|i: int| 0 <= i < init.len() implies free_of(#[trigger] init[i], c) by {
            assert(init[i] == parts[i]);
        }
        lemma_join_free(init, sep, c);
        assert(free_of(parts[parts.len() - 1], c));
        let j = join(init, sep).push(sep) + parts.last();
        assert forall|i: int| 0 <= i < j.len() implies #[trigger] j[i] != c by {
            if i < join(init, sep).len() {
                assert(j[i] == join(init, sep)[i]);
            } else if i > join(init, sep).len() {
                assert(j[i] == parts.last()[i - join(init, sep).len() - 1]);
            }
        }
    } else if parts.len() == 1 {
        assert(free_of(parts[0], c));
    }
}

proof fn lemma_decimal_free(n: nat, c: u8)
    requires
        !is_digit(c),
    ensures
        free_of(decimal(n), c),
{
    lemma_decimal(n);
}

proof fn lemma_clue_text_free(v: Seq<usize>, c: u8)
    requires
        !is_digit(c),
        c != 44,
    ensures
        free_of(clue_text(v), c),
{
    let parts = Seq::new(v.len(), |i: int| decimal(v[i] as nat));
    assert forall|i: int| 0 <= i < parts.len() implies free_of(#[trigger] parts[i], c) by {
        lemma_decimal_free(v[i] as nat, c);
    }
    lemma_join_free(parts, 44, c);
}

proof fn lemma_clue_list_text_free(l: Seq<Seq<usize>>, c: u8)
    requires
        !is_digit(c),
        c != 44,
        c != 59,
    ensures
        free_of(clue_list_text(l), c),
{
    let parts = Seq::new(l.len(), |i: int| clue_text(l[i]));
    assert forall|i: int| 0 <= i < parts.len() implies free_of(#[trigger] parts[i], c) by {
        lemma_clue_text_free(l[i], c);
    }
    lemma_join_free(parts, 59, c);
}

proof fn lemma_grid_text_free(g: Seq<Seq<Cell>>, c: u8)
    requires
        c == 124,
    ensures
        free_of(grid_text(g), c),
{
    let parts = Seq::new(g.len(), |i: int| grid_line_text(g[i]));
    assert forall|i: int| 0 <= i < parts.len() implies free_of(#[trigger] parts[i], c) by {}
    lemma_join_free(parts, 59, c);
}

/// A clue's text reads back as the clue.
pub proof fn lemma_clue_round_trip(v: Seq<usize>)
    ensures
        clue_of(clue_text(v)) == Some(v),
{
    let parts = Seq::new(v.len(), |i: int| decimal(v[i] as nat));
    if v.len() == 0 {
        assert(v =~= Seq::<usize>::empty());
    } else {
        assert forall|i: int| 0 <= i < parts.len() implies free_of(#[trigger] parts[i], 44) by {
            lemma_decimal_free(v[i] as nat, 44);
        }
        lemma_split_join(parts, 44);
        lemma_decimal(v[0] as nat);
        if clue_text(v).len() == 0 {
            assert(split(clue_text(v), 44) == seq![Seq::<u8>::empty()]);
            assert(parts[0].len() == 0);
        }
        assert forall|i: int| 0 <= i < parts.len() implies (#[trigger] number_of(parts[i])) == Some(v[i]) by {
            lemma_number_of_decimal(v[i]);
        }
        assert(Seq::new(parts.len(), |i: int| number_of(parts[i])->0) =~= v);
    }
}

/// A clue list's text reads back as the list, when it holds a clue.
pub proof fn lemma_clue_list_round_trip(l: Seq<Seq<usize>>)
    requires
        l.len() >= 1,
    ensures
        clue_list_of(clue_list_text(l)) == Some(l),
{
    let parts = Seq::new(l.len(), |i: int| clue_text(l[i]));
    assert forall|i: int| 0 <= i < parts.len() implies free_of(#[trigger] parts[i], 59) by {
        lemma_clue_text_free(l[i], 59);
    }
    lemma_split_join(parts, 59);
    assert forall|i: int| 0 <= i < parts.len() implies (#[trigger] clue_of(parts[i])) == Some(l[i]) by {
        lemma_clue_round_trip(l[i]);
    }
    assert(Seq::new(parts.len(), |i: int| clue_of(parts[i])->0) =~= l);
}

/// A grid's text reads back as the grid, when it holds a line and no line is
/// empty.
pub proof fn lemma_grid_round_trip(g: Seq<Seq<Cell>>)
    requires
        g.len() >= 1,
        forall|i: int| 0 <= i < g.len() ==> #[trigger] g[i].len() >= 1,
    ensures
        grid_of(grid_text(g)) == Some(g),
{
    let parts = Seq::new(g.len(), |i: int| grid_line_text(g[i]));
    assert forall|i: int| 0 <= i < parts.len() implies free_of(#[trigger] parts[i], 59) by {}
    lemma_split_join(parts, 59);
    assert forall|i: int| 0 <= i < parts.len() implies (#[trigger] grid_line_of(parts[i])) == Some(g[i]) by {
        assert(g[i].len() >= 1);
        assert(Seq::new(parts[i].len(), |j: int| cell_of(parts[i][j])->0) =~= g[i]);
    }
    assert(Seq::new(parts.len(), |i: int| grid_line_of(parts[i])->0) =~= g);
}

/// A puzzle's text reads back as the puzzle: printing and then parsing gives
/// the same clues and cells, when each clue list holds a clue and each grid
/// line a cell.
pub proof fn lemma_puzzle_round_trip(p: (Seq<Seq<usize>>, Seq<Seq<usize>>, Option<Seq<Seq<Cell>>>))
    requires
        p.0.len() >= 1,
        p.1.len() >= 1,
        p.2 matches Some(g) ==> g.len() >= 1 && forall|i: int| 0 <= i < g.len() ==> #[trigger] g[i].len() >= 1,
    ensures
        puzzle_of(puzzle_text(p)) == Some(p),
{
    let v = clue_list_text(p.0);
    let h = clue_list_text(p.1);
    lemma_clue_list_text_free(p.0, 124);
    lemma_clue_list_text_free(p.1, 124);
    lemma_clue_list_round_trip(p.0);
    lemma_clue_list_round_trip(p.1);
    let b = puzzle_text(p);
    let inner = b.subrange(1, b.len() - 1);
    match p.2 {
        Some(g) => {
            let gt = grid_text(g);
            lemma_grid_text_free(g, 124);
            lemma_grid_round_trip(g);
            let parts = seq![v, h, gt];
            assert(inner =~= join(parts, 124)) by {
                assert(parts.drop_last() =~= seq![v, h]);
                assert(seq![v, h].drop_last() =~= seq![v]);
                assert(join(seq![v], 124) == v);
                assert(join(seq![v, h], 124) == v.push(124) + h);
                assert(join(parts, 124) == (v.push(124) + h).push(124) + gt);
                let body = (v.push(124) + h).push(124) + gt;
                assert(b == seq![91u8] + body + seq![93u8]);
                assert(b.subrange(1, b.len() - 1) =~= body);
            }
            assert forall|i: int| 0 <= i < parts.len() implies free_of(#[trigger] parts[i], 124) by {}
            lemma_split_join(parts, 124);
        },
        None => {
            let parts = seq![v, h];
            assert(inner =~= join(parts, 124)) by {
                assert(parts.drop_last() =~= seq![v]);
                assert(join(seq![v], 124) == v);
                assert(join(parts, 124) == v.push(124) + h);
                let body = v.push(124) + h;
                assert(b == seq![91u8] + body + seq![93u8]);
                assert(b.subrange(1, b.len() - 1) =~= body);
            }
            assert forall|i: int| 0 <= i < parts.len() implies free_of(#[trigger] parts[i], 124) by {}
            lemma_split_join(parts, 124);
        },
    }
}

} // verus!

