use nono::continuous_range::ContinuousRangePass;
use nono::crowded_clue::CrowdedCluePass;
use nono::discrete_range::DiscreteRangePass;
use nono::parser::{self, Cell, NonoParser};
use nono::puzzle::{Axis, Grid, Hint, LinePassExt, Puzzle, PuzzleError, Theme};
use nono::solver::{Pass, Solver};

fn ast(text: &str) -> parser::Puzzle {
    NonoParser::puzzle(text.as_bytes()).unwrap()
}

fn brief(p: &Puzzle) -> String {
    String::from_utf8(p.as_ast().to_text()).unwrap()
}

#[test]
fn axis_by_index() {
    assert_eq!(Axis::get(0), Some(Axis::Horz));
    assert_eq!(Axis::get(1), Some(Axis::Vert));
    assert_eq!(Axis::get(2), None);
}

#[test]
fn theme_characters() {
    assert_eq!(Theme::Ascii.crossed(), '.');
    assert_eq!(Theme::Ascii.filled(), '#');
    assert_eq!(Theme::Ascii.impossible(), '!');
    assert_eq!(Theme::Ascii.undecided(), ' ');
    assert_eq!(Theme::Unicode.crossed(), '\u{2a09}');
    assert_eq!(Theme::Unicode.filled(), '\u{25a0}');
    assert_eq!(Theme::Unicode.impossible(), '!');
    assert_eq!(Theme::Unicode.undecided(), '\u{b7}');
    assert_eq!(Theme::Brief.filled(), 'E');
    assert_eq!(Theme::Ascii.cell(Cell::Filled), '#');
    assert_eq!(Theme::Unicode.cell(Cell::Undecided), '\u{b7}');
}

#[test]
fn puzzle_from_text_keeps_cells() {
    let p = Puzzle::try_from_ast(ast("[1;;1|1,1|#x!]")).unwrap();
    assert_eq!(p.grid.width, 3);
    assert_eq!(p.grid.height, 1);
    assert_eq!(p.grid.get(0, 0), Cell::Filled);
    assert_eq!(p.grid.get(1, 0), Cell::Crossed);
    assert_eq!(p.grid.get(2, 0), Cell::Impossible);
    assert!(p.is_complete());
    assert_eq!(brief(&p), "[1;;1|1,1|#x!]");
}

#[test]
fn puzzle_without_grid_starts_undecided() {
    let p = Puzzle::try_from_ast(ast("[1;1|2]")).unwrap();
    assert_eq!(brief(&p), "[1;1|2|..]");
    assert!(!p.is_complete());
    let back = p.into_ast_without_grid();
    assert_eq!(back.to_text(), b"[1;1|2]".to_vec());
}

#[test]
fn shape_errors() {
    assert_eq!(
        Puzzle::try_from_ast(ast("[1;1|1;1|..;...]")).err(),
        Some(PuzzleError::GridLineWidth { line: 2, expected: 2, actual: 3 })
    );
    assert_eq!(
        Puzzle::try_from_ast(ast("[1;1|1;1|..]")).err(),
        Some(PuzzleError::GridHeight { expected: 2, actual: 1 })
    );
}

#[test]
fn ill_formed_clues() {
    assert_eq!(
        Puzzle::try_from_ast(ast("[1;4|1;1;1]")).err(),
        Some(PuzzleError::IllFormedClue { axis: Axis::Vert, line: 1 })
    );
    assert_eq!(
        Puzzle::try_from_ast(ast("[1;1|1,1;1]")).err(),
        Some(PuzzleError::IllFormedClue { axis: Axis::Horz, line: 0 })
    );
    assert_eq!(
        Puzzle::try_from_ast(ast("[1;0|1;1]")).err(),
        Some(PuzzleError::IllFormedClue { axis: Axis::Vert, line: 1 })
    );
}

#[test]
fn grid_cells_start_undecided() {
    let g = Grid::new(3, 2);
    for y in 0..2 {
        for x in 0..3 {
            assert_eq!(g.get(x, y), Cell::Undecided);
        }
    }
}

#[test]
fn hint_applies_to_its_line_only() {
    let mut p = Puzzle::try_from_ast(ast("[1;1;1|3;3]")).unwrap();
    let hints = CrowdedCluePass.apply(&Axis::Horz, &mut p);
    assert_eq!(hints.len(), 2);
    assert_eq!(brief(&p), "[1;1;1|3;3|###;###]");
    let mut q = Puzzle::try_from_ast(ast("[1;1;1|3;3]")).unwrap();
    let one = Hint {
        axis: Axis::Vert,
        line: 1,
        line_hint: nono::crowded_clue::CrowdedClue { kernel_start: 0, kernel_end: 2 },
    };
    one.apply(&mut q);
    assert_eq!(brief(&q), "[1;1;1|3;3|.#.;.#.]");
}

#[test]
fn passes_run_per_axis() {
    let p = Puzzle::try_from_ast(ast("[2;;2|1,1;1,1]")).unwrap();
    let rows = ContinuousRangePass.run_puzzle(&Axis::Horz, &p);
    assert!(rows.iter().all(|h| h.axis == Axis::Horz));
    let again = ContinuousRangePass.run_horz(&p);
    assert_eq!(rows.len(), again.len());
    let vert = CrowdedCluePass.run_vert(&p);
    assert_eq!(vert.len(), 2);
    assert!(vert.iter().all(|h| h.axis == Axis::Vert && (h.line == 0 || h.line == 2)));
    assert!(DiscreteRangePass.run_vert(&p).iter().any(|h| h.line == 1));
}

#[test]
fn solver_transitions() {
    let passes = [
        Pass::CrowdedClue(CrowdedCluePass),
        Pass::ContinuousRange(ContinuousRangePass),
        Pass::DiscreteRange(DiscreteRangePass),
    ];
    let mut s = Solver::new(&passes);
    let (p, a) = s.initial();
    assert!(matches!(p, Pass::CrowdedClue(_)));
    assert_eq!(a, Axis::Horz);
    let (p, a) = s.failed().unwrap();
    assert!(matches!(p, Pass::CrowdedClue(_)));
    assert_eq!(a, Axis::Vert);
    assert_eq!((s.cur_p, s.cur_a, s.fail_count), (0, 1, 1));
    let (p, a) = s.failed().unwrap();
    assert!(matches!(p, Pass::ContinuousRange(_)));
    assert_eq!(a, Axis::Horz);
    assert_eq!((s.cur_p, s.cur_a, s.fail_count), (1, 0, 0));
    s.failed().unwrap();
    let (p, a) = s.failed().unwrap();
    assert!(matches!(p, Pass::DiscreteRange(_)));
    assert_eq!(a, Axis::Horz);
    let (p, a) = s.succeeded().unwrap();
    assert!(matches!(p, Pass::ContinuousRange(_)));
    assert_eq!(a, Axis::Vert);
    assert_eq!((s.cur_p, s.cur_a, s.fail_count), (1, 1, 0));
    s.failed().unwrap();
    s.failed().unwrap();
    s.failed().unwrap();
    assert_eq!(s.failed().map(|_| ()), None);
    assert_eq!(s.cur_p, 3);
}

#[test]
fn solver_crowded_clue_runs_once_per_axis() {
    let passes = [
        Pass::CrowdedClue(CrowdedCluePass),
        Pass::ContinuousRange(ContinuousRangePass),
        Pass::DiscreteRange(DiscreteRangePass),
    ];
    let mut s = Solver::new(&passes);
    let (_, a) = s.succeeded().unwrap();
    assert_eq!(a, Axis::Vert);
    let (p, a) = s.succeeded().unwrap();
    assert!(matches!(p, Pass::ContinuousRange(_)));
    assert_eq!(a, Axis::Horz);
}

#[test]
fn scheduler_fixpoint() {
    let passes = [
        Pass::CrowdedClue(CrowdedCluePass),
        Pass::ContinuousRange(ContinuousRangePass),
        Pass::DiscreteRange(DiscreteRangePass),
    ];
    let mut puzzle = Puzzle::try_from_ast(ast("[1,1;1,2;2;1,1;1,2|2,2;1;1,1;1,2;2]")).unwrap();
    let mut solver = Solver::new(&passes);
    let mut executed = 0;
    let mut discrete_runs = 0;
    let mut continuous_changes = [0, 0];
    let mut last_change = None;
    while let Some(step) = solver.step(&mut puzzle) {
        executed += 1;
        if let Pass::DiscreteRange(_) = step.pass {
            discrete_runs += 1;
        }
        if !step.hints.is_empty() {
            if let Pass::ContinuousRange(_) = step.pass {
                continuous_changes[if step.axis == Axis::Horz { 0 } else { 1 }] += 1;
            }
            last_change = Some(*step.pass);
        }
    }
    assert_eq!(executed, 9);
    assert!(puzzle.is_complete());
    assert_eq!(discrete_runs, 1);
    assert_eq!(continuous_changes, [2, 2]);
    assert!(matches!(last_change, Some(Pass::DiscreteRange(_))));
}

#[test]
fn contradictions_are_found() {
    let p = Puzzle::try_from_ast(ast("[1;1|1;1|#x;.!]")).unwrap();
    assert_eq!(p.find_impossible(), Some((1, 1)));
    let q = Puzzle::try_from_ast(ast("[1;1|1;1|#x;..]")).unwrap();
    assert_eq!(q.find_impossible(), None);
}
