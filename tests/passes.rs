use fixedbitset::FixedBitSet;
use nono::continuous_range::{ClueExt, ContinuousRangeHint, ContinuousRangePass, Kernel, Termination, Unreachable};
use nono::crowded_clue::{CrowdedClue, CrowdedCluePass};
use nono::discrete_range::{CrossedRun, DiscreteRangeHint, DiscreteRangePass, FilledRun, Possibilities};
use nono::hint::{IllFormedClue, LineHint, LinePass};
use nono::line::{Line, LineExt, LineMut};
use nono::parser::Cell;
use nono::puzzle::{Grid, HorzLineMut};
use std::iter::FromIterator;

fn text_of(line: &HorzLineMut) -> String {
    String::from_utf8(line.view().to_text()).unwrap()
}

fn numbers(v: Vec<usize>) -> FixedBitSet {
    FixedBitSet::from_iter(v)
}

#[test]
fn run1() {
    let mut grid = Grid::new(4, 1);
    let mut line = grid.horz_mut(0);
    line.fill(0);
    line.fill(2);
    let hints = DiscreteRangePass.run(&[1, 1], &line).unwrap();
    assert_eq!(
        hints,
        vec![
            DiscreteRangeHint::CrossedRun(CrossedRun { start: 1, end: 2 }),
            DiscreteRangeHint::CrossedRun(CrossedRun { start: 3, end: 4 }),
        ]
    );
}

#[test]
fn run2() {
    let mut grid = Grid::new(4, 1);
    let mut line = grid.horz_mut(0);
    line.fill(2);
    let hints = DiscreteRangePass.run(&[2], &line).unwrap();
    assert_eq!(hints, vec![DiscreteRangeHint::CrossedRun(CrossedRun { start: 0, end: 1 })]);
}

#[test]
fn run3() {
    let mut grid = Grid::new(6, 1);
    let mut line = grid.horz_mut(0);
    line.fill(0);
    line.cross(2);
    line.fill(4);
    line.cross(5);
    let hints = DiscreteRangePass.run(&[1, 2], &line).unwrap();
    assert_eq!(
        hints,
        vec![
            DiscreteRangeHint::CrossedRun(CrossedRun { start: 1, end: 3 }),
            DiscreteRangeHint::FilledRun(FilledRun { start: 3, end: 5, numbers: numbers(vec![1]) }),
        ]
    );
}

#[test]
fn run4() {
    let mut grid = Grid::new(4, 1);
    let mut line = grid.horz_mut(0);
    line.cross(1);
    line.fill(2);
    line.cross(3);
    let hints = DiscreteRangePass.run(&[1], &line).unwrap();
    assert_eq!(hints, vec![DiscreteRangeHint::CrossedRun(CrossedRun { start: 0, end: 2 })]);
}

#[test]
fn run5() {
    let mut grid = Grid::new(4, 1);
    let mut line = grid.horz_mut(0);
    line.cross(0);
    line.fill(1);
    line.cross(2);
    let hints = DiscreteRangePass.run(&[1], &line).unwrap();
    assert_eq!(hints, vec![DiscreteRangeHint::CrossedRun(CrossedRun { start: 2, end: 4 })]);
}

#[test]
fn run6() {
    let mut grid = Grid::new(7, 1);
    let mut line = grid.horz_mut(0);
    line.fill(1);
    line.cross(2);
    let hints = DiscreteRangePass.run(&[2, 1], &line).unwrap();
    assert_eq!(
        hints,
        vec![DiscreteRangeHint::FilledRun(FilledRun { start: 0, end: 2, numbers: numbers(vec![0]) })]
    );
}

#[test]
fn run7() {
    let mut grid = Grid::new(7, 1);
    let mut line = grid.horz_mut(0);
    line.cross(2);
    line.fill(3);
    line.cross(4);
    line.fill_range(5..7);
    let hints = DiscreteRangePass.run(&[1, 2], &line).unwrap();
    assert_eq!(hints, vec![DiscreteRangeHint::CrossedRun(CrossedRun { start: 0, end: 3 })]);
}

#[test]
fn crowded_clue_single_run() {
    let mut grid = Grid::new(5, 1);
    let mut line = grid.horz_mut(0);
    let hints = CrowdedCluePass.run(&[3], &line).unwrap();
    assert_eq!(hints, vec![CrowdedClue { kernel_start: 2, kernel_end: 3 }]);
    for h in &hints {
        h.apply(&mut line);
    }
    assert_eq!(text_of(&line), "..#..");
}

#[test]
fn crowded_clue_two_runs() {
    let mut grid = Grid::new(10, 1);
    let mut line = grid.horz_mut(0);
    let hints = CrowdedCluePass.run(&[4, 3], &line).unwrap();
    assert_eq!(
        hints,
        vec![
            CrowdedClue { kernel_start: 2, kernel_end: 4 },
            CrowdedClue { kernel_start: 7, kernel_end: 8 },
        ]
    );
    for h in &hints {
        h.apply(&mut line);
    }
    assert_eq!(text_of(&line), "..##...#..");
}

#[test]
fn crowded_clue_empty_and_loose() {
    let mut grid = Grid::new(6, 1);
    let line = grid.horz_mut(0);
    assert!(CrowdedCluePass.run(&[], &line).unwrap().is_empty());
    assert!(CrowdedCluePass.run(&[1, 1], &line).unwrap().is_empty());
}

#[test]
fn continuous_range_whole_line() {
    let mut grid = Grid::new(5, 1);
    let mut line = grid.horz_mut(0);
    let starts = [5usize][..].range_starts(&line);
    let ends = [5usize][..].range_ends(&line);
    assert_eq!(starts, vec![0]);
    assert_eq!(ends, vec![5]);
    let hints = ContinuousRangePass.run(&[5], &line).unwrap();
    assert_eq!(hints, vec![ContinuousRangeHint::Kernel(Kernel { kernel_start: 0, kernel_end: 5 })]);
    for h in &hints {
        h.apply(&mut line);
    }
    assert_eq!(text_of(&line), "#####");
}

#[test]
fn continuous_range_unreachable_around_a_filled_cell() {
    let mut grid = Grid::new(7, 1);
    let mut line = grid.horz_mut(0);
    line.fill(4);
    let mut rounds = 0;
    loop {
        let hints = ContinuousRangePass.run(&[2], &line).unwrap();
        if hints.is_empty() {
            break;
        }
        for h in &hints {
            assert!(h.check(&line));
        }
        for h in &hints {
            h.apply(&mut line);
        }
        for h in &hints {
            assert!(!h.check(&line));
        }
        rounds += 1;
    }
    assert_eq!(rounds, 2);
    assert_eq!(text_of(&line), "xxx.#.x");
    assert_eq!([2usize][..].range_starts(&line), vec![3]);
    assert_eq!([2usize][..].range_ends(&line), vec![6]);
}

#[test]
fn continuous_range_empty_clue_crosses_everything() {
    let mut grid = Grid::new(4, 1);
    let mut line = grid.horz_mut(0);
    let hints = ContinuousRangePass.run(&[], &line).unwrap();
    assert_eq!(
        hints,
        vec![ContinuousRangeHint::Unreachable(Unreachable { reachable_start: 0, reachable_end: 0 })]
    );
    hints[0].apply(&mut line);
    assert_eq!(text_of(&line), "xxxx");
}

#[test]
fn continuous_range_kernels_lie_within_bounds() {
    let mut grid = Grid::new(9, 1);
    let mut line = grid.horz_mut(0);
    line.cross(4);
    let clue = [3usize, 3];
    let starts = clue[..].range_starts(&line);
    let ends = clue[..].range_ends(&line);
    assert_eq!(starts, vec![0, 5]);
    assert_eq!(ends, vec![4, 9]);
    let hints = ContinuousRangePass.run(&clue, &line).unwrap();
    let mut kernels = 0;
    for h in &hints {
        if let ContinuousRangeHint::Kernel(k) = h {
            kernels += 1;
            assert!((0..clue.len()).any(|i| starts[i] <= k.kernel_start && (k.kernel_end as isize) <= ends[i]));
        }
    }
    assert_eq!(kernels, 2);
    for h in &hints {
        h.apply(&mut line);
    }
    assert_eq!(text_of(&line), ".##.x.##.");
}

#[test]
fn continuous_range_contradiction_gives_nothing() {
    let mut grid = Grid::new(3, 1);
    let mut line = grid.horz_mut(0);
    line.cross_range(0..3);
    assert!(ContinuousRangePass.run(&[2], &line).unwrap().is_empty());
}

#[test]
fn discrete_range_sandwich() {
    let mut grid = Grid::new(7, 1);
    let mut line = grid.horz_mut(0);
    line.fill(1);
    line.cross(2);
    let hints = DiscreteRangePass.run(&[1, 2], &line).unwrap();
    assert_eq!(hints, vec![DiscreteRangeHint::CrossedRun(CrossedRun { start: 0, end: 1 })]);
    for h in &hints {
        h.apply(&mut line);
    }
    assert_eq!(text_of(&line), "x#x....");
    assert!(DiscreteRangePass.run(&[1, 2], &line).unwrap().is_empty());
}

#[test]
fn discrete_range_masks_are_intersection_and_union() {
    let mut grid = Grid::new(5, 1);
    let mut line = grid.horz_mut(0);
    line.fill(2);
    let p = Possibilities::enumerate(&line, &[1, 1]);
    let filled: Vec<bool> = (0..5).map(|j| p.filled.contains(j)).collect();
    let crossed: Vec<bool> = (0..5).map(|j| p.crossed.contains(j)).collect();
    assert_eq!(filled, vec![false, false, true, false, false]);
    assert_eq!(crossed, vec![false, true, false, true, false]);
    assert!(p.cell_numbers.contains(2 * 2));
    assert!(p.cell_numbers.contains(2 * 2 + 1));
    assert!(p.cell_numbers.contains(0));
    assert!(!p.cell_numbers.contains(1));
}

#[test]
fn discrete_range_no_placement_marks_everything() {
    let mut grid = Grid::new(3, 1);
    let mut line = grid.horz_mut(0);
    line.cross_range(0..3);
    let p = Possibilities::enumerate(&line, &[1]);
    assert!((0..3).all(|j| p.filled.contains(j) && p.crossed.contains(j)));
}

#[test]
fn filled_runs_compare_by_number_sets() {
    let a = FilledRun { start: 0, end: 2, numbers: numbers(vec![0]) };
    let mut bits = FixedBitSet::with_capacity(4);
    bits.insert(0);
    let b = FilledRun { start: 0, end: 2, numbers: bits };
    assert!(a == b);
    let c = FilledRun { start: 0, end: 2, numbers: numbers(vec![1]) };
    assert!(a != c);
}

#[test]
fn applied_hints_only_set_bits() {
    let mut grid = Grid::new(6, 1);
    let mut line = grid.horz_mut(0);
    line.cross(0);
    line.fill(5);
    let before: Vec<Cell> = (0..6).map(|i| line.get(i)).collect();
    let hints = ContinuousRangePass.run(&[2], &line).unwrap();
    for h in &hints {
        h.apply(&mut line);
    }
    for (i, c) in before.iter().enumerate() {
        let now = line.get(i);
        if *c == Cell::Filled {
            assert!(now == Cell::Filled || now == Cell::Impossible);
        }
        if *c == Cell::Crossed {
            assert!(now == Cell::Crossed || now == Cell::Impossible);
        }
    }
    assert_eq!(text_of(&line), "xxx..#");
}

#[test]
fn ill_formed_clues_are_reported_per_line() {
    let mut grid = Grid::new(5, 1);
    let line = grid.horz_mut(0);
    assert_eq!(CrowdedCluePass.run(&[3, 2], &line), Err(IllFormedClue));
    assert_eq!(ContinuousRangePass.run(&[6], &line), Err(IllFormedClue));
    assert_eq!(DiscreteRangePass.run(&[1, 0], &line), Err(IllFormedClue));
    assert_eq!(CrowdedCluePass.run(&[3, 1], &line), Ok(vec![
        CrowdedClue { kernel_start: 0, kernel_end: 3 },
        CrowdedClue { kernel_start: 4, kernel_end: 5 },
    ]));
}

#[test]
fn one_bound_hint_per_run() {
    let mut grid = Grid::new(3, 1);
    let mut line = grid.horz_mut(0);
    let hints = ContinuousRangePass.run(&[1, 1], &line).unwrap();
    assert_eq!(
        hints,
        vec![
            ContinuousRangeHint::Kernel(Kernel { kernel_start: 0, kernel_end: 1 }),
            ContinuousRangeHint::Kernel(Kernel { kernel_start: 2, kernel_end: 3 }),
        ]
    );
    for h in &hints {
        h.apply(&mut line);
    }
    let hints = ContinuousRangePass.run(&[1, 1], &line).unwrap();
    assert_eq!(
        hints,
        vec![
            ContinuousRangeHint::Termination(Termination { range_start: 0, range_end: 1 }),
            ContinuousRangeHint::Termination(Termination { range_start: 2, range_end: 3 }),
        ]
    );
    for h in &hints {
        h.apply(&mut line);
    }
    assert_eq!(text_of(&line), "#x#");
}

#[test]
fn one_turf_hint_per_run() {
    let mut grid = Grid::new(9, 1);
    let mut line = grid.horz_mut(0);
    line.fill(1);
    line.fill(4);
    line.fill(7);
    let hints = ContinuousRangePass.run(&[5], &line).unwrap();
    let turf = hints
        .iter()
        .filter(|h| matches!(h, ContinuousRangeHint::TurfNearSingleton(_) | ContinuousRangeHint::TurfFarSingleton(_)))
        .count();
    assert!(turf <= 1);
}
