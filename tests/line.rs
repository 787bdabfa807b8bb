use nono::line::{Line, LineMut};
use nono::puzzle::Grid;

#[test]
fn bump_start_empty() {
    let mut grid = Grid::new(10, 1);
    let line = grid.horz_mut(0);
    assert_eq!(line.bump_start(0, 3), 0);
}

#[test]
fn bump_start_one_filled() {
    let mut grid = Grid::new(10, 1);
    let mut line = grid.horz_mut(0);
    line.fill(4);
    assert_eq!(line.bump_start(0, 3), 0);
    assert_eq!(line.bump_start(1, 3), 2);
    assert_eq!(line.bump_start(2, 3), 2);
    assert_eq!(line.bump_start(3, 3), 3);
    assert_eq!(line.bump_start(4, 3), 4);
    assert_eq!(line.bump_start(5, 3), 6);
    assert_eq!(line.bump_start(6, 3), 6);
    assert_eq!(line.bump_start(7, 3), 7);
}

#[test]
fn bump_start_one_crossed() {
    let mut grid = Grid::new(10, 1);
    let mut line = grid.horz_mut(0);
    line.cross(4);
    assert_eq!(line.bump_start(0, 3), 0);
    assert_eq!(line.bump_start(1, 3), 1);
    assert_eq!(line.bump_start(2, 3), 5);
    assert_eq!(line.bump_start(3, 3), 5);
    assert_eq!(line.bump_start(4, 3), 5);
    assert_eq!(line.bump_start(5, 3), 5);
    assert_eq!(line.bump_start(6, 3), 6);
    assert_eq!(line.bump_start(7, 3), 7);
}

#[test]
fn bump_start_two_filled() {
    let mut grid = Grid::new(4, 1);
    let mut line = grid.horz_mut(0);
    line.fill(0);
    line.fill(2);
    assert_eq!(line.bump_start(0, 1), 0);
    assert_eq!(line.bump_start(1, 1), 2);
    assert_eq!(line.bump_start(2, 1), 2);
    assert_eq!(line.bump_start(3, 1), 4);
}

#[test]
fn bump_start_number_two() {
    let mut grid = Grid::new(6, 1);
    let mut line = grid.horz_mut(0);
    line.fill(0);
    line.cross(2);
    line.fill(4);
    line.cross(5);
    assert_eq!(line.bump_start(2, 2), 3);
    assert_eq!(line.bump_start(3, 2), 3);
    assert_eq!(line.bump_start(4, 2), 6);
}

#[test]
fn bump_start_twice_is_once() {
    let mut grid = Grid::new(10, 1);
    let mut line = grid.horz_mut(0);
    line.cross(2);
    line.fill(5);
    line.cross(8);
    for s in 0..10 {
        for n in 1..4 {
            let r = line.bump_start(s, n);
            if r == 0 || r > 10 || !line.is_filled(r - 1) {
                assert_eq!(line.bump_start(r, n), r);
            }
        }
    }
}

#[test]
fn bump_start_not_idempotent_after_filled_cells() {
    let mut grid = Grid::new(10, 1);
    let mut line = grid.horz_mut(0);
    line.fill(0);
    line.fill(1);
    assert_eq!(line.bump_start(1, 3), 2);
    assert_eq!(line.bump_start(2, 3), 3);
}

#[test]
fn bump_last_from_the_right() {
    let mut grid = Grid::new(7, 1);
    let mut line = grid.horz_mut(0);
    line.fill(4);
    assert_eq!(line.bump_last(6, 2), 6);
    line.cross(6);
    assert_eq!(line.bump_last(6, 2), 6);
    line.cross(5);
    assert_eq!(line.bump_last(6, 2), 5);
    assert_eq!(line.bump_last(-1, 2), 2);
}

#[test]
fn range_predicates() {
    let mut grid = Grid::new(5, 1);
    let mut line = grid.horz_mut(0);
    line.fill(1);
    line.cross(3);
    assert!(line.range_contains_filled(0..2));
    assert!(!line.range_contains_filled(2..5));
    assert!(line.range_contains_unfilled(1..3));
    assert!(!line.range_contains_unfilled(1..2));
    assert!(!line.range_contains_uncrossed(3..4));
    assert!(line.range_contains_uncrossed(3..5));
    assert!(!line.range_contains_filled(2..2));
}

#[test]
fn cross_and_fill_set_bits_once() {
    let mut grid = Grid::new(3, 2);
    assert!(grid.fill(1, 1));
    assert!(!grid.fill(1, 1));
    assert!(grid.cross(1, 1));
    assert!(!grid.cross(1, 1));
    assert!(grid.is_filled(1, 1));
    assert!(grid.is_crossed(1, 1));
    assert!(!grid.is_filled(0, 1));
    assert!(!grid.is_filled(1, 0));
    assert_eq!(grid.get(1, 1), nono::parser::Cell::Impossible);
    assert_eq!(grid.get(2, 1), nono::parser::Cell::Undecided);
}

#[test]
fn column_views_write_through() {
    let mut grid = Grid::new(2, 3);
    {
        let mut col = grid.vert_mut(1);
        col.fill_range(0..2);
        col.cross(2);
        assert_eq!(col.len(), 3);
    }
    assert!(grid.is_filled(1, 0));
    assert!(grid.is_filled(1, 1));
    assert!(grid.is_crossed(1, 2));
    assert!(!grid.is_filled(0, 0));
}

#[test]
fn line_grid_reads_cells() {
    let g = nono::puzzle::line_grid(b"#x.!").unwrap();
    assert_eq!((g.width, g.height), (4, 1));
    assert_eq!(g.get(0, 0), nono::parser::Cell::Filled);
    assert_eq!(g.get(1, 0), nono::parser::Cell::Crossed);
    assert_eq!(g.get(2, 0), nono::parser::Cell::Undecided);
    assert_eq!(g.get(3, 0), nono::parser::Cell::Impossible);
    assert!(nono::puzzle::line_grid(b"#?").is_none());
    assert!(nono::puzzle::line_grid(b"").is_none());
}

#[test]
fn bump_start_not_idempotent_over_impossible_cell() {
    let mut grid = Grid::new(6, 1);
    let mut line = grid.horz_mut(0);
    line.fill(2);
    line.cross(2);
    assert_eq!(line.bump_start(0, 2), 1);
    assert_eq!(line.bump_start(1, 2), 3);
}
