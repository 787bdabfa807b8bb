use nono::parser::{Cell, Clue, ClueList, Grid, GridLine, NonoParser, Puzzle};

fn clue_round_trip(orig: Clue) {
    let text = orig.to_text();
    assert_eq!(NonoParser::clue(&text), Some(orig));
}

fn clue_list_round_trip(orig: ClueList) {
    let text = orig.to_text();
    assert_eq!(NonoParser::clue_list(&text), Some(orig));
}

fn grid_line_round_trip(orig: GridLine) {
    let text = orig.to_text();
    assert_eq!(NonoParser::grid_line(&text), Some(orig));
}

fn grid_round_trip(orig: Grid) {
    let text = orig.to_text();
    assert_eq!(NonoParser::grid(&text), Some(orig));
}

fn puzzle_round_trip(orig: Puzzle) {
    let text = orig.to_text();
    assert_eq!(NonoParser::puzzle(&text), Some(orig));
}

#[test]
fn clue() {
    clue_round_trip(Clue(vec![]));
    clue_round_trip(Clue(vec![10]));
    clue_round_trip(Clue(vec![1, 3, 5]));
}

#[test]
fn clue_list() {
    clue_list_round_trip(ClueList(vec![Clue(vec![1])]));
    clue_list_round_trip(ClueList(vec![Clue(vec![1]), Clue(vec![2])]));
    clue_list_round_trip(ClueList(vec![Clue(vec![]), Clue(vec![2])]));
    clue_list_round_trip(ClueList(vec![Clue(vec![1]), Clue(vec![])]));
    clue_list_round_trip(ClueList(vec![Clue(vec![1]), Clue(vec![2]), Clue(vec![3])]));
    clue_list_round_trip(ClueList(vec![Clue(vec![1]), Clue(vec![]), Clue(vec![3])]));
}

#[test]
fn cell() {
    for c in [Cell::Filled, Cell::Crossed, Cell::Undecided, Cell::Impossible] {
        assert_eq!(NonoParser::cell(c.to_char()), Some(c));
    }
}

#[test]
fn grid_line() {
    grid_line_round_trip(GridLine(vec![Cell::Undecided]));
    grid_line_round_trip(GridLine(vec![Cell::Filled, Cell::Crossed]));
}

#[test]
fn grid() {
    grid_round_trip(Grid(vec![GridLine(vec![Cell::Undecided])]));
    grid_round_trip(Grid(vec![
        GridLine(vec![Cell::Undecided, Cell::Filled]),
        GridLine(vec![Cell::Crossed, Cell::Impossible]),
    ]));
}

#[test]
fn puzzle() {
    puzzle_round_trip(Puzzle {
        vert_clues: ClueList(vec![Clue(vec![]), Clue(vec![1])]),
        horz_clues: ClueList(vec![Clue(vec![1]), Clue(vec![])]),
        grid: None,
    });
    puzzle_round_trip(Puzzle {
        vert_clues: ClueList(vec![Clue(vec![]), Clue(vec![1])]),
        horz_clues: ClueList(vec![Clue(vec![1]), Clue(vec![])]),
        grid: Some(Grid(vec![
            GridLine(vec![Cell::Undecided, Cell::Filled]),
            GridLine(vec![Cell::Crossed, Cell::Impossible]),
        ])),
    });
}

#[test]
fn printed_texts_are_exact() {
    assert_eq!(Clue(vec![1, 3, 15]).to_text(), b"1,3,15".to_vec());
    assert_eq!(Clue(vec![]).to_text(), b"".to_vec());
    assert_eq!(
        ClueList(vec![Clue(vec![1]), Clue(vec![]), Clue(vec![3, 4])]).to_text(),
        b"1;;3,4".to_vec()
    );
    assert_eq!(
        GridLine(vec![Cell::Filled, Cell::Crossed, Cell::Undecided, Cell::Impossible]).to_text(),
        b"#x.!".to_vec()
    );
    let p = Puzzle {
        vert_clues: ClueList(vec![Clue(vec![]), Clue(vec![1])]),
        horz_clues: ClueList(vec![Clue(vec![1]), Clue(vec![])]),
        grid: Some(Grid(vec![
            GridLine(vec![Cell::Undecided, Cell::Filled]),
            GridLine(vec![Cell::Crossed, Cell::Impossible]),
        ])),
    };
    assert_eq!(p.to_text(), b"[;1|1;|.#;x!]".to_vec());
}

#[test]
fn malformed_texts_are_refused() {
    assert_eq!(NonoParser::clue(b"1,"), None);
    assert_eq!(NonoParser::clue(b"a"), None);
    assert_eq!(NonoParser::clue(b"99999999999999999999999"), None);
    assert_eq!(NonoParser::grid_line(b""), None);
    assert_eq!(NonoParser::grid_line(b"#?"), None);
    assert_eq!(NonoParser::puzzle(b"[1|2"), None);
    assert_eq!(NonoParser::puzzle(b"[1|2|#|#]"), None);
    assert_eq!(NonoParser::puzzle(b"[1]"), None);
}

#[test]
fn numbers_read_with_leading_zeros() {
    assert_eq!(NonoParser::clue(b"007,12"), Some(Clue(vec![7, 12])));
}
