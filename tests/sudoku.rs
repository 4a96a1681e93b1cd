use dlx::sudoku::{display, parse, solve, Cell, Constraint};

const PUZZLE: &str =
    "53..7....6..195....98....6.8...6...34..8.3..17...2...6.6....28....419..5....8..79";
const COMPLETION: &str =
    "534678912672195348198342567859761423426853791713924856961537284287419635345286179";

#[test]
fn sudoku_round_trip() {
    assert_eq!(solve(PUZZLE), Some(COMPLETION.to_string()));
}

#[test]
fn sudoku_solved_board_stays() {
    assert_eq!(solve(COMPLETION), Some(COMPLETION.to_string()));
}

#[test]
fn sudoku_short_line_has_no_solution() {
    assert_eq!(solve("53..7...."), None);
    assert_eq!(solve(""), None);
}

#[test]
fn sudoku_stray_character_has_no_solution() {
    let line = PUZZLE.replacen('.', "x", 1);
    assert_eq!(line.len(), 81);
    assert_eq!(parse(&line), None);
    assert_eq!(solve(&line), None);
}

#[test]
fn sudoku_conflicting_givens_have_no_solution() {
    // two 5s in the first row
    let line = format!("55{}", &PUZZLE[2..]);
    assert_eq!(solve(&line), None);
}

#[test]
fn sudoku_parse_candidates() {
    let cells = parse(PUZZLE).unwrap();
    let empty = PUZZLE.bytes().filter(|b| *b == b'.').count();
    assert_eq!(cells.len(), 9 * empty + (81 - empty));
    assert_eq!(cells[0].0, Cell { row: 0, col: 0, num: 5 });
    assert_eq!(cells[2].0, Cell { row: 0, col: 2, num: 1 });
    assert_eq!(cells[10].0, Cell { row: 0, col: 2, num: 9 });
}

#[test]
fn sudoku_constraint_keys() {
    let cell = Cell { row: 4, col: 7, num: 3 };
    assert_eq!(cell.constraints(), vec![9 * 4 + 7, 81 + 9 * 4 + 2, 162 + 9 * 7 + 2, 243 + 9 * 5 + 2]);
    assert_eq!(Constraint::RowCol(8, 8).key(), 80);
    assert_eq!(Constraint::RowNum(0, 1).key(), 81);
    assert_eq!(Constraint::ColNum(8, 9).key(), 242);
    assert_eq!(Constraint::BoxNum(8, 9).key(), 323);
}

#[test]
fn sudoku_display_digits() {
    let board = [Cell { row: 0, col: 0, num: 7 }, Cell { row: 0, col: 1, num: 1 }];
    assert_eq!(display(&board), "71");
}
