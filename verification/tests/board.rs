use crossgrid::api_types::{DeltaPos, Direction, Msg, Pos, TypingDir};
use crossgrid::numbering::{ClueIdxEntry, Pos2ClueIdx};
use crossgrid::state::{Board, BoardError, Cell};

fn grid(rows: &[&str]) -> Vec<Vec<Cell>> {
    rows.iter()
        .map(|r| {
            r.chars()
                .map(|c| match c {
                    '.' => Cell::Black,
                    '_' => Cell::Empty,
                    l => Cell::OccupiedRight(l),
                })
                .collect()
        })
        .collect()
}

fn board(solution: &[&str]) -> Board {
    let sol = grid(solution);
    let content: Vec<Vec<Cell>> = sol
        .iter()
        .map(|row| row.iter().map(|_| Cell::Empty).collect())
        .collect();
    Board::new(String::from("test"), content, sol, Vec::new(), Pos2ClueIdx(Vec::new())).unwrap()
}

#[test]
fn direction_alternate_pairing() {
    assert!(matches!(Direction::Right.alternate(), Direction::Down));
    assert!(matches!(Direction::Down.alternate(), Direction::Right));
    assert!(matches!(Direction::Left.alternate(), Direction::Up));
    assert!(matches!(Direction::Up.alternate(), Direction::Left));
}

#[test]
fn typing_dir_toggle() {
    assert_eq!(TypingDir::Across.toggle(), TypingDir::Down);
    assert_eq!(TypingDir::Down.toggle(), TypingDir::Across);
}

#[test]
fn pos_add_ip() {
    let mut p = Pos::new(2, 3);
    p.add_ip(&DeltaPos::new(-1, 1));
    assert_eq!(p, Pos::new(1, 4));
    p.add_ip(&DeltaPos::new(0, -4));
    assert_eq!(p, Pos::new(1, 0));
}

#[test]
fn cell_get_char() {
    assert_eq!(Cell::Empty.get_char(), ' ');
    assert_eq!(Cell::Black.get_char(), ' ');
    assert_eq!(Cell::OccupiedRight('A').get_char(), 'A');
    assert_eq!(Cell::OccupiedWrong('Z').get_char(), 'Z');
}

#[test]
fn board_new_rejects_degenerate_grids() {
    let e = Board::new(
        String::from("t"),
        Vec::new(),
        Vec::new(),
        Vec::new(),
        Pos2ClueIdx(Vec::new()),
    )
    .unwrap_err();
    assert_eq!(e, BoardError::DegenerateGrid);

    let all_black = grid(&["..", ".."]);
    let content = grid(&["__", "__"]);
    let e = Board::new(
        String::from("t"),
        content,
        all_black,
        Vec::new(),
        Pos2ClueIdx(Vec::new()),
    )
    .unwrap_err();
    assert_eq!(e, BoardError::DegenerateGrid);
}

#[test]
fn board_new_rejects_mismatched_grids() {
    let sol = grid(&["AB", "CD"]);
    let content = grid(&["__"]);
    let e = Board::new(String::from("t"), content, sol, Vec::new(), Pos2ClueIdx(Vec::new()))
        .unwrap_err();
    assert_eq!(e, BoardError::MismatchedGrids);
}

#[test]
fn four_rights_return_to_start() {
    // A 4-wide grid with no black cells: four single Right steps cycle the
    // column and leave the row alone.
    let mut b = board(&["ABCD", "EFGH"]);
    assert_eq!(b.cur_pos, Pos::new(0, 0));
    let mut wrapped = false;
    for _ in 0..4 {
        wrapped = b.move_cursor(Direction::Right);
    }
    assert_eq!(b.cur_pos, Pos::new(0, 0));
    assert!(wrapped);
}

#[test]
fn right_wrap_pairs_with_down() {
    // Off the right edge the move also steps down one row.
    let mut b = board(&["ABCD", "EFGH"]);
    for _ in 0..3 {
        b.move_cursor(Direction::Right);
    }
    assert_eq!(b.cur_pos, Pos::new(0, 3));
    b.move_cursor_until_not_black(Direction::Right);
    assert_eq!(b.cur_pos, Pos::new(1, 0));
}

#[test]
fn left_wrap_pairs_with_up() {
    let mut b = board(&["ABCD", "EFGH"]);
    b.move_cursor_until_not_black(Direction::Left);
    assert_eq!(b.cur_pos, Pos::new(1, 3));
}

#[test]
fn move_skips_black_cells() {
    let mut b = board(&["A.CD"]);
    b.move_cursor_until_not_black(Direction::Right);
    assert_eq!(b.cur_pos, Pos::new(0, 2));
}

#[test]
fn selection_contains_cursor_and_stops_at_black() {
    let mut b = board(&["AB.CD", "EFGHI"]);
    assert!(b.cur_sel.contains(&Pos::new(0, 0)));
    assert!(b.cur_sel.contains(&Pos::new(0, 1)));
    assert!(!b.cur_sel.contains(&Pos::new(0, 2)));
    assert!(!b.cur_sel.contains(&Pos::new(0, 3)));
    assert_eq!(b.cur_sel.first_pos(), Some(Pos::new(0, 0)));

    b.move_cursor_until_not_black(Direction::Down);
    assert_eq!(b.cur_pos, Pos::new(1, 0));
    assert!(b.cur_sel.contains(&Pos::new(1, 0)));
    assert!(b.cur_sel.contains(&Pos::new(1, 4)));
    assert!(!b.cur_sel.contains(&Pos::new(0, 0)));
}

#[test]
fn selection_degenerates_between_black_cells() {
    let mut b = board(&[".A.", "BCD"]);
    b.move_cursor_until_not_black(Direction::Right);
    assert_eq!(b.cur_pos, Pos::new(0, 1));
    assert!(b.cur_sel.contains(&Pos::new(0, 1)));
    assert!(!b.cur_sel.contains(&Pos::new(0, 0)));
    assert!(!b.cur_sel.contains(&Pos::new(0, 2)));
    assert!(!b.cur_sel.contains(&Pos::new(1, 1)));
}

#[test]
fn toggle_recomputes_selection() {
    let mut b = board(&["AB", "CD"]);
    assert_eq!(b.cur_dir, TypingDir::Across);
    assert!(b.cur_sel.contains(&Pos::new(0, 1)));
    assert!(!b.cur_sel.contains(&Pos::new(1, 0)));
    b.toggle_typing_dir();
    assert_eq!(b.cur_dir, TypingDir::Down);
    assert!(b.cur_sel.contains(&Pos::new(1, 0)));
    assert!(!b.cur_sel.contains(&Pos::new(0, 1)));
    assert_eq!(b.cur_pos, Pos::new(0, 0));
}

#[test]
fn type_letter_correct_incorrect_clear() {
    let mut b = board(&["AB"]);
    b.type_letter('A', false);
    assert_eq!(b.content[0][0], Cell::OccupiedRight('A'));
    assert_eq!(b.cur_pos, Pos::new(0, 0));

    b.type_letter('B', false);
    assert_eq!(b.content[0][0], Cell::OccupiedWrong('B'));

    b.type_letter(' ', false);
    assert_eq!(b.content[0][0], Cell::Empty);
    assert_eq!(b.cur_pos, Pos::new(0, 0));
}

#[test]
fn type_letter_advances_by_typing_direction() {
    let mut b = board(&["AB", "CD"]);
    b.type_letter('A', true);
    assert_eq!(b.cur_pos, Pos::new(0, 1));

    let mut b = board(&["AB", "CD"]);
    b.toggle_typing_dir();
    b.type_letter('A', true);
    assert_eq!(b.cur_pos, Pos::new(1, 0));
}

#[test]
fn typing_scenario_three_by_three() {
    // All-empty 3x3 player grid over an all-letter solution, cursor (0,0),
    // Across: typing the right letter marks it correct and moves right.
    let mut b = board(&["XYZ", "ABC", "DEF"]);
    b.type_letter('X', true);
    assert_eq!(b.content[0][0], Cell::OccupiedRight('X'));
    assert_eq!(b.cur_pos, Pos::new(0, 1));
}

#[test]
fn typing_wraps_through_whole_grid() {
    // Nine letters typed Across from (0,0) visit all nine cells of an open
    // 3x3 grid exactly once and bring the cursor back to the start.
    let mut b = board(&["XYZ", "ABC", "DEF"]);
    for _ in 0..9 {
        b.type_letter('Q', true);
    }
    assert_eq!(b.cur_pos, Pos::new(0, 0));
    for r in 0..3 {
        for c in 0..3 {
            assert_eq!(b.content[r][c].get_char(), 'Q');
        }
    }
    // After four letters the cursor sits one row down, one column in.
    let mut b = board(&["XYZ", "ABC", "DEF"]);
    for _ in 0..4 {
        b.type_letter('Q', true);
    }
    assert_eq!(b.cur_pos, Pos::new(1, 1));
}

#[test]
fn update_dispatches_commands() {
    let mut b = board(&["AB", "CD"]);
    b.update(Msg::TypeLetter('A'));
    assert_eq!(b.content[0][0], Cell::OccupiedRight('A'));
    assert_eq!(b.cur_pos, Pos::new(0, 1));
    b.update(Msg::MoveCursor(Direction::Left));
    assert_eq!(b.cur_pos, Pos::new(0, 0));
    b.update(Msg::ClearCell);
    assert_eq!(b.content[0][0], Cell::Empty);
    assert_eq!(b.cur_pos, Pos::new(0, 0));
    b.update(Msg::ToggleTypingDir);
    assert_eq!(b.cur_dir, TypingDir::Down);
}

#[test]
fn current_clue_returns_clue_text() {
    let sol = grid(&["AB", "CD"]);
    let content = grid(&["__", "__"]);
    let clues = vec![
        String::from("first across"),
        String::from("first down"),
        String::from("second down"),
        String::from("second across"),
    ];
    let table = Pos2ClueIdx(vec![
        ClueIdxEntry { pos: Pos::new(0, 0), dir: TypingDir::Across, idx: 0 },
        ClueIdxEntry { pos: Pos::new(0, 0), dir: TypingDir::Down, idx: 1 },
        ClueIdxEntry { pos: Pos::new(0, 1), dir: TypingDir::Down, idx: 2 },
        ClueIdxEntry { pos: Pos::new(1, 0), dir: TypingDir::Across, idx: 3 },
    ]);
    let mut b = Board::new(String::from("t"), content, sol, clues, table).unwrap();
    assert_eq!(b.current_clue(), "first across");
    b.toggle_typing_dir();
    assert_eq!(b.current_clue(), "first down");
    b.move_cursor_until_not_black(Direction::Right);
    // Cursor (0,1), typing Down: the word starts at (0,1).
    assert_eq!(b.current_clue(), "second down");
}

#[test]
fn current_clue_placeholder_when_lookup_fails() {
    let b = board(&["AB"]);
    assert_eq!(b.current_clue(), "clue not found");
}

#[test]
fn board_queries() {
    let b = board(&["AB.", "CDE"]);
    assert_eq!(b.height(), 2);
    assert_eq!(b.width(), 3);
    assert!(b.is_black_cell(&Pos::new(0, 2)));
    assert!(!b.is_black_cell(&Pos::new(0, 0)));
    assert!(!b.is_black_cell(&Pos::new(5, 5)));
}
