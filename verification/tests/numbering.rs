use crossgrid::api_types::{Pos, TypingDir};
use crossgrid::numbering::BoardContents;

fn contents(rows: &[&str]) -> BoardContents {
    BoardContents {
        data: rows.iter().map(|r| r.chars().collect()).collect(),
    }
}

#[test]
fn numbering_open_grid() {
    // 3x3, fully open: (0,0) starts across and down under one number;
    // (0,1) and (0,2) start down words; (1,0) and (2,0) start across words.
    let c = contents(&["ABC", "DEF", "GHI"]);
    let nums = c.calc_cell_numbers();
    let e = &nums.entries;
    assert_eq!(e.len(), 5);
    assert_eq!((e[0].num, e[0].pos, e[0].across, e[0].down), (1, Pos::new(0, 0), true, true));
    assert_eq!((e[1].num, e[1].pos, e[1].across, e[1].down), (2, Pos::new(0, 1), false, true));
    assert_eq!((e[2].num, e[2].pos, e[2].across, e[2].down), (3, Pos::new(0, 2), false, true));
    assert_eq!((e[3].num, e[3].pos, e[3].across, e[3].down), (4, Pos::new(1, 0), true, false));
    assert_eq!((e[4].num, e[4].pos, e[4].across, e[4].down), (5, Pos::new(2, 0), true, false));
}

#[test]
fn numbering_skips_black_cells() {
    // The black cell gets no number and the counter does not move for it.
    let c = contents(&["AB.", "C.D", ".EF"]);
    let nums = c.calc_cell_numbers();
    let e = &nums.entries;
    // (0,0): across (edge left, open right) and down (edge up, open below).
    // (0,1): no across (open left), no down (black below). (1,0): down? no
    // (black below); across? no (black right). (1,2): down yes. (2,1):
    // across yes. So numbers 1..=3 on three cells.
    assert_eq!(e.len(), 3);
    assert_eq!((e[0].num, e[0].pos, e[0].across, e[0].down), (1, Pos::new(0, 0), true, true));
    assert_eq!((e[1].num, e[1].pos, e[1].across, e[1].down), (2, Pos::new(1, 2), false, true));
    assert_eq!((e[2].num, e[2].pos, e[2].across, e[2].down), (3, Pos::new(2, 1), true, false));
}

#[test]
fn numbers_strictly_increase_and_are_unique() {
    let c = contents(&["ABC", "DEF", "GHI"]);
    let nums = c.calc_cell_numbers();
    for i in 0..nums.entries.len() {
        assert!(nums.entries[i].across || nums.entries[i].down);
        for j in (i + 1)..nums.entries.len() {
            assert!(nums.entries[i].num < nums.entries[j].num);
        }
    }
}

#[test]
fn clue_index_table_contiguous_and_ordered() {
    let c = contents(&["ABC", "DEF", "GHI"]);
    let nums = c.calc_cell_numbers();
    let table = nums.calc_num_2_clue_idx();
    let t = &table.0;
    // 3 across starts + 5 down... the open 3x3 has 3 across and 3 down
    // numbers: size is their sum.
    let across = nums.entries.iter().filter(|e| e.across).count();
    let down = nums.entries.iter().filter(|e| e.down).count();
    assert_eq!(t.len(), across + down);
    for (k, row) in t.iter().enumerate() {
        assert_eq!(row.idx, k);
    }
    // Ascending number, across before down on the tied number 1.
    assert_eq!((t[0].pos, t[0].dir), (Pos::new(0, 0), TypingDir::Across));
    assert_eq!((t[1].pos, t[1].dir), (Pos::new(0, 0), TypingDir::Down));
    assert_eq!((t[2].pos, t[2].dir), (Pos::new(0, 1), TypingDir::Down));
    assert_eq!((t[3].pos, t[3].dir), (Pos::new(0, 2), TypingDir::Down));
    assert_eq!((t[4].pos, t[4].dir), (Pos::new(1, 0), TypingDir::Across));
    assert_eq!((t[5].pos, t[5].dir), (Pos::new(2, 0), TypingDir::Across));
}

#[test]
fn table_lookup_finds_keys() {
    let c = contents(&["ABC", "DEF", "GHI"]);
    let table = c.calc_cell_numbers().calc_num_2_clue_idx();
    assert_eq!(table.get(&Pos::new(0, 0), &TypingDir::Across), Some(0));
    assert_eq!(table.get(&Pos::new(0, 0), &TypingDir::Down), Some(1));
    assert_eq!(table.get(&Pos::new(2, 0), &TypingDir::Across), Some(5));
    assert_eq!(table.get(&Pos::new(1, 1), &TypingDir::Across), None);
}

#[test]
fn pos_of_num_finds_cells() {
    let c = contents(&["AB.", "C.D", ".EF"]);
    let nums = c.calc_cell_numbers();
    assert_eq!(nums.pos_of_num(1), Some(Pos::new(0, 0)));
    assert_eq!(nums.pos_of_num(3), Some(Pos::new(2, 1)));
    assert_eq!(nums.pos_of_num(9), None);
}

#[test]
fn grid_queries() {
    let c = contents(&["AB.", "C.D", ".EF"]);
    assert_eq!(c.height(), 3);
    assert_eq!(c.width(), 3);
    assert!(c.is_black_cell(0, 2));
    assert!(!c.is_black_cell(0, 0));
    assert!(c.cell_needs_across_number(0, 0));
    assert!(c.cell_needs_down_number(0, 0));
    assert!(!c.cell_needs_across_number(0, 1));
}
