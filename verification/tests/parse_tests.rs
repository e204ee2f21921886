use yagoll::board::{Board, BorderOpt};
use yagoll::cell::Cell;

fn glider_lines() -> Vec<String> {
    vec![
        "empty".to_string(),
        "_____".to_string(),
        "__#__".to_string(),
        "___#_".to_string(),
        "_###_".to_string(),
        "_____".to_string(),
    ]
}

#[test]
fn parse_cells_marks_only_hash_alive() {
    let row = Board::parse_str_as_cells("#_#x");
    assert_eq!(row, vec![Cell::Alive, Cell::Dead, Cell::Alive, Cell::Dead]);
}

#[test]
fn parse_cells_empty_line() {
    let row = Board::parse_str_as_cells("");
    assert_eq!(row, Vec::<Cell>::new());
}

#[test]
fn parse_border_opt_known_words() {
    assert_eq!(Board::parse_str_as_border_opt("solid"), Some(BorderOpt::Solid));
    assert_eq!(Board::parse_str_as_border_opt("empty"), Some(BorderOpt::Empty));
    assert_eq!(Board::parse_str_as_border_opt("loop"), None);
    assert_eq!(Board::parse_str_as_border_opt(""), None);
}

#[test]
fn from_lines_builds_board() {
    let lines = vec!["solid".to_string(), "#_".to_string(), "_#".to_string()];
    let board = Board::from_lines(&lines).unwrap();

    assert_eq!(board.width, 2);
    assert_eq!(board.height, 2);
    assert_eq!(board.border, BorderOpt::Solid);
    assert_eq!(board.get(0, 0), Cell::Alive);
    assert_eq!(board.get(1, 0), Cell::Dead);
    assert_eq!(board.get(0, 1), Cell::Dead);
    assert_eq!(board.get(1, 1), Cell::Alive);
}

#[test]
fn from_lines_unknown_border_falls_back_to_empty() {
    let lines = vec!["weird".to_string(), "__".to_string()];
    let board = Board::from_lines(&lines).unwrap();
    assert_eq!(board.border, BorderOpt::Empty);
}

#[test]
fn from_lines_rejects_ragged_rows() {
    let lines = vec!["empty".to_string(), "##".to_string(), "#".to_string()];
    assert!(Board::from_lines(&lines).is_none());
}

#[test]
fn from_lines_rejects_empty_input() {
    let lines: Vec<String> = vec![];
    assert!(Board::from_lines(&lines).is_none());
}

#[test]
fn from_lines_renders_glider_layout() {
    let board = Board::from_lines(&glider_lines()).unwrap();
    let expected = "\
    ░░░░░░░░░░\n\
    ░░░░▓▓░░░░\n\
    ░░░░░░▓▓░░\n\
    ░░▓▓▓▓▓▓░░\n\
    ░░░░░░░░░░\n";

    assert!(board.border == BorderOpt::Empty);
    assert_eq!(board.width, 5);
    assert_eq!(board.height, 5);
    assert_eq!(board.render(), expected.to_string());
}

#[test]
fn solid_border_is_ignored_by_flat_counts() {
    // The flat board counts only neighbors on the board, whatever the
    // border option says.
    let board = Board::new(2, 2, BorderOpt::Solid);
    assert_eq!(board.get_live_neighbor_count(0, 0), 0);

    let mut board = Board::new(2, 2, BorderOpt::Solid);
    board.set(1, 1, Cell::Alive);
    assert_eq!(board.get_live_neighbor_count(0, 0), 1);
}

#[test]
fn cell_renders_two_blocks() {
    assert_eq!(Cell::Alive.render(), "▓▓".to_string());
    assert_eq!(Cell::Dead.render(), "░░".to_string());
}

#[test]
fn empty_board_renders_nothing() {
    let mut board = Board::new(0, 0, BorderOpt::Empty);
    assert_eq!(board.render(), "".to_string());
    board.advance_cycle();
    assert_eq!(board.render(), "".to_string());
}

#[test]
fn still_block_stays_put() {
    // A two-by-two block is a still life.
    let mut board = Board::new(4, 4, BorderOpt::Empty);
    board.set(1, 1, Cell::Alive);
    board.set(2, 1, Cell::Alive);
    board.set(1, 2, Cell::Alive);
    board.set(2, 2, Cell::Alive);
    let before = board.render();
    board.advance_n_cycles(3);
    assert_eq!(board.render(), before);
}
