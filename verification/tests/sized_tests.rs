use yagoll::{Board, BorderOpt, Cell};

#[test]
fn sized_solid_border_counts_as_alive() {
    // On an all-dead two-by-two board with a solid border, every cell
    // touches five off-board sites, each counting as one live neighbor.
    let board = Board::<2, 2>::new(BorderOpt::Solid);
    assert_eq!(board.get_live_neighbor_count(0, 0), 5);
    assert_eq!(board.get_live_neighbor_count(1, 1), 5);
}

#[test]
fn sized_loop_border_counts_as_dead() {
    let board = Board::<2, 2>::new(BorderOpt::Loop);
    assert_eq!(board.get_live_neighbor_count(0, 0), 0);
}

#[test]
fn sized_solid_border_breeds_cells() {
    // On a three-by-three board with a solid border, the middle cell of an
    // edge touches exactly three off-board sites and comes alive; a corner
    // touches five and stays dead.
    let mut board = Board::<3, 3>::new(BorderOpt::Solid);
    assert!(board.cell_should_live(0, 1));
    assert!(!board.cell_should_live(0, 0));
    assert!(!board.cell_should_live(1, 1));
    board.advance_cycle();
    assert_eq!(board.get(0, 1), Cell::Alive);
    assert_eq!(board.get(0, 0), Cell::Dead);
    assert_eq!(board.get(1, 1), Cell::Dead);
}

#[test]
fn sized_parse_cells_pads_short_lines() {
    let row = Board::<4, 4>::parse_str_as_cells("#");
    assert_eq!(row, [Cell::Alive, Cell::Dead, Cell::Dead, Cell::Dead]);
}

#[test]
fn sized_parse_border_opt_known_words() {
    assert_eq!(Board::<2, 2>::parse_str_as_border_opt("solid"), Some(BorderOpt::Solid));
    assert_eq!(Board::<2, 2>::parse_str_as_border_opt("empty"), Some(BorderOpt::Empty));
    assert_eq!(Board::<2, 2>::parse_str_as_border_opt("Solid"), None);
}

#[test]
fn sized_from_lines_builds_board() {
    let lines = vec!["solid".to_string(), "#_".to_string(), "_#".to_string()];
    let board = Board::<2, 2>::from_lines(&lines).unwrap();

    assert_eq!(board.border, BorderOpt::Solid);
    assert_eq!(board.get(0, 0), Cell::Alive);
    assert_eq!(board.get(0, 1), Cell::Dead);
    assert_eq!(board.get(1, 0), Cell::Dead);
    assert_eq!(board.get(1, 1), Cell::Alive);
}

#[test]
fn sized_from_lines_leaves_missing_rows_dead() {
    let lines = vec!["empty".to_string(), "##".to_string()];
    let board = Board::<2, 3>::from_lines(&lines).unwrap();
    assert_eq!(board.get(0, 0), Cell::Alive);
    assert_eq!(board.get(0, 1), Cell::Alive);
    assert_eq!(board.get(1, 0), Cell::Dead);
    assert_eq!(board.get(2, 1), Cell::Dead);
}

#[test]
fn sized_from_lines_rejects_wrong_width() {
    let lines = vec!["empty".to_string(), "###".to_string()];
    assert!(Board::<2, 2>::from_lines(&lines).is_none());
}

#[test]
fn sized_from_lines_rejects_too_many_rows() {
    let lines = vec![
        "empty".to_string(),
        "__".to_string(),
        "__".to_string(),
        "__".to_string(),
    ];
    assert!(Board::<2, 2>::from_lines(&lines).is_none());
}

#[test]
fn sized_cell_renders_two_blocks() {
    assert_eq!(Cell::Alive.render(), "▓▓".to_string());
    assert_eq!(Cell::Dead.render(), "░░".to_string());
}

#[test]
fn sized_still_block_stays_put() {
    let mut board = Board::<4, 4>::new(BorderOpt::Empty);
    board.set(1, 1, Cell::Alive);
    board.set(1, 2, Cell::Alive);
    board.set(2, 1, Cell::Alive);
    board.set(2, 2, Cell::Alive);
    let before = board.render();
    board.advance_n_cycles(3);
    assert_eq!(board.render(), before);
}
