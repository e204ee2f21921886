use yagoll::board::{Board, BorderOpt};
use yagoll::cell::Cell;

// ▓▓░░░░░░
// ░░▓▓░░░░
// ░░░░▓▓░░
// ░░░░░░▓▓
fn get_4x4_board() -> Board {
    let mut board = Board::new(4, 4, BorderOpt::Empty);

    board.set(0, 0, Cell::Alive);
    board.set(1, 1, Cell::Alive);
    board.set(2, 2, Cell::Alive);
    board.set(3, 3, Cell::Alive);

    board
}

// ░░▓▓░░
// ░░▓▓░░
// ░░▓▓░░
fn get_blinker_board() -> Board {
    let mut board = Board::new(3, 3, BorderOpt::Empty);

    board.set(1, 0, Cell::Alive);
    board.set(1, 1, Cell::Alive);
    board.set(1, 2, Cell::Alive);

    board
}

// ░░▓▓░░░░░░
// ░░░░▓▓░░░░
// ▓▓▓▓▓▓░░░░
// ░░░░░░░░░░
// ░░░░░░░░░░
fn get_glider_board() -> Board {
    let mut board = Board::new(5, 5, BorderOpt::Empty);

    board.set(0, 1, Cell::Alive);
    board.set(1, 2, Cell::Alive);
    board.set(2, 0, Cell::Alive);
    board.set(2, 1, Cell::Alive);
    board.set(2, 2, Cell::Alive);

    board
}

fn get_rectangular_board() -> Board {
    let mut board = Board::new(5, 3, BorderOpt::Empty);

    board.set(1, 1, Cell::Alive);
    board.set(2, 1, Cell::Alive);
    board.set(3, 1, Cell::Alive);

    board
}

#[test]
fn board_init_default_board() {
    let board = Board::default();
    assert_eq!(
        board,
        Board {
            width: 10,
            height: 10,
            border: BorderOpt::Empty,
            cells: vec![Cell::Dead; 10 * 10],
        }
    );
}

#[test]
fn board_display_board() {
    let board = get_4x4_board();

    assert_eq!(
        board.render(),
        "▓▓░░░░░░\n\
         ░░▓▓░░░░\n\
         ░░░░▓▓░░\n\
         ░░░░░░▓▓\n"
            .to_string()
    );
}

#[test]
fn board_correct_neighbor_count() {
    let board_4x4 = get_4x4_board();
    let board_blinker = get_blinker_board();

    assert_eq!(board_4x4.get_live_neighbor_count(0, 0), 1);
    assert_eq!(board_4x4.get_live_neighbor_count(1, 1), 2);
    assert_eq!(board_4x4.get_live_neighbor_count(3, 3), 1);

    assert_eq!(board_blinker.get_live_neighbor_count(0, 0), 2);
    assert_eq!(board_blinker.get_live_neighbor_count(1, 1), 2);
    assert_eq!(board_blinker.get_live_neighbor_count(2, 1), 3);
}

#[test]
fn board_should_cell_live() {
    let board = get_4x4_board();

    assert!(!board.cell_should_live(0, 0));
    assert!(board.cell_should_live(1, 1));
    assert!(!board.cell_should_live(3, 3));
}

#[test]
fn board_blinker_should_blink() {
    let mut board = get_blinker_board();

    println!("{}", board.render());
    board.advance_cycle();
    println!("{}", board.render());

    assert_eq!(
        board.render(),
        "░░░░░░\n\
         ▓▓▓▓▓▓\n\
         ░░░░░░\n"
            .to_string()
    );

    board.advance_cycle();
    println!("{}", board.render());

    assert_eq!(
        board.render(),
        "░░▓▓░░\n\
         ░░▓▓░░\n\
         ░░▓▓░░\n"
            .to_string()
    );
}

#[test]
fn board_gilder_should_glide() {
    let mut board = get_glider_board();
    let expected = "\
    ░░░░░░░░░░\n\
    ░░░░░░▓▓░░\n\
    ░░░░░░░░▓▓\n\
    ░░░░▓▓▓▓▓▓\n\
    ░░░░░░░░░░\n";

    board.advance_n_cycles(6); // 8 cycles to fully traverse board

    println!("Expected:\n{}\nActual:\n{}", expected, board.render());
    assert_eq!(board.render(), expected.to_string());
}

#[test]
fn board_rectangle_should_rectangle() {
    let board = get_rectangular_board();
    let expected = "\
    ░░░░░░░░░░\n\
    ░░▓▓▓▓▓▓░░\n\
    ░░░░░░░░░░\n";

    println!("{:#?}", board);

    println!("Expected:\n{}\nActual:\n{}", expected, board.render());
    assert_eq!(board.render(), expected.to_string());
}
