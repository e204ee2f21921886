use yagoll::{Board, BorderOpt, Cell};

// ▓▓░░░░░░
// ░░▓▓░░░░
// ░░░░▓▓░░
// ░░░░░░▓▓
fn get_4x4_board() -> Board<4, 4> {
    let mut board = Board::<4, 4>::new(BorderOpt::Empty);

    board.set(0, 0, Cell::Alive);
    board.set(1, 1, Cell::Alive);
    board.set(2, 2, Cell::Alive);
    board.set(3, 3, Cell::Alive);

    board
}

// ░░▓▓░░
// ░░▓▓░░
// ░░▓▓░░
fn get_blinker_board() -> Board<3, 3> {
    let mut board = Board::<3, 3>::new(BorderOpt::Empty);

    board.set(0, 1, Cell::Alive);
    board.set(1, 1, Cell::Alive);
    board.set(2, 1, Cell::Alive);

    board
}

// ░░▓▓░░░░░░
// ░░░░▓▓░░░░
// ▓▓▓▓▓▓░░░░
// ░░░░░░░░░░
// ░░░░░░░░░░
fn get_glider_board() -> Board<5, 5> {
    let mut board = Board::<5, 5>::new(BorderOpt::Empty);

    board.set(0, 1, Cell::Alive);
    board.set(1, 2, Cell::Alive);
    board.set(2, 0, Cell::Alive);
    board.set(2, 1, Cell::Alive);
    board.set(2, 2, Cell::Alive);

    board
}

fn get_rectangular_board() -> Board<5, 3> {
    let mut board = Board::<5, 3>::new(BorderOpt::Empty);

    board.set(1, 1, Cell::Alive);
    board.set(1, 2, Cell::Alive);
    board.set(1, 3, Cell::Alive);

    board
}

#[test]
fn lib_init_default_board() {
    let board = Board::<10, 10>::default();
    assert_eq!(
        board,
        Board::<10, 10> {
            border: BorderOpt::Empty,
            cells: [[Cell::Dead; 10]; 10],
        }
    );
}

#[test]
fn lib_display_board() {
    let board = get_4x4_board();

    assert_eq!(
        board.render(),
        "▓▓░░░░░░\n\
         ░░▓▓░░░░\n\
         ░░░░▓▓░░\n\
         ░░░░░░▓▓\n"
            .to_string()
    );
}

#[test]
fn lib_correct_neighbor_count() {
    let board_4x4 = get_4x4_board();
    let board_blinker = get_blinker_board();

    assert_eq!(board_4x4.get_live_neighbor_count(0, 0), 1);
    assert_eq!(board_4x4.get_live_neighbor_count(1, 1), 2);
    assert_eq!(board_4x4.get_live_neighbor_count(3, 3), 1);

    assert_eq!(board_blinker.get_live_neighbor_count(0, 0), 2);
    assert_eq!(board_blinker.get_live_neighbor_count(1, 1), 2);
    assert_eq!(board_blinker.get_live_neighbor_count(2, 1), 1);
}

#[test]
fn lib_should_cell_live() {
    let board = get_4x4_board();

    assert!(!board.cell_should_live(0, 0));
    assert!(board.cell_should_live(1, 1));
    assert!(!board.cell_should_live(3, 3));
}

#[test]
fn lib_blinker_should_blink() {
    let mut board = get_blinker_board();

    println!("{}", board.render());
    board.advance_cycle();
    println!("{}", board.render());

    assert_eq!(
        board.render(),
        "░░░░░░\n\
         ▓▓▓▓▓▓\n\
         ░░░░░░\n"
            .to_string()
    );

    board.advance_cycle();
    println!("{}", board.render());

    assert_eq!(
        board.render(),
        "░░▓▓░░\n\
         ░░▓▓░░\n\
         ░░▓▓░░\n"
            .to_string()
    );
}

#[test]
fn lib_gilder_should_glide() {
    let mut board = get_glider_board();
    let expected = "\
    ░░░░░░░░░░\n\
    ░░░░░░░░░░\n\
    ░░░░░░▓▓░░\n\
    ░░░░░░░░▓▓\n\
    ░░░░▓▓▓▓▓▓\n";

    board.advance_n_cycles(8); // 8 cycles to fully traverse board

    println!("Expected:\n{}\nActual:\n{}", expected, board.render());
    assert_eq!(board.render(), expected.to_string());
}

#[test]
fn lib_rectangle_should_rectangle() {
    let board = get_rectangular_board();
    let expected = "\
    ░░░░░░░░░░\n\
    ░░▓▓▓▓▓▓░░\n\
    ░░░░░░░░░░\n";

    println!("{:#?}", board);

    println!("Expected:\n{}\nActual:\n{}", expected, board.render());
    assert_eq!(board.render(), expected.to_string());
}
