use fastris::board::{Board, MinoType};
use std::collections::VecDeque;

#[test]
fn drawing_marks_and_queue() {
    let board = Board::from_ascii_art(
        "
    // a comment line
     |    |T      // the queue starts here
    _|.   |I
    Z|.. .|
    ",
    );
    assert_eq!(board.width, 4);
    assert_eq!(board.spawn_height, 1);
    assert_eq!(board.hold, Some(MinoType::Z));
    assert_eq!(board.upcoming_minos, VecDeque::from(vec![MinoType::T, MinoType::I]));
    assert_eq!(board.rows[0], 0b1101);
    assert_eq!(board.rows[1], 0b1000);
    assert_eq!(board.rows[2], 0);
    assert_eq!(board.active_mino, None);
}

#[test]
fn drawing_without_spawn_marker_spawns_above() {
    let board = Board::from_ascii_art("\n |..  ..|\n |.    .|\n");
    assert_eq!(board.spawn_height, 2);
    assert_eq!(board.width, 6);
    assert_eq!(board.rows[1], 0b110011);
}

#[test]
fn queue_from_letters() {
    let mut board = Board::new();
    board.add_upcoming_minos_from_str("SZO");
    board.add_upcoming_minos_from_str("");
    assert_eq!(
        board.upcoming_minos,
        VecDeque::from(vec![MinoType::S, MinoType::Z, MinoType::O])
    );
}

#[test]
fn render_small_board() {
    let mut board = Board::from_ascii_art("_|  |T\n |..|\n");
    board.width = 2;
    assert_eq!(board.render(), " |  |T\n_|  | \n |..| \n");
}

#[test]
fn render_falling_piece() {
    let mut board = Board::from_ascii_art(
        "
        _|    |T
         |    |
         |.   |
        ",
    );
    fastris::actions::try_set_active_mino(&mut board).unwrap();
    let text = board.render();
    let lines: Vec<&str> = text.lines().collect();
    assert_eq!(lines.len(), 4);
    assert_eq!(lines[0], " | #  | ");
    assert_eq!(lines[1], "_|#x# | ");
    assert_eq!(lines[3], " |.   | ");
}

#[test]
fn drawing_reads_back() {
    let board = Board::from_ascii_art(
        "
         |        |T
         |        |I
        _|        |O
         |  .     |
        L|. ..  ..|
         |... ....|
        ",
    );
    let text = board.render();
    assert_eq!(Board::from_ascii_art(&text), board);
}

#[test]
fn narrow_board_with_full_rows_reads_back() {
    let mut board = Board::new();
    board.width = 3;
    board.rows[0] = 0b111;
    board.rows[1] = 0b101;
    board.spawn_height = 40;
    board.hold = Some(MinoType::S);
    board.upcoming_minos = VecDeque::from(vec![MinoType::O, MinoType::J, MinoType::L]);
    let drawing = board.render();
    assert_eq!(Board::from_ascii_art(&drawing), board);
}
