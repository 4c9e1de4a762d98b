use fastris::actions::try_set_active_mino;
use fastris::board::{ActionFields, Board, BoardExternalInfluence, MinoType, PlayerAction, PlayerActions};
use fastris::client::BinaryExecutableClient;
use fastris::client_examples::{
    apply_external_influence, get_all_unique_hard_drops, HardDropClient, RightWellClient,
};
use fastris::example_client::ExampleClient;
use fastris::mino::MinoMask;
use std::collections::VecDeque;

fn drops_for(uniques: &Vec<(MinoType, Vec<Vec<PlayerAction>>)>, t: MinoType) -> usize {
    uniques.iter().find(|e| e.0 == t).unwrap().1.len()
}

#[test]
fn test_get_all_uniqe_hard_drops() {
    let uniques = get_all_unique_hard_drops();
    assert_eq!(uniques.len(), 7);
    assert_eq!(drops_for(&uniques, MinoType::O), 8 - 1); // one less then the width
    assert_eq!(drops_for(&uniques, MinoType::I), (8 - 3) + 8);
    assert_eq!(drops_for(&uniques, MinoType::S), (8 - 1) + (8 - 2));
    assert_eq!(drops_for(&uniques, MinoType::Z), (8 - 1) + (8 - 2));
    assert_eq!(drops_for(&uniques, MinoType::L), (8 - 1) * 2 + (8 - 2) * 2);
    assert_eq!(drops_for(&uniques, MinoType::J), (8 - 1) * 2 + (8 - 2) * 2);
    assert_eq!(drops_for(&uniques, MinoType::T), (8 - 1) * 2 + (8 - 2) * 2);
}

#[test]
fn test_find_local_best_action() {
    let mut client = RightWellClient::new();
    let mut board = Board::from_ascii_art(
        "
        _|        |O 
         |        |   
         |.  .... |   
         |.  .... |   
        ",
    );
    try_set_active_mino(&mut board).expect("should have an activatable mino in queue");
    client.set_board(board);
    assert_eq!(client.find_immediate_best_hard_drop(), (0, -2, None));
}

#[test]
fn unique_drops_come_in_order_of_moves() {
    let uniques = get_all_unique_hard_drops();
    let order: Vec<MinoType> = uniques.iter().map(|e| e.0).collect();
    assert_eq!(order, MinoType::ENUM_VALUES.to_vec());
    // The first O drop that works moves the piece 3 columns left, without a turn.
    let first = &uniques[6].1[0];
    assert_eq!(first.len(), 2);
    assert_eq!(first[0].action_type, PlayerActions::Horizontal);
    assert_eq!(first[0].action.unwrap().right, -3);
    assert_eq!(first[1].action_type, PlayerActions::HardDrop);
}

#[test]
fn best_drop_leaves_the_piece_in_front_of_the_queue() {
    let mut client = RightWellClient::new();
    let mut board = Board::new();
    board.add_upcoming_minos_from_str("IT");
    try_set_active_mino(&mut board).unwrap();
    client.set_board(board);
    let (ev, _, _) = client.find_immediate_best_hard_drop();
    // On an empty board every drop lands on row 0; the best ones do not
    // reach into the rightmost column over two or more rows.
    assert_eq!(ev, 0);
    let b = client.board();
    assert_eq!(b.active_mino, None);
    assert_eq!(b.upcoming_minos, VecDeque::from(vec![MinoType::I, MinoType::T]));
}

#[test]
fn expected_value_of_a_right_well_tetris() {
    let board = Board::from_ascii_art(
        "
         |....... |
         |....... |
         |....... |
         |....... |
        ",
    );
    let mask = MinoMask { bottom_row: 0, covered: [1, 1, 1, 1] };
    assert_eq!(RightWellClient::get_expected_value(&board, &mask), 1);
    let higher = MinoMask { bottom_row: 2, covered: [1, 1, 1, 1] };
    assert_eq!(RightWellClient::get_expected_value(&board, &higher), -2 + (2 - 3));
    let two = MinoMask { bottom_row: 5, covered: [1, 1, 0, 0] };
    assert_eq!(RightWellClient::get_expected_value(&board, &two), -5 - 2);
    let none = MinoMask { bottom_row: 1, covered: [2, 6, 0, 0] };
    assert_eq!(RightWellClient::get_expected_value(&board, &none), -1);
}

#[test]
fn external_influence_pushes_garbage_from_below() {
    let mut board = Board::from_ascii_art(
        "
        _|        |
         |  ..    |
        ",
    );
    let mut heights: VecDeque<u8> = VecDeque::from(vec![1]);
    let mut holes: VecDeque<i8> = VecDeque::new();
    let influence = BoardExternalInfluence {
        new_garbage_heights: Some(vec![2]),
        new_garbage_holes: Some(vec![0, 7]),
        new_upcoming_minos: Some(vec![MinoType::S, MinoType::Z]),
    };
    apply_external_influence(&influence, &mut board, &mut heights, &mut holes);
    // The first block (height 1, hole at bit 0) came in first and was pushed up by the second.
    assert_eq!(board.rows[0], 0b0111_1111);
    assert_eq!(board.rows[1], 0b0111_1111);
    assert_eq!(board.rows[2], 0b1111_1110);
    assert_eq!(board.rows[3], 0b0011_0000);
    assert_eq!(board.rows[4], 0);
    assert!(heights.is_empty());
    assert!(holes.is_empty());
    assert_eq!(board.upcoming_minos, VecDeque::from(vec![MinoType::S, MinoType::Z]));
}

#[test]
fn external_influence_keeps_unmatched_heights() {
    let mut board = Board::new();
    let mut heights: VecDeque<u8> = VecDeque::new();
    let mut holes: VecDeque<i8> = VecDeque::new();
    let influence = BoardExternalInfluence {
        new_garbage_heights: Some(vec![3, 1]),
        new_garbage_holes: None,
        new_upcoming_minos: None,
    };
    apply_external_influence(&influence, &mut board, &mut heights, &mut holes);
    assert_eq!(board, Board::new());
    assert_eq!(heights, VecDeque::from(vec![3, 1]));
}

fn hard_drop() -> PlayerAction {
    PlayerAction {
        action_type: PlayerActions::HardDrop,
        action: Some(ActionFields::default()),
    }
}

#[test]
fn example_players_answer_with_a_hard_drop() {
    let influence = BoardExternalInfluence {
        new_garbage_heights: Some(vec![]),
        new_garbage_holes: Some(vec![]),
        new_upcoming_minos: Some(vec![MinoType::T]),
    };
    let mut a = HardDropClient::new();
    assert_eq!(a.respond(&influence), vec![hard_drop()]);
    let mut b = ExampleClient::new();
    assert_eq!(b.respond(&influence), vec![hard_drop()]);
    let mut c = RightWellClient::new();
    assert_eq!(c.respond(&influence), vec![hard_drop()]);
    assert_eq!(c.board().upcoming_minos, VecDeque::from(vec![MinoType::T]));
}

#[test]
fn binary_client_arguments() {
    let client = BinaryExecutableClient {
        relative_path: "hard_drop_client.exe".into(),
        extra_args: vec!["--fast".into()],
    };
    let args = client.command_args("localhost:6734", "client[1]<->versus", 18446744073709551615);
    assert_eq!(
        args,
        vec![
            "localhost:6734".to_string(),
            "client[1]<->versus".to_string(),
            "18446744073709551615".to_string(),
            "--fast".to_string(),
        ]
    );
    assert_eq!(client.command_args("a", "b", 0)[2], "0");
}

#[test]
fn players_accept_only_holes_they_use_on_the_board() {
    let unmatched = BoardExternalInfluence {
        new_garbage_heights: Some(vec![1]),
        new_garbage_holes: Some(vec![3, 20]),
        new_upcoming_minos: None,
    };
    let bad = BoardExternalInfluence {
        new_garbage_heights: Some(vec![1]),
        new_garbage_holes: Some(vec![20]),
        new_upcoming_minos: None,
    };
    assert!(HardDropClient::new().accepts(&unmatched));
    assert!(!HardDropClient::new().accepts(&bad));
    assert!(ExampleClient::new().accepts(&unmatched));
    assert!(!ExampleClient::new().accepts(&bad));
    assert!(RightWellClient::new().accepts(&unmatched));
    assert!(!RightWellClient::new().accepts(&bad));
}
