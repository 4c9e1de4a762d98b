use fastris::board::{
    apply_action, mask_from_mino, ActionFields, Board, Mino, MinoType, Orientation, Penalty,
    PlayerAction, PlayerActions,
};

fn act(action_type: PlayerActions, fields: Option<ActionFields>) -> PlayerAction {
    PlayerAction { action_type, action: fields }
}

fn with_queue(art: &str, queue: &str) -> Board {
    let mut b = Board::from_ascii_art(art);
    b.add_upcoming_minos_from_str(queue);
    b
}

fn err_reason(r: Result<u8, Penalty>) -> String {
    match r {
        Ok(n) => panic!("expected a penalty, got {}", n),
        Err(p) => {
            assert_eq!(p.significance, 10);
            p.reason
        }
    }
}

#[test]
fn penalties_without_a_piece() {
    let empty = "\n_|    |\n |    |\n";
    for (t, want) in [
        (PlayerActions::RotateCW, "Trying to rotate without an active piece"),
        (PlayerActions::HardDrop, "Trying to hard drop without an active piece"),
        (PlayerActions::SoftDrop, "Trying to soft drop without an active piece"),
        (
            PlayerActions::Horizontal,
            "Trying to move horizontally without an active piece",
        ),
    ] {
        let mut b = Board::from_ascii_art(empty);
        assert!(b.can_apply_action(&act(t, Some(ActionFields::default()))));
        let r = apply_action(&act(t, Some(ActionFields::default())), &mut b);
        assert_eq!(err_reason(r), want);
    }
}

#[test]
fn penalties_for_empty_tables() {
    for (t, want) in [
        (PlayerActions::RotateCW, "RotateCW was empty"),
        (PlayerActions::RotateCCW, "RotateCCW was empty"),
        (PlayerActions::Rotate180, "Rotate180 was empty"),
        (PlayerActions::HardDrop, "HardDrop was empty"),
        (PlayerActions::SoftDrop, "SoftDrop was empty"),
        (PlayerActions::Horizontal, "Horizontal was empty"),
        (PlayerActions::Hold, "hold was empty"),
    ] {
        let mut b = with_queue("\n_|    |\n |    |\n", "T");
        let r = apply_action(&act(t, None), &mut b);
        assert_eq!(err_reason(r), want);
        // The piece was taken from the queue all the same.
        assert!(b.active_mino.is_some());
    }
}

#[test]
fn penalties_for_unsupported_actions() {
    let mut b = with_queue("\n_|    |\n |    |\n", "T");
    let r = apply_action(&act(PlayerActions::NONE, Some(ActionFields::default())), &mut b);
    assert_eq!(err_reason(r), "Unsupported PlayerAction: NONE");
    let r = apply_action(&act(PlayerActions::from_byte(42), None), &mut b);
    assert_eq!(err_reason(r), "Unsupported PlayerAction: <UNKNOWN 42>");
}

#[test]
fn soft_drop_penalty_and_forgiveness() {
    let art = "\n_|    |\n |    |\n |    |\n |.   |\n";
    let mut b = with_queue(art, "T");
    let r = apply_action(
        &act(PlayerActions::SoftDrop, Some(ActionFields { repeats: 5, right: 0 })),
        &mut b,
    );
    assert_eq!(err_reason(r), "trying to soft drop below floor");
    // A soft drop that hits the stack stops on it without a penalty.
    let mut b = with_queue("\n_|    |\n |    |\n |    |\n |.   |\n |.   |\n", "J");
    let r = apply_action(
        &act(PlayerActions::SoftDrop, Some(ActionFields { repeats: 4, right: 0 })),
        &mut b,
    );
    assert_eq!(r, Ok(0));
    assert_eq!(b.active_mino.unwrap().pivot_y, 2);
}

#[test]
fn horizontal_collision() {
    let art = "\n_|    |\n |.   |\n";
    let mut b = with_queue(art, "O");
    let down = act(PlayerActions::SoftDrop, Some(ActionFields { repeats: 1, right: 0 }));
    assert_eq!(apply_action(&down, &mut b), Ok(0));
    let left = act(PlayerActions::Horizontal, Some(ActionFields { repeats: 0, right: -1 }));
    assert_eq!(err_reason(apply_action(&left, &mut b)), "colliding with existing piece");
    // The piece stays where it was.
    assert_eq!(b.active_mino.unwrap().pivot_x, 1);
}

#[test]
fn line_clears_send_lines() {
    // Three rows with a one-column gap, and an I piece standing in it.
    let art = "
        _|    |
         |    |
         |    |
         |    |
         |    |
         |... |
         |... |
         |... |
    ";
    let mut b = with_queue(art, "I");
    let cw = act(PlayerActions::RotateCW, Some(ActionFields::default()));
    let drop = act(PlayerActions::HardDrop, Some(ActionFields::default()));
    let right = act(PlayerActions::Horizontal, Some(ActionFields { repeats: 0, right: 1 }));
    assert_eq!(apply_action(&cw, &mut b), Ok(0));
    assert_eq!(apply_action(&right, &mut b), Ok(0));
    assert_eq!(apply_action(&drop, &mut b), Ok(2));
    assert_eq!(b.rows[0], 0b0001);
    assert_eq!(b.rows[1], 0);
    assert!(b.is_well_formed());
}

#[test]
fn hold_swaps_pieces() {
    let mut b = with_queue("\n_|    |\n |    |\n", "TS");
    let hold = act(PlayerActions::Hold, Some(ActionFields::default()));
    assert_eq!(apply_action(&hold, &mut b), Ok(0));
    assert_eq!(b.hold, Some(MinoType::T));
    assert_eq!(b.active_mino, None);
    assert_eq!(apply_action(&hold, &mut b), Ok(0));
    assert_eq!(b.hold, Some(MinoType::S));
    assert_eq!(b.active_mino.unwrap().mino_type, MinoType::T);
}

#[test]
fn masks_of_pieces() {
    let m = Mino {
        mino_type: MinoType::T,
        orientation: Orientation::Up,
        pivot_x: 3,
        pivot_y: 20,
    };
    let mask = mask_from_mino(&m, 8).unwrap();
    assert_eq!(mask.bottom_row, 20);
    assert_eq!(mask.covered, [0b0011_1000, 0b0001_0000, 0, 0]);
    let i = Mino {
        mino_type: MinoType::I,
        orientation: Orientation::Right,
        pivot_x: 0,
        pivot_y: 2,
    };
    let mask = mask_from_mino(&i, 4).unwrap();
    assert_eq!(mask.bottom_row, 0);
    assert_eq!(mask.covered, [0b1000, 0b1000, 0b1000, 0b1000]);
    let u = Mino {
        mino_type: MinoType::from_byte(9),
        orientation: Orientation::Up,
        pivot_x: 1,
        pivot_y: 0,
    };
    let p = mask_from_mino(&u, 4).err().unwrap();
    assert_eq!(p.reason, "unsopported mino type");
}

#[test]
fn piece_extents() {
    let m = Mino {
        mino_type: MinoType::I,
        orientation: Orientation::Up,
        pivot_x: 1,
        pivot_y: 0,
    };
    assert_eq!(m.squares_right_of_pivot(), 2);
    assert_eq!(m.squares_left_of_pivot(), 1);
    assert_eq!(m.squares_above_pivot(), 0);
    let o = Mino { mino_type: MinoType::O, ..m };
    assert_eq!(o.squares_right_of_pivot(), 1);
    assert_eq!(o.squares_left_of_pivot(), 0);
    assert_eq!(o.squares_above_pivot(), 1);
}

#[test]
fn wire_names_and_bytes() {
    assert_eq!(MinoType::from_byte(3), MinoType::L);
    assert!(matches!(MinoType::from_byte(0), MinoType::Unknown(_)));
    assert_eq!(MinoType::from_byte(0).to_byte(), 0);
    assert_eq!(MinoType::L.to_byte(), 3);
    assert_eq!(MinoType::from_byte(-5).to_byte(), -5);
    assert_eq!(MinoType::Z.variant_name(), Some("Z"));
    assert_eq!(MinoType::from_byte(8).variant_name(), Some(""));
    assert_eq!(PlayerActions::from_byte(7), PlayerActions::Horizontal);
    assert!(matches!(PlayerActions::from_byte(9), PlayerActions::Unknown(_)));
    assert_eq!(PlayerActions::from_byte(9).to_byte(), 9);
    assert_eq!(PlayerActions::HardDrop.to_byte(), 5);
    assert_eq!(PlayerActions::Rotate180.variant_name(), Some("Rotate180"));
    assert_eq!(PlayerActions::from_byte(9).variant_name(), Some(""));
    assert_eq!(MinoType::from_letter('J'), MinoType::J);
}

#[test]
fn penalty_and_rows() {
    let p = Penalty::new("oops");
    assert_eq!(p.reason, "oops");
    assert_eq!(p.significance, 10);
    assert_eq!(Board::full_row(8), 0xff);
    assert_eq!(Board::full_row(16), 0xffff);
    assert_eq!(Board::row_with_hole(8, 0), 0xfe);
    assert!(Board::new().is_well_formed());
    let mut bad = Board::new();
    bad.rows[3] = 1;
    assert!(!bad.is_well_formed());
}

#[test]
fn a_move_is_undone_by_the_opposite_move() {
    let mut b = with_queue("\n_|      |\n |      |\n |.     |\n", "S");
    let right = act(PlayerActions::Horizontal, Some(ActionFields { repeats: 0, right: 2 }));
    let left = act(PlayerActions::Horizontal, Some(ActionFields { repeats: 0, right: -2 }));
    assert_eq!(apply_action(&right, &mut b), Ok(0));
    let moved = b.clone();
    assert_eq!(apply_action(&left, &mut b), Ok(0));
    assert_eq!(apply_action(&right, &mut b), Ok(0));
    assert_eq!(b, moved);
    assert_eq!(b.width, 6);
    assert_eq!(b.spawn_height, 2);
}

#[test]
fn turning_an_o_piece_changes_nothing_and_is_penalised() {
    let mut b = Board::with_queue(std::collections::VecDeque::from([MinoType::O]));
    let turn = act(PlayerActions::RotateCW, Some(ActionFields::default()));
    let r = apply_action(&turn, &mut b);
    assert_eq!(err_reason(r), "Turning the piece changed no cell");
    // The turn is taken all the same.
    assert_eq!(b.active_mino.unwrap().orientation, Orientation::Right);
    let mut b = Board::with_queue(std::collections::VecDeque::from([MinoType::T]));
    assert_eq!(apply_action(&turn, &mut b), Ok(0));
}

#[test]
fn a_refused_turn_leaves_a_board_on_which_play_goes_on() {
    let mut b = Board::new();
    b.width = 4;
    b.rows[0] = 0b0001;
    b.rows[1] = 0b1000;
    b.active_mino = Some(Mino {
        mino_type: MinoType::T,
        orientation: Orientation::Up,
        pivot_x: 1,
        pivot_y: 0,
    });
    assert!(b.is_well_formed());
    let turn = act(PlayerActions::RotateCW, Some(ActionFields::default()));
    assert!(b.action_allowed(&turn));
    let r = apply_action(&turn, &mut b);
    assert_eq!(err_reason(r), "Can not rotate piece this way here");
    // The piece stays where the kicks left it: over the stack.
    assert_eq!(
        b.active_mino,
        Some(Mino {
            mino_type: MinoType::T,
            orientation: Orientation::Right,
            pivot_x: 0,
            pivot_y: 1,
        })
    );
    assert!(!b.is_well_formed());
    assert!(b.is_fit_for_actions());
    let mv = act(
        PlayerActions::Horizontal,
        Some(ActionFields { repeats: 0, right: 1 }),
    );
    assert!(b.action_allowed(&mv));
    let r = apply_action(&mv, &mut b);
    assert_eq!(err_reason(r), "colliding with existing piece");
    let again = act(PlayerActions::RotateCCW, Some(ActionFields::default()));
    assert!(b.action_allowed(&again));
}

#[test]
fn action_texts() {
    let mv = act(PlayerActions::Horizontal, Some(ActionFields { repeats: 0, right: -3 }));
    assert_eq!(
        mv.debug_text(),
        "PlayerAction { action_type: Horizontal, action: Horizontal { right: -3 } }"
    );
    let drop = act(PlayerActions::SoftDrop, Some(ActionFields { repeats: 1000, right: 0 }));
    assert_eq!(
        drop.debug_text(),
        "PlayerAction { action_type: SoftDrop, action: SoftDrop { repeats: 1000 } }"
    );
    let turn = act(PlayerActions::RotateCW, Some(ActionFields::default()));
    assert_eq!(
        turn.debug_text(),
        "PlayerAction { action_type: RotateCW, action: RotateCW }"
    );
    let empty = act(PlayerActions::Hold, None);
    assert_eq!(
        empty.debug_text(),
        "PlayerAction { action_type: Hold, action: \"InvalidFlatbuffer: Union discriminant does not match value.\" }"
    );
    let none = act(PlayerActions::NONE, None);
    assert_eq!(none.debug_text(), "PlayerAction { action_type: NONE, action: None }");
    let unknown = act(PlayerActions::from_byte(12), Some(ActionFields::default()));
    assert_eq!(unknown.debug_text(), "PlayerAction { action_type: <UNKNOWN 12>, action: None }");
}

#[test]
fn turns_need_no_well_formed_rows() {
    let mut b = Board::with_queue(std::collections::VecDeque::from([MinoType::T]));
    b.rows[0] = 0b1111_1111;
    b.rows[2] = 0b1000_0000;
    assert!(!b.is_well_formed());
    let turn = act(PlayerActions::RotateCW, Some(ActionFields::default()));
    assert!(b.action_allowed(&turn));
    assert_eq!(apply_action(&turn, &mut b), Ok(0));
    let drop = act(PlayerActions::HardDrop, Some(ActionFields::default()));
    assert!(!b.action_allowed(&drop));
}
