use std::collections::VecDeque;
use fastris::board::{
    apply_action, ActionFields, Board, Mino, MinoType, Orientation, Penalty, PlayerAction,
    PlayerActions,
};

fn split_two_board_ascii_art(two_board_ascii_art: &str) -> (String, String) {
    assert!(two_board_ascii_art.contains(">")); // delimiter between boards
    let tmp: (Vec<&str>, Vec<&str>) = two_board_ascii_art
        .split("\n")
        .map(|line| line.split(">").collect::<Vec<&str>>())
        .filter(|pair| pair.len() == 2)
        .map(|mut pair| (pair.swap_remove(0), pair.swap_remove(0)))
        .unzip();
    (tmp.0.join("\n"), tmp.1.join("\n"))
}

fn describe(board: &Board) -> String {
    let mut out = String::new();
    for y in (0..board.spawn_height.max(8) + 1).rev() {
        out.push_str(&format!("{:3} {:016b}\n", y, board.rows[y]));
    }
    out.push_str(&format!(
        "width {} active {:?} hold {:?} upcoming {:?} spawn {}\n",
        board.width, board.active_mino, board.hold, board.upcoming_minos, board.spawn_height
    ));
    out
}

fn run_player_actions_on_board(
    actions: Vec<PlayerAction>,
    board_ascii_art: &str,
) -> Result<(Board, u8), Penalty> {
    let mut board = Board::from_ascii_art(board_ascii_art);
    let mut total_lines_sent = 0;
    for action in actions {
        assert!(board.can_apply_action(&action));
        match apply_action(&action, &mut board) {
            Ok(lines_sent) => {
                total_lines_sent += lines_sent;
            }
            Err(x) => return Err(x),
        }
    }
    Ok((board, total_lines_sent))
}

fn test_player_action_leads_to_board_and_lines_sent(
    actions: Vec<PlayerAction>,
    two_board_ascii_art: &str,
    want_total_lines_sent: u8,
) -> Result<(), Penalty> {
    let (board_start_string, board_want_string) = split_two_board_ascii_art(two_board_ascii_art);
    let want = Board::from_ascii_art(&board_want_string);

    let (board, total_lines_sent) =
        run_player_actions_on_board(actions, board_start_string.as_str())?;
    if board != want {
        println!("got:\n{}", describe(&board));
        println!("want:\n{}", describe(&want));
        panic!();
    }
    assert_eq!(total_lines_sent, want_total_lines_sent);
    Ok(())
}

fn test_player_action_leads_to_board(
    actions: Vec<PlayerAction>,
    two_board_ascii_art: &str,
) -> Result<(), Penalty> {
    test_player_action_leads_to_board_and_lines_sent(actions, two_board_ascii_art, 0)
}

// shorthands for creating player actions.
fn plain(action_type: PlayerActions) -> PlayerAction {
    PlayerAction {
        action_type,
        action: Some(ActionFields::default()),
    }
}
fn rotate_cw() -> PlayerAction {
    plain(PlayerActions::RotateCW)
}
fn rotate_ccw() -> PlayerAction {
    plain(PlayerActions::RotateCCW)
}
fn rotate_180() -> PlayerAction {
    plain(PlayerActions::Rotate180)
}
fn hold() -> PlayerAction {
    plain(PlayerActions::Hold)
}
fn hard_drop() -> PlayerAction {
    plain(PlayerActions::HardDrop)
}
fn soft_drop(repeats: u16) -> PlayerAction {
    PlayerAction {
        action_type: PlayerActions::SoftDrop,
        action: Some(ActionFields { repeats, right: 0 }),
    }
}
fn horizontal(right: i8) -> PlayerAction {
    PlayerAction {
        action_type: PlayerActions::Horizontal,
        action: Some(ActionFields { repeats: 0, right }),
    }
}

#[test]
fn test_oritentation_rotation() {
    for o in [
        Orientation::Up,
        Orientation::Down,
        Orientation::Left,
        Orientation::Right,
    ] {
        assert_eq!(o, o.rotate_cw().rotate_ccw());
        assert_ne!(o, o.rotate_cw());
        assert_eq!(o, o.rotate_180().rotate_180());
        assert_eq!(o.rotate_cw().rotate_cw(), o.rotate_180());
        assert_eq!(o.rotate_ccw().rotate_ccw(), o.rotate_180());
    }
}

#[test]
fn test_tspin_triple() -> Result<(), Penalty> {
    test_player_action_leads_to_board_and_lines_sent(
        vec![
            rotate_cw(),
            horizontal(-1),
            soft_drop(2),
            rotate_ccw(),
            rotate_ccw(),
            hard_drop(),
        ],
        "
    _|    |T  >  _|    | 
     |    |   >   |    | 
     |  ..|   >   |    | 
     |   .|   >   |    | 
     |.. .|   >   |    | 
     |.  .|   >   |  ..| 
     |.. .|   >   |   .| 
    ",
        2, // this should be more in the future
    )
}

#[test]
fn test_zspin_double() -> Result<(), Penalty> {
    test_player_action_leads_to_board_and_lines_sent(
        vec![
            rotate_ccw(),
            horizontal(1),
            soft_drop(2),
            rotate_ccw(),
            hard_drop(),
        ],
        "
    _|    |Z  >  _|    | 
     |    |   >   |    | 
     |  ..|   >   |    | 
     |.  .|   >   |    | 
    ",
        1,
    )
}

#[test]
fn test_skim_t() -> Result<(), Penalty> {
    test_player_action_leads_to_board(
        vec![hard_drop()],
        "
    _|   .|T  >  _|    | 
     |   .|   >   | . .| 
     |  ..|   >   |  ..| 
    ",
    )
}

#[test]
fn test_clutch() -> Result<(), Penalty> {
    test_player_action_leads_to_board(
        vec![hard_drop()],
        "
    _|.    .|I  >  _|      | 
    ",
    )
}

#[test]
fn test_i_multi_clear() -> Result<(), Penalty> {
    test_player_action_leads_to_board_and_lines_sent(
        vec![rotate_ccw(), hard_drop()],
        "
    _|    |I  >  _|    | 
     |. ..|   >   | .  | 
     |. ..|   >   | .  | 
    ",
        1,
    )?;
    test_player_action_leads_to_board_and_lines_sent(
        vec![rotate_ccw(), hard_drop()],
        "
    _|    |I  >  _|    | 
     |. ..|   >   |    | 
     |. ..|   >   |    | 
     |. ..|   >   | .  | 
    ",
        2,
    )?;
    test_player_action_leads_to_board_and_lines_sent(
        vec![rotate_ccw(), hard_drop()],
        "
    _|    |I  >  _|    | 
     |. ..|   >   |    | 
     |   .|   >   |    | 
     |. ..|   >   |    | 
     |. ..|   >   | . .| 
    ",
        2,
    )?;
    test_player_action_leads_to_board_and_lines_sent(
        vec![rotate_ccw(), hard_drop()],
        "
    _|    |I  >  _|    | 
     |. ..|   >   |    | 
     |. ..|   >   |    | 
     |. ..|   >   |    | 
     |. ..|   >   |    | 
    ",
        4, // tetris!
    )
}

#[test]
fn test_penalty_i_rotate_180() {
    match run_player_actions_on_board(
        vec![soft_drop(2), rotate_180()],
        "
       _|          |I
        |...     ..| 
        |...    ...| 
        |...   ....| 
        |...    ...| 
       ",
    ) {
        Ok(_) => panic!("expected error"),
        Err(penalty) => assert!(
            penalty.reason.contains("Can not rotate"),
            "wrong error string: {}",
            penalty.reason
        ),
    }
}

#[test]
fn test_penalty_i_soft_drop() -> Result<(), Penalty> {
    test_player_action_leads_to_board_and_lines_sent(
        vec![rotate_ccw(), horizontal(2), soft_drop(1), hard_drop()],
        "
        |          |  >  |          |  
        |          |  >  |      .   |  
       _|          |I > _|      .   |  
        |...     ..|  >  |...   . ..|  
        |...    ...|  >  |...   ....|  
        |...   ....|  >  |...   ....|  
        |...    ...|  >  |...    ...|  
       ",
        0,
    )
}

#[test]
fn test_spawn_blocked() {
    match run_player_actions_on_board(
        vec![hard_drop()],
        "
        _|   .|I",
    ) {
        Ok(_) => panic!("not supposed to work"),
        Err(penalty) => assert!(
            penalty.reason.contains("TOP-OUT!"),
            "wrong error string: {}",
            penalty.reason
        ),
    }
}

#[test]
fn test_i_spin_at_top() -> Result<(), Penalty> {
    test_player_action_leads_to_board_and_lines_sent(
        vec![rotate_cw(), hard_drop()],
        "
    _|    |I  >  _|    | 
     |... |   >   |    | 
     |... |   >   |    | 
     |... |   >   |    | 
     |... |   >   |    | 
    ",
        4,
    )?;
    test_player_action_leads_to_board_and_lines_sent(
        vec![rotate_cw(), hard_drop()],
        "
    _|    |I  >  _|    | 
     |    |   >   |    | 
     |... |   >   |    | 
     |... |   >   |    | 
     |... |   >   |    | 
     |... |   >   |    | 
    ",
        4,
    )?;
    test_player_action_leads_to_board_and_lines_sent(
        vec![rotate_cw(), hard_drop()],
        "
    _|    |I  >  _|    | 
     |    |   >   |    | 
     |... |   >   |    | 
     |... |   >   |    | 
     |... |   >   |    | 
     |... |   >   |    | 
    ",
        4,
    )?;
    test_player_action_leads_to_board_and_lines_sent(
        vec![rotate_cw(), hard_drop()],
        "
              >   |  . | 
    _|    |I  >  _|  . | 
     |    |   >   |  . | 
     |    |   >   |  . | 
     |... |   >   |... | 
     |... |   >   |... | 
     |... |   >   |... | 
     |... |   >   |... | 
    ",
        0,
    )?;
    test_player_action_leads_to_board_and_lines_sent(
        vec![rotate_cw(), horizontal(1), hard_drop()],
        "
    _|    |I  >  _|    | 
     |    |   >   |    | 
     |    |   >   |    | 
     |    |   >   |    | 
     |    |   >   |    | 
     |... |   >   |    | 
     |... |   >   |    | 
     |... |   >   |    | 
     |... |   >   |    | 
    ",
        4, // tetris!
    )
}

#[test]
fn test_flip_t_skim() -> Result<(), Penalty> {
    test_player_action_leads_to_board(
        vec![rotate_180(), hard_drop()],
        "
    _|   .|T  >  _|    | 
     |   .|   >   |   .| 
     |  ..|   >   | ...| 
    ",
    )
}

#[test]
fn test_apply_hold() -> Result<(), Penalty> {
    test_player_action_leads_to_board(
        vec![hold(), hold(), hard_drop()],
        "
    _|    |T  >  _|    | 
     |    |Z  >  Z| .  | 
     |    |   >   |... | 
    ",
    )?;
    test_player_action_leads_to_board(
        vec![hold(), hard_drop()],
        "
    _|    |T  >  _|    | 
     |    |Z  >  T|..  | 
     |    |   >   | .. | 
    ",
    )
}

#[test]
fn test_apply_horizontal() -> Result<(), Penalty> {
    test_player_action_leads_to_board(
        vec![horizontal(1), hard_drop()],
        "
    _|    |T  >  _|    | 
     |    |   >   |  . | 
     |    |   >   | ...| 
    ",
    )
}

#[test]
fn test_apply_horizontal_penalty() {
    match run_player_actions_on_board(
        vec![horizontal(-1)],
        "
        _|    |T
         |    |
         |    |",
    ) {
        Ok(_) => panic!("not supposed to work"),
        Err(penalty) => assert!(penalty.reason.contains("past left edge")),
    }
    match run_player_actions_on_board(
        vec![horizontal(2)],
        "
        _|    |T
         |    |
         |    |",
    ) {
        Ok(_) => panic!("not supposed to work"),
        Err(penalty) => assert!(penalty.reason.contains("past right edge")),
    }
}

#[test]
fn test_apply_hard_drop() -> Result<(), Penalty> {
    test_player_action_leads_to_board(
        vec![hard_drop()],
        "
    _|    |T  >  _|    |I 
     |    |I  >   |    | 
     |    |   >   | .  | 
     |    |   >   |... | 
    ",
    )
}

#[test]
fn test_apply_hard_drop_ti() -> Result<(), Penalty> {
    test_player_action_leads_to_board(
        vec![hard_drop(), hard_drop()],
        "
        _|    |T  >  _|    |
         |    |I  >   |    |  // horizontal I-piece line clear
         |    |   >   | .  |
         |    |   >   |... |
        ",
    )
}

#[test]
fn test_apply_hard_drop_to() -> Result<(), Penalty> {
    test_player_action_leads_to_board(
        vec![hard_drop(), hard_drop()],
        "
        _|    |T  >  _| .. |
         |    |O  >   | .. |
         |    |   >   | .  |
         |    |   >   |... |
        ",
    )
}

#[test]
fn test_apply_hard_drop_j() -> Result<(), Penalty> {
    test_player_action_leads_to_board(
        vec![hard_drop()],
        "
        _|    |J  >  _|    |
         |    |   >   |    |
         |    |   >   |.   |
         |    |   >   |... |
        ",
    )
}

#[test]
fn test_apply_hard_drop_l() -> Result<(), Penalty> {
    test_player_action_leads_to_board(
        vec![hard_drop()],
        "
        _|    |L  >  _|    |
         |    |   >   |    |
         |    |   >   |  . |
         |    |   >   |... |
        ",
    )
}

#[test]
fn test_apply_hard_drop_s() -> Result<(), Penalty> {
    test_player_action_leads_to_board(
        vec![hard_drop()],
        "
        _|    |S  >  _|    |
         |    |   >   |    |
         |    |   >   | .. |
         |    |   >   |..  |
        ",
    )
}

#[test]
fn test_apply_hard_drop_z() -> Result<(), Penalty> {
    test_player_action_leads_to_board(
        vec![hard_drop()],
        "
        _|    |Z  >  _|    |
         |    |   >   |    |
         |    |   >   |..  |
         |    |   >   | .. |
        ",
    )
}

#[test]
fn test_squares_below_pivot() {
    let mut mino = Mino {
        mino_type: MinoType::I,
        orientation: Orientation::Right,
        pivot_x: 0,
        pivot_y: 0,
    };
    assert_eq!(mino.squares_below_pivot(), 2);
    mino.orientation = Orientation::Left;
    assert_eq!(mino.squares_below_pivot(), 1);
    mino.orientation = Orientation::Up;
    assert_eq!(mino.squares_below_pivot(), 0);
    mino.orientation = Orientation::Down;
    assert_eq!(mino.squares_below_pivot(), 0);
}

#[test]
fn test_apply_soft_drop_with_serialization() {
    let mut b = Board::with_queue(VecDeque::from([MinoType::T]));
    let action2 = soft_drop(3);
    assert_eq!(action2.action_as_soft_drop().unwrap().repeats(), 3);
    assert_eq!(apply_action(&action2, &mut b), Ok(0));
}
