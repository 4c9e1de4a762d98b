use fastris::board::{ActionFields, Board, Mino, MinoType, Orientation, PlayerAction, PlayerActions};
use fastris::client_examples::HardDropClient;
use fastris::versus::{draw_secrets, MatchError, MatchOutcome, MatchState, TurnOutcome, Versus};
use rand::SeedableRng;
use rand_chacha::ChaCha8Rng;
use std::collections::VecDeque;

fn hard_drop() -> PlayerAction {
    PlayerAction {
        action_type: PlayerActions::HardDrop,
        action: Some(ActionFields::default()),
    }
}

fn sorted(pieces: &VecDeque<MinoType>) -> Vec<MinoType> {
    let mut v: Vec<MinoType> = pieces.iter().copied().collect();
    v.sort();
    v
}

#[test]
fn new_match_deals_the_same_bag_to_everyone() {
    let v = Versus::new(2, ChaCha8Rng::seed_from_u64(4));
    assert_eq!(v.boards.len(), 2);
    assert_eq!(v.boards[0], Board::new());
    assert_eq!(v.unused_upcoming_minos[0], v.unused_upcoming_minos[1]);
    assert_eq!(v.unused_upcoming_minos[0], v.unsent_upcoming_minos[1]);
    assert_eq!(sorted(&v.unused_upcoming_minos[0]), MinoType::ENUM_VALUES.to_vec());
    // The bag was shuffled.
    assert_ne!(v.mino_bag, MinoType::ENUM_VALUES.to_vec());
    assert!(v.unused_garbage_heights.iter().all(|q| q.is_empty()));
    assert!(v.unsent_garbage_holes.iter().all(|q| q.is_empty()));
}

#[test]
fn same_seed_same_match() {
    let a = Versus::new(2, ChaCha8Rng::seed_from_u64(7));
    let b = Versus::new(2, ChaCha8Rng::seed_from_u64(7));
    assert_eq!(a.mino_bag, b.mino_bag);
}

#[test]
fn start_board_fills_the_queue_and_tells_it() {
    let mut v = Versus::new(2, ChaCha8Rng::seed_from_u64(4));
    let bag = v.mino_bag.clone();
    let resp = v.start_board(0);
    // The whole first bag was queued as not told at the start, and the five
    // pieces moved into the queue are told too.
    let mut told = bag.clone();
    told.extend_from_slice(&bag[..5]);
    assert_eq!(resp.new_upcoming_minos, Some(told));
    assert_eq!(resp.new_garbage_heights, Some(vec![]));
    assert_eq!(resp.new_garbage_holes, Some(vec![]));
    assert_eq!(v.boards[0].upcoming_minos, VecDeque::from(bag[..5].to_vec()));
    assert_eq!(v.unused_upcoming_minos[0], VecDeque::from(bag[5..].to_vec()));
    assert!(v.unsent_upcoming_minos[0].is_empty());
    // The other player's stream is untouched.
    assert_eq!(v.unused_upcoming_minos[1], VecDeque::from(bag.clone()));
}

#[test]
fn refill_deals_a_new_bag_to_every_stream() {
    let mut v = Versus::new(2, ChaCha8Rng::seed_from_u64(11));
    v.start_board(0);
    // Two pieces are left in player 0's stream; five more hard drops need a new bag.
    for _ in 0..5 {
        assert!(v.action_ready(&hard_drop(), 0));
        assert!(v.apply_action(&hard_drop(), 0).is_ok());
    }
    assert_eq!(v.boards[0].upcoming_minos.len(), 5);
    let fresh: Vec<MinoType> = v.mino_bag.clone();
    assert_eq!(sorted(&VecDeque::from(fresh.clone())), MinoType::ENUM_VALUES.to_vec());
    let stream1: Vec<MinoType> = v.unused_upcoming_minos[1].iter().copied().collect();
    assert_eq!(stream1.len(), 14);
    assert_eq!(&stream1[7..], &fresh[..]);
}

#[test]
fn cleared_lines_become_garbage_for_the_other_player() {
    let mut v = Versus::new(2, ChaCha8Rng::seed_from_u64(4));
    let mut board = Board::from_ascii_art(
        "
        _|        |
         |        |
         |...  ...|
         |...  ...|
        ",
    );
    board.add_upcoming_minos_from_str("O");
    v.boards[0] = board;
    assert!(v.apply_action(&hard_drop(), 0).is_ok());
    // Two lines cleared send one.
    assert_eq!(v.unused_garbage_heights[1], VecDeque::from(vec![1]));
    assert_eq!(v.unsent_garbage_heights[1], VecDeque::from(vec![1]));
    assert_eq!(v.boards[0].rows[0], 0);

    // Player 1 starts: the garbage sent to it comes in, with a hole drawn
    // for every player.
    let resp = v.start_board(1);
    let h1 = v.unused_garbage_holes[0][0];
    assert!(0 <= h1 && h1 < 8);
    assert_eq!(resp.new_garbage_holes, Some(vec![h1]));
    assert_eq!(resp.new_garbage_heights, Some(vec![1]));
    assert_eq!(v.unsent_garbage_holes[0], VecDeque::from(vec![h1]));
    assert!(v.unsent_garbage_holes[1].is_empty());
    assert!(v.unused_garbage_holes[1].is_empty());
    assert_eq!(v.boards[1].rows[0], Board::row_with_hole(8, h1));
    assert_eq!(v.boards[1].rows[1], 0);

    // After its hard drop, every block sent to it so far comes in again,
    // with the next hole.
    assert!(v.apply_action(&hard_drop(), 1).is_ok());
    assert_eq!(v.unused_garbage_heights[0], VecDeque::from(vec![0]));
    let h2 = v.unused_garbage_holes[0][1];
    assert_eq!(v.unsent_garbage_holes[0], VecDeque::from(vec![h1, h2]));
    assert_eq!(v.unsent_garbage_holes[1], VecDeque::from(vec![h2]));
    assert!(v.unused_garbage_holes[1].is_empty());
    assert_eq!(v.boards[1].rows[0], Board::row_with_hole(8, h2));
    assert_eq!(v.boards[1].rows[1], Board::row_with_hole(8, h1));
    assert_ne!(v.boards[1].rows[2], 0);
}

#[test]
fn handle_actions_answers_with_what_was_not_told() {
    let mut v = Versus::new(2, ChaCha8Rng::seed_from_u64(4));
    v.start_board(0);
    let bag = v.mino_bag.clone();
    match v.handle_actions(&vec![hard_drop()], 0) {
        TurnOutcome::Answer(resp) => {
            assert_eq!(resp.new_upcoming_minos, Some(vec![bag[5]]));
            assert_eq!(resp.new_garbage_heights, Some(vec![]));
        }
        _ => panic!("want an answer"),
    }
    match v.handle_actions(&vec![hard_drop()], 1) {
        TurnOutcome::Answer(resp) => {
            // Player 1 had no piece yet: the hard drop was forgiven.
            assert_eq!(resp.new_garbage_heights, Some(vec![0]));
        }
        _ => panic!("want an answer"),
    }
}

#[test]
fn topping_out_loses_the_match() {
    let mut v = Versus::new(2, ChaCha8Rng::seed_from_u64(4));
    let mut board = Board::from_ascii_art(
        "
        _|   .    |
         |   .    |
        ",
    );
    board.add_upcoming_minos_from_str("T");
    v.boards[0] = board;
    match v.handle_actions(&vec![hard_drop(), hard_drop()], 0) {
        TurnOutcome::Lost(p) => {
            assert_eq!(p.reason, "TOP-OUT!");
            assert_eq!(p.significance, 100);
        }
        _ => panic!("want a lost match"),
    }
}

#[test]
fn match_bookkeeping() {
    assert_eq!(MatchState::new(&vec![1, 2, 3]).err(), Some(MatchError::PlayerCount(3)));
    let mut m = MatchState::new(&vec![10, 20]).unwrap();
    assert!(m.waiting());
    assert_eq!(m.connect(99), None);
    assert_eq!(m.connect(20), Some(1));
    assert_eq!(m.connect(20), None);
    assert!(m.waiting());
    assert_eq!(m.connect(10), Some(0));
    assert!(!m.waiting());
    assert_eq!(m.finish(0), Some(MatchOutcome { winner_index: 1 }));
}

#[test]
fn secrets_are_drawn_per_player() {
    let mut seed = ChaCha8Rng::seed_from_u64(4);
    let secrets = draw_secrets(3, &mut seed);
    assert_eq!(secrets.len(), 3);
    assert_ne!(secrets[0], secrets[1]);
}

#[test]
fn hard_dropping_player_tops_out_against_a_waiting_player() {
    let mut seed = ChaCha8Rng::seed_from_u64(4);
    let secrets = draw_secrets(2, &mut seed);
    let mut state = MatchState::new(&secrets).unwrap();
    assert_eq!(state.connect(secrets[1]), Some(1));
    assert_eq!(state.connect(secrets[0]), Some(0));
    let mut v = Versus::new(2, seed);
    let mut message = v.start_board(0);
    v.start_board(1);
    let mut client = HardDropClient::new();
    let mut rounds = 0;
    loop {
        rounds += 1;
        assert!(rounds < 1000, "the stack should reach the spawn row");
        let actions = client.respond(&message);
        match v.handle_actions(&actions, 0) {
            TurnOutcome::Answer(m) => message = m,
            TurnOutcome::Lost(p) => {
                assert_eq!(p.reason, "TOP-OUT!");
                break;
            }
            TurnOutcome::OutOfOrder => panic!("every hard drop can be applied"),
        }
    }
    assert_eq!(state.finish(0), Some(MatchOutcome { winner_index: 1 }));
}

#[test]
fn play_goes_on_after_a_refused_turn() {
    let mut v = Versus::new(2, ChaCha8Rng::seed_from_u64(4));
    let mut b = Board::new();
    b.width = 4;
    b.rows[0] = 0b0001;
    b.rows[1] = 0b1000;
    b.active_mino = Some(Mino {
        mino_type: MinoType::T,
        orientation: Orientation::Up,
        pivot_x: 1,
        pivot_y: 0,
    });
    v.boards[0] = b;
    let turn = PlayerAction {
        action_type: PlayerActions::RotateCW,
        action: Some(ActionFields::default()),
    };
    let back = PlayerAction {
        action_type: PlayerActions::RotateCCW,
        action: Some(ActionFields::default()),
    };
    let mv = PlayerAction {
        action_type: PlayerActions::Horizontal,
        action: Some(ActionFields { repeats: 0, right: 1 }),
    };
    match v.handle_actions(&vec![turn, mv, back], 0) {
        TurnOutcome::Answer(_) => {}
        _ => panic!("the actions after a refused turn are played"),
    }
}

#[test]
fn a_player_pushed_past_the_top_loses() {
    let mut v = Versus::new(2, ChaCha8Rng::seed_from_u64(4));
    v.start_board(0);
    v.unused_garbage_heights[0] = VecDeque::from(vec![255, 255, 255, 255]);
    match v.handle_actions(&vec![hard_drop(), hard_drop()], 0) {
        TurnOutcome::Lost(p) => {
            assert_eq!(p.reason, "TOP-OUT!");
            assert_eq!(p.significance, 100);
        }
        _ => panic!("the player is topped out"),
    }
    assert_ne!(v.boards[0].rows[1019], 0);
}
