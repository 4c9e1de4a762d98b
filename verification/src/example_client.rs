//! The example player that comes with the server: it hard-drops every piece.
use std::collections::VecDeque;

use vstd::prelude::*;

use crate::board::{Board, new_board_model};
use crate::client_examples::{
    ClientModel,
    apply_external_influence,
    hard_drop_action,
    influence_fits,
    influence_ok,
    influenced,
};
use crate::messages::{ActionFields, BoardExternalInfluence, PlayerAction, PlayerActions};

verus! {

/// A player that hard-drops every piece as it comes.
pub struct ExampleClient {
    board: Board,
    garbage_heights: VecDeque<u8>,
    garbage_holes: VecDeque<i8>,
}

impl ExampleClient {
    /// What the player keeps between messages.
    pub closed spec fn model(&self) -> ClientModel {
        ClientModel {
            board: self.board@,
            garbage_heights: self.garbage_heights@,
            garbage_holes: self.garbage_holes@,
        }
    }

    /// A player that knows of nothing yet.
    pub fn new() -> (r: ExampleClient)
        ensures
            r.model() == (ClientModel {
                board: new_board_model(),
                garbage_heights: Seq::empty(),
                garbage_holes: Seq::empty(),
            }),
    {
        ExampleClient {
            board: Board::new(),
            garbage_heights: VecDeque::new(),
            garbage_holes: VecDeque::new(),
        }
    }

    /// The actions sent with every message: one hard drop.
    fn build_actions(&self) -> (r: Vec<PlayerAction>)
        ensures
            r@ == seq![hard_drop_action()],
    {
        let mut actions: Vec<PlayerAction> = Vec::new();
        actions.push(
            PlayerAction {
                action_type: PlayerActions::HardDrop,
                action: Some(ActionFields { repeats: 0, right: 0 }),
            },
        );
        actions
    }

    /// Whether the player can take in a message (see `influence_ok`).
    pub fn accepts(&self, influence: &BoardExternalInfluence) -> (r: bool)
        ensures
            r == influence_ok(self.model(), *influence),
    {
        influence_fits(&self.board, &self.garbage_heights, &self.garbage_holes, influence)
    }

    /// Takes in a message of the server (its pieces join the queue, and the
    /// garbage blocks that have a height and a hole come in from below) and
    /// answers it.
    pub fn respond(&mut self, influence: &BoardExternalInfluence) -> (r: Vec<PlayerAction>)
        requires
            influence_ok(old(self).model(), *influence),
        ensures
            final(self).model() == influenced(old(self).model(), *influence),
            r@ == seq![hard_drop_action()],
    {
        apply_external_influence(
            influence,
            &mut self.board,
            &mut self.garbage_heights,
            &mut self.garbage_holes,
        );
        self.build_actions()
    }
}

impl Default for ExampleClient {
    fn default() -> (r: ExampleClient)
        ensures
            r.model() == (ClientModel {
                board: new_board_model(),
                garbage_heights: Seq::empty(),
                garbage_holes: Seq::empty(),
            }),
    {
        ExampleClient::new()
    }
}

/// A player that does nothing.
pub struct JustWaitClient {}

} // verus!
