//! Feedback that an action was bad in some way.
use vstd::prelude::*;

verus! {

/// A little thing that gives feedback that an action was bad in some way.
/// Some moves are valid but still give a penalty because they change nothing:
/// spinning an O piece, for example.
/// A significance of 100 or more means that the player has lost the round.
#[derive(Debug, PartialEq, Eq)]
pub struct Penalty {
    pub reason: String,
    pub significance: u16,
}

impl View for Penalty {
    type V = (Seq<char>, u16);

    open spec fn view(&self) -> (Seq<char>, u16) {
        (self.reason@, self.significance)
    }
}

/// The ordinary penalty with a given reason.
pub open spec fn penalty_msg(msg: Seq<char>) -> (Seq<char>, u16) {
    (msg, 10u16)
}

impl Penalty {
    /// The ordinary penalty, of significance 10, with a reason.
    pub fn new(msg: &str) -> (r: Penalty)
        ensures
            r@ == penalty_msg(msg@),
    {
        Penalty { reason: msg.to_string(), significance: 10 }
    }
}

} // verus!
