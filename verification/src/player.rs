//! Who controls a seat at the table: a human or one of the two bots.

use vstd::prelude::*;

verus! {

#[derive(Copy, Clone, PartialEq, Eq, Structural)]
pub enum Player {
    Human,
    RandomBot,
    MctsBot,
}

impl Player {
    pub fn is_bot(&self) -> (r: bool)
        ensures
            r == (*self == Player::RandomBot || *self == Player::MctsBot),
    {
        matches!(self, Player::RandomBot | Player::MctsBot)
    }
}

} // verus!
