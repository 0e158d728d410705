use vstd::prelude::*;

verus! {

/// The money a player has to spend this turn.
pub struct TurnState {
    money: u8,
}

impl TurnState {
    pub closed spec fn money(&self) -> u8 {
        self.money
    }

    pub fn new() -> (r: TurnState)
        ensures
            r.money() == 0,
    {
        TurnState { money: 0 }
    }

    pub fn debug_money(&self) -> (r: u8)
        ensures
            r == self.money(),
    {
        self.money
    }

    pub fn add_money(&mut self, money: u8)
        requires
            old(self).money() + money <= u8::MAX,
        ensures
            final(self).money() == old(self).money() + money,
    {
        self.money = self.money + money;
    }
}

} // verus!
