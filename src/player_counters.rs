use vstd::prelude::*;

verus! {

/// The per-turn budget of a player.
#[derive(Debug, Clone, Copy, PartialEq, Eq, Structural)]
pub struct PlayerCounters {
    pub actions: u8,
    pub buys: u8,
    pub coins: u8,
}

impl PlayerCounters {
    /// One action, one buy, no coins: the budget every turn starts with.
    pub fn new_turn() -> (r: PlayerCounters)
        ensures
            r == (PlayerCounters { actions: 1, buys: 1, coins: 0 }),
    {
        PlayerCounters { actions: 1, buys: 1, coins: 0 }
    }
}

} // verus!
