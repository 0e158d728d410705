use vstd::prelude::*;

use crate::cards::{CardName, CardNames, NAME_COUNT};

verus! {

#[derive(Debug, Clone, Copy, PartialEq, Eq, Structural)]
pub enum BuyChoice {
    Buy(CardName),
    Pass,
}

#[derive(Debug, Clone, Copy, PartialEq, Eq, Structural)]
pub enum PlayChoice {
    Play(CardName),
    Pass,
}

/// Decides what a player does. A choice is always one of the names offered.
pub trait Agent: Sized {
    /// Whether an agent in this state, offered `offered` in the action
    /// phase, may answer `choice` and be left in state `after`.
    spec fn play_decision(&self, offered: Seq<CardName>, choice: PlayChoice, after: Self) -> bool;

    /// Whether an agent in this state, offered `offered` in the buy phase,
    /// may answer `choice` and be left in state `after`.
    spec fn buy_decision(&self, offered: Seq<CardName>, choice: BuyChoice, after: Self) -> bool;

    fn action_phase(&mut self, playable_cards: &[CardName]) -> (r: PlayChoice)
        ensures
            r matches PlayChoice::Play(n) ==> playable_cards@.contains(n),
            old(self).play_decision(playable_cards@, r, *final(self)),
    ;

    fn buy_phase(&mut self, buyable_cards: &[CardName]) -> (r: BuyChoice)
        ensures
            r matches BuyChoice::Buy(n) ==> buyable_cards@.contains(n),
            old(self).buy_decision(buyable_cards@, r, *final(self)),
    ;
}

/// The first name of `prios` that `offered` holds.
pub open spec fn first_listed(prios: Seq<CardName>, offered: Seq<CardName>) -> Option<CardName>
    decreases prios.len(),
{
    if prios.len() == 0 {
        None
    } else {
        match first_listed(prios.drop_last(), offered) {
            Some(n) => Some(n),
            None => if offered.contains(prios.last()) {
                Some(prios.last())
            } else {
                None
            },
        }
    }
}

/// Whether entry `p` of a bounded list may still be bought, given how many
/// of each name were bought so far.
pub open spec fn wanted(p: (CardName, u8), bought: Seq<u8>) -> bool {
    bought[p.0.index_spec()] < p.1
}

/// The first entry of `prios` that is still wanted and that `offered` holds.
pub open spec fn first_wanted(
    prios: Seq<(CardName, u8)>,
    bought: Seq<u8>,
    offered: Seq<CardName>,
) -> Option<CardName>
    decreases prios.len(),
{
    if prios.len() == 0 {
        None
    } else {
        match first_wanted(prios.drop_last(), bought, offered) {
            Some(n) => Some(n),
            None => if wanted(prios.last(), bought) && offered.contains(prios.last().0) {
                Some(prios.last().0)
            } else {
                None
            },
        }
    }
}

/// The choice of a buyer that takes the first name of `prios` on offer.
pub open spec fn listed_buy(prios: Seq<CardName>, offered: Seq<CardName>) -> BuyChoice {
    match first_listed(prios, offered) {
        Some(n) => BuyChoice::Buy(n),
        None => BuyChoice::Pass,
    }
}

/// The choice of a player that plays the first name of `prios` on offer.
pub open spec fn listed_play(prios: Seq<CardName>, offered: Seq<CardName>) -> PlayChoice {
    match first_listed(prios, offered) {
        Some(n) => PlayChoice::Play(n),
        None => PlayChoice::Pass,
    }
}

/// The choice of a buyer that takes the first entry of `prios` on offer
/// and still wanted.
pub open spec fn bounded_buy(prios: Seq<(CardName, u8)>, bought: Seq<u8>, offered: Seq<CardName>) -> BuyChoice {
    match first_wanted(prios, bought, offered) {
        Some(n) => BuyChoice::Buy(n),
        None => BuyChoice::Pass,
    }
}

/// The purchase counts once `choice` is made.
pub open spec fn bought_after(bought: Seq<u8>, choice: BuyChoice) -> Seq<u8> {
    match choice {
        BuyChoice::Buy(n) => bought.update(n.index_spec(), (bought[n.index_spec()] + 1) as u8),
        BuyChoice::Pass => bought,
    }
}

proof fn lemma_first_listed_offered(prios: Seq<CardName>, offered: Seq<CardName>)
    ensures
        first_listed(prios, offered) matches Some(n) ==> offered.contains(n),
    decreases prios.len(),
{
    if prios.len() > 0 {
        lemma_first_listed_offered(prios.drop_last(), offered);
    }
}

proof fn lemma_first_wanted_offered(prios: Seq<(CardName, u8)>, bought: Seq<u8>, offered: Seq<CardName>)
    ensures
        first_wanted(prios, bought, offered) matches Some(n) ==> offered.contains(n),
    decreases prios.len(),
{
    if prios.len() > 0 {
        lemma_first_wanted_offered(prios.drop_last(), bought, offered);
    }
}

fn offers(cards: &[CardName], name: CardName) -> (r: bool)
    ensures
        r == cards@.contains(name),
{
    let mut i: usize = 0;
    while i < cards.len()
        invariant
            i <= cards@.len(),
            forall|j: int| 0 <= j < i ==> cards@[j] != name,
        decreases cards@.len() - i,
    {
        if cards[i] == name {
            return true;
        }
        i += 1;
    }
    false
}

/// Picks the first name of a fixed list that is offered.
fn pick_listed(prios: &Vec<CardName>, offered: &[CardName]) -> (r: Option<CardName>)
    ensures
        r == first_listed(prios@, offered@),
{
    let mut i: usize = 0;
    while i < prios.len()
        invariant
            i <= prios@.len(),
            first_listed(prios@.subrange(0, i as int), offered@).is_none(),
        decreases prios@.len() - i,
    {
        proof {
            assert(prios@.subrange(0, i + 1).drop_last() =~= prios@.subrange(0, i as int));
        }
        if offers(offered, prios[i]) {
            proof {
                lemma_first_listed_rest(prios@, offered@, i as int);
            }
            return Some(prios[i]);
        }
        i += 1;
    }
    proof {
        assert(prios@.subrange(0, i as int) =~= prios@);
    }
    None
}

/// Once the first `i + 1` names decide, the rest of the list does not matter.
proof fn lemma_first_listed_rest(prios: Seq<CardName>, offered: Seq<CardName>, i: int)
    requires
        0 <= i < prios.len(),
        first_listed(prios.subrange(0, i + 1), offered) is Some,
    ensures
        first_listed(prios, offered) == first_listed(prios.subrange(0, i + 1), offered),
    decreases prios.len() - i,
{
    if i + 1 == prios.len() {
        assert(prios.subrange(0, i + 1) =~= prios);
    } else {
        assert(prios.subrange(0, i + 2).drop_last() =~= prios.subrange(0, i + 1));
        lemma_first_listed_rest(prios, offered, i + 1);
    }
}

proof fn lemma_first_wanted_rest(
    prios: Seq<(CardName, u8)>,
    bought: Seq<u8>,
    offered: Seq<CardName>,
    i: int,
)
    requires
        0 <= i < prios.len(),
        first_wanted(prios.subrange(0, i + 1), bought, offered) is Some,
    ensures
        first_wanted(prios, bought, offered) == first_wanted(prios.subrange(0, i + 1), bought, offered),
    decreases prios.len() - i,
{
    if i + 1 == prios.len() {
        assert(prios.subrange(0, i + 1) =~= prios);
    } else {
        assert(prios.subrange(0, i + 2).drop_last() =~= prios.subrange(0, i + 1));
        lemma_first_wanted_rest(prios, bought, offered, i + 1);
    }
}

/// Buys and plays the first name of a fixed priority list that is offered.
#[derive(Debug)]
pub struct BasicPriorities {
    buy_priorities: Vec<CardName>,
    play_priorities: Vec<CardName>,
}

impl BasicPriorities {
    pub closed spec fn buy_order(&self) -> Seq<CardName> {
        self.buy_priorities@
    }

    pub closed spec fn play_order(&self) -> Seq<CardName> {
        self.play_priorities@
    }

    pub fn new(buy_priorities: Vec<CardName>, play_priorities: Vec<CardName>) -> (r: BasicPriorities)
        ensures
            r.buy_order() == buy_priorities@,
            r.play_order() == play_priorities@,
    {
        BasicPriorities { buy_priorities, play_priorities }
    }
}

impl Agent for BasicPriorities {
    open spec fn play_decision(&self, offered: Seq<CardName>, choice: PlayChoice, after: Self) -> bool {
        choice == listed_play(self.play_order(), offered) && after == *self
    }

    open spec fn buy_decision(&self, offered: Seq<CardName>, choice: BuyChoice, after: Self) -> bool {
        choice == listed_buy(self.buy_order(), offered) && after == *self
    }

    fn action_phase(&mut self, playable_cards: &[CardName]) -> (r: PlayChoice)
        ensures
            r == listed_play(old(self).play_order(), playable_cards@),
            *final(self) == *old(self),
    {
        proof {
            lemma_first_listed_offered(self.play_priorities@, playable_cards@);
        }
        match pick_listed(&self.play_priorities, playable_cards) {
            Some(n) => PlayChoice::Play(n),
            None => PlayChoice::Pass,
        }
    }

    fn buy_phase(&mut self, buyable_cards: &[CardName]) -> (r: BuyChoice)
        ensures
            r == listed_buy(old(self).buy_order(), buyable_cards@),
            *final(self) == *old(self),
    {
        proof {
            lemma_first_listed_offered(self.buy_priorities@, buyable_cards@);
        }
        match pick_listed(&self.buy_priorities, buyable_cards) {
            Some(n) => BuyChoice::Buy(n),
            None => BuyChoice::Pass,
        }
    }
}

/// Buys the first entry of a priority list that is offered and that it has
/// bought fewer of than the entry's bound; plays like `BasicPriorities`.
#[derive(Debug)]
pub struct BoundedPriorities {
    buy_priorities: Vec<(CardName, u8)>,
    play_priorities: Vec<CardName>,
    purchased_cards: [u8; NAME_COUNT],
}

impl BoundedPriorities {
    pub closed spec fn buy_order(&self) -> Seq<(CardName, u8)> {
        self.buy_priorities@
    }

    pub closed spec fn play_order(&self) -> Seq<CardName> {
        self.play_priorities@
    }

    /// How many of each name this agent has bought, indexed by name.
    pub closed spec fn bought(&self) -> Seq<u8> {
        self.purchased_cards@
    }

    pub fn new(buy_priorities: Vec<(CardName, u8)>, play_priorities: Vec<CardName>) -> (r: BoundedPriorities)
        ensures
            r.buy_order() == buy_priorities@,
            r.play_order() == play_priorities@,
            r.bought() == Seq::new(NAME_COUNT as nat, |i: int| 0u8),
    {
        let purchased_cards = [0u8; NAME_COUNT];
        proof {
            assert(purchased_cards@ =~= Seq::new(NAME_COUNT as nat, |i: int| 0u8));
        }
        BoundedPriorities { buy_priorities, play_priorities, purchased_cards }
    }
}

impl Agent for BoundedPriorities {
    open spec fn play_decision(&self, offered: Seq<CardName>, choice: PlayChoice, after: Self) -> bool {
        choice == listed_play(self.play_order(), offered) && after == *self
    }

    open spec fn buy_decision(&self, offered: Seq<CardName>, choice: BuyChoice, after: Self) -> bool {
        &&& choice == bounded_buy(self.buy_order(), self.bought(), offered)
        &&& after.bought() == bought_after(self.bought(), choice)
        &&& after.buy_order() == self.buy_order()
        &&& after.play_order() == self.play_order()
    }

    fn action_phase(&mut self, playable_cards: &[CardName]) -> (r: PlayChoice)
        ensures
            r == listed_play(old(self).play_order(), playable_cards@),
            *final(self) == *old(self),
    {
        proof {
            lemma_first_listed_offered(self.play_priorities@, playable_cards@);
        }
        match pick_listed(&self.play_priorities, playable_cards) {
            Some(n) => PlayChoice::Play(n),
            None => PlayChoice::Pass,
        }
    }

    fn buy_phase(&mut self, buyable_cards: &[CardName]) -> (r: BuyChoice)
        ensures
            r == bounded_buy(old(self).buy_order(), old(self).bought(), buyable_cards@),
            final(self).bought() == bought_after(old(self).bought(), r),
            final(self).buy_order() == old(self).buy_order(),
            final(self).play_order() == old(self).play_order(),
    {
        proof {
            lemma_first_wanted_offered(self.buy_priorities@, self.purchased_cards@, buyable_cards@);
        }
        let ghost prios = self.buy_priorities@;
        let ghost bought = self.purchased_cards@;
        let mut i: usize = 0;
        while i < self.buy_priorities.len()
            invariant
                prios == self.buy_priorities@,
                prios == old(self).buy_priorities@,
                bought == self.purchased_cards@,
                bought == old(self).purchased_cards@,
                self.play_priorities@ == old(self).play_priorities@,
                bought.len() == NAME_COUNT,
                i <= prios.len(),
                first_wanted(prios.subrange(0, i as int), bought, buyable_cards@).is_none(),
            decreases prios.len() - i,
        {
            proof {
                assert(prios.subrange(0, i + 1).drop_last() =~= prios.subrange(0, i as int));
            }
            let (candidate, max_we_want) = self.buy_priorities[i];
            let k = candidate.index();
            let already_gained_count = self.purchased_cards[k];
            if already_gained_count < max_we_want && offers(buyable_cards, candidate) {
                proof {
                    lemma_first_wanted_rest(prios, bought, buyable_cards@, i as int);
                }
                self.purchased_cards[k] = already_gained_count + 1;
                return BuyChoice::Buy(candidate);
            }
            i += 1;
        }
        proof {
            assert(prios.subrange(0, i as int) =~= prios);
        }
        BuyChoice::Pass
    }
}

/// Either kind of priority agent, so that players with different kinds can
/// sit at one table.
#[derive(Debug)]
pub enum AnyAgent {
    Basic(BasicPriorities),
    Bounded(BoundedPriorities),
}

impl AnyAgent {
    /// What this agent buys from `offered`.
    pub open spec fn buy_choice(self, offered: Seq<CardName>) -> BuyChoice {
        match self {
            AnyAgent::Basic(a) => listed_buy(a.buy_order(), offered),
            AnyAgent::Bounded(a) => bounded_buy(a.buy_order(), a.bought(), offered),
        }
    }

    /// What this agent plays from `offered`.
    pub open spec fn play_choice(self, offered: Seq<CardName>) -> PlayChoice {
        match self {
            AnyAgent::Basic(a) => listed_play(a.play_order(), offered),
            AnyAgent::Bounded(a) => listed_play(a.play_order(), offered),
        }
    }
}

impl Agent for AnyAgent {
    open spec fn play_decision(&self, offered: Seq<CardName>, choice: PlayChoice, after: Self) -> bool {
        choice == self.play_choice(offered) && after == *self
    }

    open spec fn buy_decision(&self, offered: Seq<CardName>, choice: BuyChoice, after: Self) -> bool {
        &&& choice == self.buy_choice(offered)
        &&& *self is Basic ==> after == *self
        &&& *self matches AnyAgent::Bounded(a) ==> after matches AnyAgent::Bounded(b) && b.buy_order()
            == a.buy_order() && b.play_order() == a.play_order() && b.bought() == bought_after(
            a.bought(),
            choice,
        )
    }

    fn action_phase(&mut self, playable_cards: &[CardName]) -> (r: PlayChoice)
        ensures
            r == old(self).play_choice(playable_cards@),
            *final(self) == *old(self),
    {
        match self {
            AnyAgent::Basic(a) => a.action_phase(playable_cards),
            AnyAgent::Bounded(a) => a.action_phase(playable_cards),
        }
    }

    fn buy_phase(&mut self, buyable_cards: &[CardName]) -> (r: BuyChoice)
        ensures
            r == old(self).buy_choice(buyable_cards@),
            *old(self) is Basic ==> *final(self) == *old(self),
            *old(self) matches AnyAgent::Bounded(a) ==> *final(self) matches AnyAgent::Bounded(b)
                && b.buy_order() == a.buy_order() && b.play_order() == a.play_order() && b.bought()
                == bought_after(a.bought(), r),
    {
        match self {
            AnyAgent::Basic(a) => a.buy_phase(buyable_cards),
            AnyAgent::Bounded(a) => a.buy_phase(buyable_cards),
        }
    }
}

/// Ready-made strategies.
pub struct Agents {}

impl Agents {
    pub fn always_buy_copper() -> (r: AnyAgent)
        ensures
            r matches AnyAgent::Basic(a) && a.buy_order() == seq![CardName::Copper]
                && a.play_order() == Seq::<CardName>::empty(),
    {
        let r = BasicPriorities::new(vec![CardNames::COPPER], Vec::new());
        proof {
            assert(r.buy_order() =~= seq![CardName::Copper]);
        }
        AnyAgent::Basic(r)
    }

    pub fn greedy_for_duchies() -> (r: AnyAgent)
        ensures
            r matches AnyAgent::Basic(a) && a.buy_order() == seq![
                CardName::Duchy,
                CardName::Province,
                CardName::Silver,
                CardName::Copper,
            ] && a.play_order() == Seq::<CardName>::empty(),
    {
        let r = BasicPriorities::new(
            vec![CardNames::DUCHY, CardNames::PROVINCE, CardNames::SILVER, CardNames::COPPER],
            Vec::new(),
        );
        proof {
            assert(r.buy_order() =~= seq![
                CardName::Duchy,
                CardName::Province,
                CardName::Silver,
                CardName::Copper,
            ]);
        }
        AnyAgent::Basic(r)
    }

    pub fn silver_test() -> (r: AnyAgent)
        ensures
            r matches AnyAgent::Basic(a) && a.buy_order() == seq![CardName::Province, CardName::Silver]
                && a.play_order() == Seq::<CardName>::empty(),
    {
        let r = BasicPriorities::new(vec![CardNames::PROVINCE, CardNames::SILVER], Vec::new());
        proof {
            assert(r.buy_order() =~= seq![CardName::Province, CardName::Silver]);
        }
        AnyAgent::Basic(r)
    }

    pub fn simple_big_money() -> (r: AnyAgent)
        ensures
            r matches AnyAgent::Basic(a) && a.buy_order() == seq![
                CardName::Province,
                CardName::Gold,
                CardName::Silver,
            ] && a.play_order() == Seq::<CardName>::empty(),
    {
        let r = BasicPriorities::new(
            vec![CardNames::PROVINCE, CardNames::GOLD, CardNames::SILVER],
            Vec::new(),
        );
        proof {
            assert(r.buy_order() =~= seq![CardName::Province, CardName::Gold, CardName::Silver]);
        }
        AnyAgent::Basic(r)
    }

    pub fn big_money_splash_smithys() -> (r: AnyAgent)
        ensures
            r matches AnyAgent::Bounded(a) && a.buy_order() == seq![
                (CardName::Province, 100u8),
                (CardName::Smithy, 2u8),
                (CardName::Gold, 100u8),
                (CardName::Silver, 100u8),
            ] && a.play_order() == seq![CardName::Village, CardName::Smithy],
    {
        let r = BoundedPriorities::new(
            vec![
                (CardNames::PROVINCE, 100),
                (CardNames::SMITHY, 2),
                (CardNames::GOLD, 100),
                (CardNames::SILVER, 100),
            ],
            vec![CardNames::VILLAGE, CardNames::SMITHY],
        );
        proof {
            assert(r.buy_order() =~= seq![
                (CardName::Province, 100u8),
                (CardName::Smithy, 2u8),
                (CardName::Gold, 100u8),
                (CardName::Silver, 100u8),
            ]);
            assert(r.play_order() =~= seq![CardName::Village, CardName::Smithy]);
        }
        AnyAgent::Bounded(r)
    }
}

} // verus!
