use vstd::prelude::*;

use crate::effects::{
    effect_actions, effect_coins, effect_draws, effects_actions, effects_coins, effects_draws,
    CardEffect,
};

verus! {

/// The identity of a card. Cards with the same name are interchangeable.
#[derive(Debug, Clone, Copy, PartialEq, Eq, Structural, PartialOrd, Ord, Hash)]
pub enum CardName {
    Copper,
    Silver,
    Gold,
    Platinum,
    Estate,
    Duchy,
    Province,
    Colony,
    Smithy,
    Village,
}

impl CardName {
    /// The printed name of the card.
    pub fn as_str(&self) -> &'static str {
        match self {
            CardName::Copper => "Copper",
            CardName::Silver => "Silver",
            CardName::Gold => "Gold",
            CardName::Platinum => "Platinum",
            CardName::Estate => "Estate",
            CardName::Duchy => "Duchy",
            CardName::Province => "Province",
            CardName::Colony => "Colony",
            CardName::Smithy => "Smithy",
            CardName::Village => "Village",
        }
    }

    /// Rank of a victory pile when deciding which pile ends the game;
    /// zero for names that are not victory cards.
    pub open spec fn tier(self) -> int {
        match self {
            CardName::Estate => 1,
            CardName::Duchy => 2,
            CardName::Province => 3,
            CardName::Colony => 4,
            _ => 0,
        }
    }

    pub fn victory_tier(&self) -> (r: u8)
        ensures
            r as int == self.tier(),
    {
        match self {
            CardName::Estate => 1,
            CardName::Duchy => 2,
            CardName::Province => 3,
            CardName::Colony => 4,
            _ => 0,
        }
    }

    /// Position of the name in a table indexed by name.
    pub open spec fn index_spec(self) -> int {
        match self {
            CardName::Copper => 0,
            CardName::Silver => 1,
            CardName::Gold => 2,
            CardName::Platinum => 3,
            CardName::Estate => 4,
            CardName::Duchy => 5,
            CardName::Province => 6,
            CardName::Colony => 7,
            CardName::Smithy => 8,
            CardName::Village => 9,
        }
    }

    pub fn index(&self) -> (r: usize)
        ensures
            r as int == self.index_spec(),
            r < NAME_COUNT,
    {
        match self {
            CardName::Copper => 0,
            CardName::Silver => 1,
            CardName::Gold => 2,
            CardName::Platinum => 3,
            CardName::Estate => 4,
            CardName::Duchy => 5,
            CardName::Province => 6,
            CardName::Colony => 7,
            CardName::Smithy => 8,
            CardName::Village => 9,
        }
    }
}

/// How many distinct card names there are.
pub const NAME_COUNT: usize = 10;

#[derive(Debug, Clone, Copy, PartialEq, Eq, Structural)]
pub enum CardType {
    Action,
    Treasure,
    Victory,
}

pub struct CardTypes {}

impl CardTypes {
    pub const ACTION: CardType = CardType::Action;
    pub const TREASURE: CardType = CardType::Treasure;
    pub const VICTORY: CardType = CardType::Victory;
}

pub struct CardNames {}

impl CardNames {
    pub const COPPER: CardName = CardName::Copper;
    pub const SILVER: CardName = CardName::Silver;
    pub const GOLD: CardName = CardName::Gold;
    pub const PLATINUM: CardName = CardName::Platinum;
    pub const ESTATE: CardName = CardName::Estate;
    pub const DUCHY: CardName = CardName::Duchy;
    pub const PROVINCE: CardName = CardName::Province;
    pub const COLONY: CardName = CardName::Colony;
    pub const SMITHY: CardName = CardName::Smithy;
    pub const VILLAGE: CardName = CardName::Village;
}

/// A card: its name, price, victory points, types and the effect it has when played.
#[derive(Debug)]
pub struct Card {
    pub name: CardName,
    pub coins_cost: u8,
    pub vp_value: u8,
    pub effect: CardEffect,
    pub types: Vec<CardType>,
}

impl Card {
    /// The types the card declares, as a set.
    pub open spec fn type_set(&self) -> Set<CardType> {
        self.types@.to_set()
    }

    pub fn new(
        name: CardName,
        coins_cost: u8,
        vp_value: u8,
        types: Vec<CardType>,
        effect: CardEffect,
    ) -> (r: Card)
        ensures
            r.name == name,
            r.coins_cost == coins_cost,
            r.vp_value == vp_value,
            r.effect == effect,
            r.type_set() == types@.to_set(),
    {
        Card { name, coins_cost, vp_value, effect, types }
    }

    pub fn get_types(&self) -> (r: &[CardType])
        ensures
            r@ == self.types@,
    {
        self.types.as_slice()
    }

    pub fn has_type(&self, t: CardType) -> (r: bool)
        ensures
            r == self.type_set().contains(t),
    {
        let mut i: usize = 0;
        while i < self.types.len()
            invariant
                0 <= i <= self.types@.len(),
                forall|j: int| 0 <= j < i ==> self.types@[j] != t,
            decreases self.types@.len() - i,
        {
            if self.types[i] == t {
                proof {
                    assert(self.types@.contains(t));
                }
                return true;
            }
            i += 1;
        }
        proof {
            assert(!self.types@.contains(t));
        }
        false
    }
}

/// A treasure of the given price that grants `value` coins.
pub open spec fn treasure_card(c: Card, cost: u8, value: u8) -> bool {
    &&& c.coins_cost == cost
    &&& c.vp_value == 0
    &&& c.types@ == seq![CardType::Treasure]
    &&& c.effect == CardEffect::AddCoins(value)
}

/// A victory card of the given price and worth.
pub open spec fn victory_card(c: Card, cost: u8, vp: u8) -> bool {
    &&& c.coins_cost == cost
    &&& c.vp_value == vp
    &&& c.types@ == seq![CardType::Victory]
    &&& c.effect == CardEffect::Nothing
}

/// Whether `c` is the catalog's card of its name: price, points, types and
/// effect.
pub open spec fn is_catalog_card(c: Card) -> bool {
    match c.name {
        CardName::Copper => treasure_card(c, 0, 1),
        CardName::Silver => treasure_card(c, 3, 2),
        CardName::Gold => treasure_card(c, 6, 3),
        CardName::Platinum => treasure_card(c, 9, 5),
        CardName::Estate => victory_card(c, 2, 1),
        CardName::Duchy => victory_card(c, 5, 3),
        CardName::Province => victory_card(c, 8, 6),
        CardName::Colony => victory_card(c, 11, 10),
        CardName::Smithy => {
            &&& c.coins_cost == 4
            &&& c.vp_value == 0
            &&& c.types@ == seq![CardType::Action]
            &&& c.effect == CardEffect::DrawCards(3)
        },
        CardName::Village => {
            &&& c.coins_cost == 3
            &&& c.vp_value == 0
            &&& c.types@ == seq![CardType::Action]
            &&& c.effect matches CardEffect::Sequence(v) && v@ == seq![
                CardEffect::DrawCards(1),
                CardEffect::AddActions(2),
            ]
        },
    }
}

/// The card catalog.
pub struct Cards {}

impl Cards {
    fn basic_treasure(coins_cost: u8, treasure_value: u8, name: CardName) -> (r: Card)
        ensures
            r.name == name,
            r.coins_cost == coins_cost,
            r.vp_value == 0,
            r.type_set() == set![CardType::Treasure],
            r.types@ == seq![CardType::Treasure],
            r.effect == CardEffect::AddCoins(treasure_value),
    {
        let r = Card {
            name,
            coins_cost,
            vp_value: 0,
            types: vec![CardTypes::TREASURE],
            effect: CardEffect::AddCoins(treasure_value),
        };
        proof {
            assert(r.types@ =~= seq![CardType::Treasure]);
            assert(seq![CardType::Treasure].to_set() =~= set![CardType::Treasure]) by {
                broadcast use vstd::seq_lib::group_seq_properties;
            }
        }
        r
    }

    fn basic_victory(coins_cost: u8, vp_value: u8, name: CardName) -> (r: Card)
        ensures
            r.name == name,
            r.coins_cost == coins_cost,
            r.vp_value == vp_value,
            r.type_set() == set![CardType::Victory],
            r.types@ == seq![CardType::Victory],
            r.effect == CardEffect::Nothing,
    {
        let r = Card {
            name,
            coins_cost,
            vp_value,
            types: vec![CardTypes::VICTORY],
            effect: CardEffect::Nothing,
        };
        proof {
            assert(r.types@ =~= seq![CardType::Victory]);
            assert(seq![CardType::Victory].to_set() =~= set![CardType::Victory]) by {
                broadcast use vstd::seq_lib::group_seq_properties;
            }
        }
        r
    }

    pub fn copper() -> (r: Card)
        ensures
            r.name == CardName::Copper,
            r.coins_cost == 0,
            r.vp_value == 0,
            r.type_set() == set![CardType::Treasure],
            r.types@ == seq![CardType::Treasure],
            r.effect == CardEffect::AddCoins(1),
    {
        Self::basic_treasure(0, 1, CardNames::COPPER)
    }

    pub fn silver() -> (r: Card)
        ensures
            r.name == CardName::Silver,
            r.coins_cost == 3,
            r.vp_value == 0,
            r.type_set() == set![CardType::Treasure],
            r.types@ == seq![CardType::Treasure],
            r.effect == CardEffect::AddCoins(2),
    {
        Self::basic_treasure(3, 2, CardNames::SILVER)
    }

    pub fn gold() -> (r: Card)
        ensures
            r.name == CardName::Gold,
            r.coins_cost == 6,
            r.vp_value == 0,
            r.type_set() == set![CardType::Treasure],
            r.types@ == seq![CardType::Treasure],
            r.effect == CardEffect::AddCoins(3),
    {
        Self::basic_treasure(6, 3, CardNames::GOLD)
    }

    pub fn platinum() -> (r: Card)
        ensures
            r.name == CardName::Platinum,
            r.coins_cost == 9,
            r.vp_value == 0,
            r.type_set() == set![CardType::Treasure],
            r.types@ == seq![CardType::Treasure],
            r.effect == CardEffect::AddCoins(5),
    {
        Self::basic_treasure(9, 5, CardNames::PLATINUM)
    }

    pub fn estate() -> (r: Card)
        ensures
            r.name == CardName::Estate,
            r.coins_cost == 2,
            r.vp_value == 1,
            r.type_set() == set![CardType::Victory],
            r.types@ == seq![CardType::Victory],
            r.effect == CardEffect::Nothing,
    {
        Self::basic_victory(2, 1, CardNames::ESTATE)
    }

    pub fn duchy() -> (r: Card)
        ensures
            r.name == CardName::Duchy,
            r.coins_cost == 5,
            r.vp_value == 3,
            r.type_set() == set![CardType::Victory],
            r.types@ == seq![CardType::Victory],
            r.effect == CardEffect::Nothing,
    {
        Self::basic_victory(5, 3, CardNames::DUCHY)
    }

    pub fn province() -> (r: Card)
        ensures
            r.name == CardName::Province,
            r.coins_cost == 8,
            r.vp_value == 6,
            r.type_set() == set![CardType::Victory],
            r.types@ == seq![CardType::Victory],
            r.effect == CardEffect::Nothing,
    {
        Self::basic_victory(8, 6, CardNames::PROVINCE)
    }

    pub fn colony() -> (r: Card)
        ensures
            r.name == CardName::Colony,
            r.coins_cost == 11,
            r.vp_value == 10,
            r.type_set() == set![CardType::Victory],
            r.types@ == seq![CardType::Victory],
            r.effect == CardEffect::Nothing,
    {
        Self::basic_victory(11, 10, CardNames::COLONY)
    }

    pub fn smithy() -> (r: Card)
        ensures
            r.name == CardName::Smithy,
            r.coins_cost == 4,
            r.vp_value == 0,
            r.type_set() == set![CardType::Action],
            r.types@ == seq![CardType::Action],
            r.effect == CardEffect::DrawCards(3),
    {
        let r = Card {
            name: CardNames::SMITHY,
            coins_cost: 4,
            vp_value: 0,
            types: vec![CardTypes::ACTION],
            effect: CardEffect::DrawCards(3),
        };
        proof {
            assert(r.types@ =~= seq![CardType::Action]);
            assert(seq![CardType::Action].to_set() =~= set![CardType::Action]) by {
                broadcast use vstd::seq_lib::group_seq_properties;
            }
        }
        r
    }

    /// Draws one card, then grants two actions.
    pub fn village() -> (r: Card)
        ensures
            r.name == CardName::Village,
            r.coins_cost == 3,
            r.vp_value == 0,
            r.type_set() == set![CardType::Action],
            r.types@ == seq![CardType::Action],
            r.effect matches CardEffect::Sequence(v) && v@ == seq![
                CardEffect::DrawCards(1),
                CardEffect::AddActions(2),
            ],
            effect_draws(r.effect) == 1,
            effect_actions(r.effect) == 2,
            effect_coins(r.effect) == 0,
    {
        let r = Card {
            name: CardNames::VILLAGE,
            coins_cost: 3,
            vp_value: 0,
            types: vec![CardTypes::ACTION],
            effect: CardEffect::Sequence(vec![CardEffect::DrawCards(1), CardEffect::AddActions(2)]),
        };
        proof {
            assert(r.types@ =~= seq![CardType::Action]);
            assert(seq![CardType::Action].to_set() =~= set![CardType::Action]) by {
                broadcast use vstd::seq_lib::group_seq_properties;
            }
            let s = seq![CardEffect::DrawCards(1), CardEffect::AddActions(2)];
            let v = r.effect->Sequence_0;
            assert(v@ =~= s);
            let one = s.drop_last();
            assert(one =~= seq![CardEffect::DrawCards(1)]);
            assert(one.drop_last() =~= Seq::<CardEffect>::empty());
            assert(one.last() == CardEffect::DrawCards(1));
            assert(effect_draws(CardEffect::DrawCards(1)) == 1);
            assert(effects_draws(one.drop_last()) == 0);
            assert(effects_draws(one) == 1);
            assert(s.last() == CardEffect::AddActions(2));
            assert(effect_draws(CardEffect::AddActions(2)) == 0);
            assert(effect_actions(CardEffect::AddActions(2)) == 2);
            assert(effect_coins(CardEffect::AddActions(2)) == 0);
            assert(effect_actions(CardEffect::DrawCards(1)) == 0);
            assert(effect_coins(CardEffect::DrawCards(1)) == 0);
            assert(effects_actions(one.drop_last()) == 0);
            assert(effects_coins(one.drop_last()) == 0);
            assert(effects_draws(s) == 1);
            assert(effects_actions(one) == 0);
            assert(effects_actions(s) == 2);
            assert(effects_coins(one) == 0);
            assert(effects_coins(s) == 0);
        }
        r
    }

    /// A fresh card of the given name.
    pub fn make(name: CardName) -> (r: Card)
        ensures
            r.name == name,
            is_catalog_card(r),
    {
        match name {
            CardName::Copper => Self::copper(),
            CardName::Silver => Self::silver(),
            CardName::Gold => Self::gold(),
            CardName::Platinum => Self::platinum(),
            CardName::Estate => Self::estate(),
            CardName::Duchy => Self::duchy(),
            CardName::Province => Self::province(),
            CardName::Colony => Self::colony(),
            CardName::Smithy => Self::smithy(),
            CardName::Village => Self::village(),
        }
    }
}

} // verus!
