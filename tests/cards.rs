use dominion::cards::{CardName, CardNames, CardTypes, Cards};
use dominion::effects::{room_after, CardEffect};
use dominion::player_counters::PlayerCounters;
use dominion::turnstate::TurnState;

#[test]
fn the_catalog_prices_and_values() {
    let c = Cards::copper();
    assert_eq!((0, 0), (c.coins_cost, c.vp_value));
    assert_eq!(CardEffect::AddCoins(1), c.effect);
    assert!(c.has_type(CardTypes::TREASURE));
    assert!(!c.has_type(CardTypes::VICTORY));
    assert_eq!((3, 0), (Cards::silver().coins_cost, Cards::silver().vp_value));
    assert_eq!(CardEffect::AddCoins(3), Cards::gold().effect);
    assert_eq!(CardEffect::AddCoins(5), Cards::platinum().effect);
    assert_eq!((2, 1), (Cards::estate().coins_cost, Cards::estate().vp_value));
    assert_eq!((5, 3), (Cards::duchy().coins_cost, Cards::duchy().vp_value));
    assert_eq!((8, 6), (Cards::province().coins_cost, Cards::province().vp_value));
    assert_eq!((11, 10), (Cards::colony().coins_cost, Cards::colony().vp_value));
    assert_eq!(CardEffect::Nothing, Cards::colony().effect);
    assert!(Cards::colony().has_type(CardTypes::VICTORY));
    assert_eq!(CardEffect::DrawCards(3), Cards::smithy().effect);
    assert!(Cards::smithy().has_type(CardTypes::ACTION));
    assert_eq!(
        CardEffect::Sequence(vec![CardEffect::DrawCards(1), CardEffect::AddActions(2)]),
        Cards::village().effect
    );
    assert_eq!(vec![CardTypes::ACTION], Cards::village().get_types().to_vec());
}

#[test]
fn make_builds_the_named_card() {
    for name in [
        CardName::Copper,
        CardName::Silver,
        CardName::Gold,
        CardName::Platinum,
        CardName::Estate,
        CardName::Duchy,
        CardName::Province,
        CardName::Colony,
        CardName::Smithy,
        CardName::Village,
    ] {
        assert_eq!(name, Cards::make(name).name);
    }
    assert_eq!("Province", CardNames::PROVINCE.as_str());
    assert_eq!(4, CardNames::COLONY.victory_tier());
    assert_eq!(0, CardNames::GOLD.victory_tier());
}

#[test]
fn room_after_subtracts_nested_totals() {
    let e = CardEffect::Sequence(vec![
        CardEffect::AddActions(2),
        CardEffect::Sequence(vec![CardEffect::AddCoins(3), CardEffect::DrawCards(4)]),
        CardEffect::AddCoins(1),
    ]);
    assert_eq!(Some((8, 6)), room_after(&e, 10, 10));
    assert_eq!(Some((0, 0)), room_after(&e, 2, 4));
    assert_eq!(None, room_after(&e, 1, 10));
    assert_eq!(None, room_after(&e, 10, 3));
    assert_eq!(Some((0, 0)), room_after(&CardEffect::Nothing, 0, 0));
}

#[test]
fn a_turn_starts_with_one_action_and_one_buy() {
    assert_eq!(
        PlayerCounters { actions: 1, buys: 1, coins: 0 },
        PlayerCounters::new_turn()
    );
}

#[test]
fn turn_state_adds_money() {
    let mut t = TurnState::new();
    assert_eq!(0, t.debug_money());
    t.add_money(3);
    t.add_money(4);
    assert_eq!(7, t.debug_money());
}
