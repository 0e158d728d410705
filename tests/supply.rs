use dominion::cards::{Card, CardName, CardNames, Cards};
use dominion::game::Game;
use dominion::logs::NullLog;
use dominion::players::AnyAgent;
use dominion::shuffler::NoShuffle;
use dominion::supply::Supply;

fn copies(make: fn() -> Card, n: usize) -> Vec<Card> {
    (0..n).map(|_| make()).collect()
}

type TestGame = Game<AnyAgent, NoShuffle, NullLog>;

#[test]
fn buyable_cards_are_the_affordable_tops() {
    let mut supply = Supply::new();
    supply.add(copies(Cards::copper, 3));
    supply.add(copies(Cards::silver, 3));
    supply.add(copies(Cards::gold, 3));
    supply.add(copies(Cards::estate, 1));

    assert_eq!(vec![CardNames::COPPER], supply.buyable_cards(0));
    assert_eq!(
        vec![CardNames::COPPER, CardNames::SILVER, CardNames::ESTATE],
        supply.buyable_cards(5)
    );
    assert_eq!(
        vec![
            CardNames::COPPER,
            CardNames::SILVER,
            CardNames::GOLD,
            CardNames::ESTATE
        ],
        supply.buyable_cards(6)
    );
}

#[test]
fn empty_piles_are_not_buyable_but_are_listed_as_empty() {
    let mut supply = Supply::new();
    supply.add(copies(Cards::estate, 1));
    supply.add(copies(Cards::copper, 2));
    let estate = supply.take_one(CardNames::ESTATE).unwrap();
    assert_eq!(CardNames::ESTATE, estate.name);

    assert_eq!(vec![CardNames::COPPER], supply.buyable_cards(10));
    assert_eq!(vec![CardNames::ESTATE], supply.empty_supply_piles());
    assert!(!supply.has_top(CardNames::ESTATE));
    assert!(supply.has_top(CardNames::COPPER));
}

#[test]
fn three_duchies_bought_empty_the_pile_and_end_the_game() {
    let mut supply = Supply::new();
    supply.add(copies(Cards::copper, 10));
    supply.add(copies(Cards::estate, 3));
    supply.add(copies(Cards::duchy, 3));
    assert!(!TestGame::has_ended(1, 100, &supply));

    for _ in 0..3 {
        let duchy = supply.take_one(CardNames::DUCHY).unwrap();
        assert_eq!(CardNames::DUCHY, duchy.name);
    }

    assert!(supply.empty_supply_piles().contains(&CardNames::DUCHY));
    assert!(supply.game_ending_pile_empty());
    assert!(TestGame::has_ended(1, 100, &supply));
}

#[test]
fn only_the_highest_victory_pile_ends_the_game() {
    let mut supply = Supply::new();
    supply.add(copies(Cards::estate, 1));
    supply.add(copies(Cards::province, 1));
    supply.take_one(CardNames::ESTATE);
    assert!(!supply.game_ending_pile_empty());
    supply.take_one(CardNames::PROVINCE);
    assert!(supply.game_ending_pile_empty());
}

#[test]
fn the_turn_limit_ends_the_game() {
    let supply = Supply::new();
    assert!(!TestGame::has_ended(99, 100, &supply));
    assert!(TestGame::has_ended(100, 100, &supply));
    assert!(!supply.game_ending_pile_empty());
}

#[test]
fn take_up_to_n_takes_from_the_pile_topped_by_the_name() {
    let mut supply = Supply::new();
    supply.add(copies(Cards::silver, 2));
    supply.add(copies(Cards::copper, 4));

    let taken = supply.take_up_to_n(CardNames::COPPER, 7);

    assert_eq!(4, taken.len());
    assert!(taken.iter().all(|c| c.name == CardNames::COPPER));
    assert_eq!(vec![CardNames::COPPER], supply.empty_supply_piles());
    assert_eq!(vec![CardNames::SILVER], supply.buyable_cards(3));
}

#[test]
fn a_pile_is_found_by_its_top_card() {
    let mut supply = Supply::new();
    let mut mixed = copies(Cards::estate, 1);
    mixed.push(Cards::copper());
    supply.add(mixed);

    let copper = supply.take_one(CardNames::COPPER).unwrap();
    assert_eq!(CardNames::COPPER, copper.name);
    assert_eq!(vec![CardNames::ESTATE], supply.buyable_cards(2));
    let estate = supply.take_one(CardNames::ESTATE).unwrap();
    assert_eq!(CardNames::ESTATE, estate.name);
    // the pile keeps the name of the card it was created with on top
    assert_eq!(vec![CardName::Copper], supply.empty_supply_piles());
}

#[test]
fn clear_removes_every_pile() {
    let mut supply = Supply::new();
    supply.add(copies(Cards::copper, 1));
    supply.clear();
    assert!(supply.buyable_cards(10).is_empty());
    assert!(supply.empty_supply_piles().is_empty());
}
