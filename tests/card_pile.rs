use dominion::card_pile::{CardPile, DrawResult};
use dominion::cards::{CardNames, Cards};

#[test]
fn card_pile_added_cards_can_be_drawn() {
    let mut deck = CardPile::new();
    deck.add_range(&mut vec![Cards::copper()]);
    deck.add_range(&mut vec![Cards::silver()]);
    deck.add_range(&mut vec![Cards::gold()]);

    let mut other = CardPile::new();

    // since the cards were added one at a time, they get drawn in reverse order
    assert_eq!(CardNames::GOLD, deck.peek().unwrap().name);
    let _ = deck.move_n_to(1, &mut other);
    assert_eq!(CardNames::SILVER, deck.peek().unwrap().name);
    let _ = deck.move_n_to(1, &mut other);
    assert_eq!(CardNames::COPPER, deck.peek().unwrap().name);
}

#[test]
fn card_pile_if_there_arent_enough_cards_then_remaining_cards_get_drawn() {
    let mut deck = CardPile::new();
    deck.add_range(&mut vec![Cards::copper(), Cards::silver(), Cards::gold()]);
    let mut other = CardPile::new();

    let result = deck.move_n_to(5, &mut other);

    assert!(matches!(result, DrawResult::Partial(2)));
}

#[test]
fn moving_zero_cards_is_complete_and_moves_nothing() {
    let mut deck = CardPile::new();
    deck.add_range(&mut vec![Cards::copper(), Cards::silver()]);
    let mut other = CardPile::new();

    let result = deck.move_n_to(0, &mut other);

    assert_eq!(DrawResult::Complete, result);
    assert_eq!(2, deck.len());
    assert!(other.is_empty());
}

#[test]
fn moving_from_an_empty_pile_misses_every_card() {
    let mut deck = CardPile::new();
    let mut other = CardPile::new();

    assert_eq!(DrawResult::Partial(4), deck.move_n_to(4, &mut other));
    assert!(other.is_empty());
    assert!(deck.peek().is_none());
}

#[test]
fn moved_cards_keep_their_order_on_the_other_pile() {
    let mut deck = CardPile::new();
    deck.add_range(&mut vec![Cards::copper(), Cards::silver(), Cards::gold()]);
    let mut other = CardPile::new();
    other.add_range(&mut vec![Cards::estate()]);

    assert_eq!(DrawResult::Complete, deck.move_n_to(2, &mut other));

    let names: Vec<_> = other.temp_iter().iter().map(|c| c.name).collect();
    assert_eq!(vec![CardNames::ESTATE, CardNames::SILVER, CardNames::GOLD], names);
    assert_eq!(CardNames::COPPER, deck.peek().unwrap().name);
}

#[test]
fn take_up_to_n_returns_what_there_is() {
    let mut deck = CardPile::new();
    deck.add_range(&mut vec![Cards::copper(), Cards::silver()]);

    let taken = deck.take_up_to_n(5);

    assert_eq!(2, taken.len());
    assert_eq!(CardNames::COPPER, taken[0].name);
    assert_eq!(CardNames::SILVER, taken[1].name);
    assert!(deck.is_empty());
    assert!(deck.take_up_to_n(0).is_empty());
}

#[test]
fn take_all_empties_the_pile() {
    let mut deck = CardPile::new();
    let mut cards = vec![Cards::copper(), Cards::duchy()];
    deck.add_range(&mut cards);
    assert!(cards.is_empty());

    let all = deck.take_all();

    assert_eq!(2, all.len());
    assert_eq!(CardNames::DUCHY, all[1].name);
    assert!(deck.is_empty());
}
