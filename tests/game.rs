use dominion::cards::{CardName, CardNames, Cards};
use dominion::game::{sort_by_name, Game};
use dominion::logs::{GameLog, MemoryLog, NullLog};
use dominion::players::{AnyAgent, Agents, BuyChoice};
use dominion::shuffler::{NoShuffle, RandomShuffler};

#[test]
fn a_game_can_start_and_a_player_can_buy_something() {
    let log = GameLog::new(MemoryLog::new());
    let mut game: Game<AnyAgent, NoShuffle, MemoryLog> = Game::new(log);
    game.add_player("Player 1", Agents::always_buy_copper(), NoShuffle::new());
    game.populate_supply(CardNames::COPPER, 10);
    game.populate_supply(CardNames::ESTATE, 3);
    game.deal_starting_hands();
    game.play_one_turn();

    assert_eq!(1, game.turn_counter());
    // two coppers in the first hand pay for one more copper
    assert_eq!(vec![CardNames::COPPER], game.supply().buyable_cards(0));
    assert_eq!(vec![CardNames::ESTATE], game.supply().empty_supply_piles());
    let area = game.play_area(0);
    let hand: Vec<CardName> = area.inspect_hand().iter().map(|c| c.name).collect();
    assert_eq!(vec![CardNames::COPPER; 5], hand);
    assert_eq!(0, area.deck_len());
    assert_eq!(6, area.discard_len());
    // the only victory pile is empty, so the game is over
    assert!(Game::<AnyAgent, NoShuffle, MemoryLog>::has_ended(
        game.turn_counter(),
        100,
        game.supply()
    ));
}

#[test]
fn can_buy_duchies_with_a_cheap_strategy() {
    let log = GameLog::new(NullLog::new());
    let mut game: Game<AnyAgent, NoShuffle, NullLog> = Game::new(log);
    game.add_player("Player 1", Agents::greedy_for_duchies(), NoShuffle::new());
    game.populate_supply(CardNames::COPPER, 10);
    game.populate_supply(CardNames::ESTATE, 3);
    game.populate_supply(CardNames::DUCHY, 3);
    game.deal_starting_hands();
    for _ in 0..5 {
        game.play_one_turn();
    }

    assert_eq!(5, game.turn_counter());
    // two duchies and two more coppers were bought; one duchy is left
    assert_eq!(vec![CardNames::DUCHY], game.supply().buyable_cards(5));
    assert_eq!(
        vec![CardNames::COPPER, CardNames::ESTATE],
        game.supply().empty_supply_piles()
    );
    // seven coppers and three estates dealt, five cards bought
    let area = game.play_area(0);
    assert_eq!(
        15,
        area.deck_len() + area.discard_len() + area.inspect_hand().len() + area.in_play().len()
    );
}

#[test]
fn one_player_beats_another_buy_eventually_buying_enough_duchies() {
    let log = GameLog::new(MemoryLog::new());
    let mut game: Game<AnyAgent, RandomShuffler, MemoryLog> = Game::new(log);
    game.add_player("P1 [GFD]", Agents::greedy_for_duchies(), RandomShuffler::new(1234));
    game.add_player("P2 [ABC]", Agents::always_buy_copper(), RandomShuffler::new(1234));
    game.populate_basic_kingdom();

    let results = game.play_to_end();

    assert_eq!(2, results.0.len());
    assert_eq!("P1 [GFD]", results.0[0].name);
    assert_eq!("P2 [ABC]", results.0[1].name);
    // the copper buyer only owns its three starting estates
    assert_eq!(3, results.0[1].score);
    assert!(results.0[0].score > results.0[1].score);
    for r in &results.0 {
        let vp: u64 = r.cards.iter().map(|c| c.vp_value as u64).sum();
        assert_eq!(vp, r.score);
        assert!(r.cards.windows(2).all(|w| w[0].name <= w[1].name));
    }
    assert!(Game::<AnyAgent, RandomShuffler, MemoryLog>::has_ended(
        game.turn_counter(),
        100,
        game.supply()
    ));
}

#[test]
fn the_basic_kingdom_has_six_piles() {
    let mut game: Game<AnyAgent, NoShuffle, NullLog> = Game::new(GameLog::new(NullLog::new()));
    game.populate_basic_kingdom();
    assert_eq!(
        vec![CardNames::COPPER, CardNames::SILVER, CardNames::GOLD, CardNames::ESTATE, CardNames::DUCHY, CardNames::PROVINCE],
        game.supply().buyable_cards(8)
    );
    game.populate_prosperous_kingdom();
    game.populate_some_actions();
    assert_eq!(10, game.supply().buyable_cards(11).len());
    assert!(game.supply().empty_supply_piles().is_empty());
}

#[test]
fn scores_sum_victory_points() {
    let cards = vec![Cards::estate(), Cards::duchy(), Cards::copper(), Cards::province(), Cards::colony()];
    assert_eq!(20, Game::<AnyAgent, NoShuffle, NullLog>::calculate_score(&cards));
    assert_eq!(0, Game::<AnyAgent, NoShuffle, NullLog>::calculate_score(&[]));
}

#[test]
fn sorting_groups_cards_by_name_and_keeps_them_all() {
    let cards = vec![Cards::estate(), Cards::copper(), Cards::gold(), Cards::copper(), Cards::estate()];
    let sorted = sort_by_name(cards);
    let names: Vec<CardName> = sorted.iter().map(|c| c.name).collect();
    assert_eq!(
        vec![CardNames::COPPER, CardNames::COPPER, CardNames::GOLD, CardNames::ESTATE, CardNames::ESTATE],
        names
    );
}

#[test]
fn dealing_without_piles_only_draws() {
    let mut game: Game<AnyAgent, NoShuffle, NullLog> = Game::new(GameLog::new(NullLog::new()));
    game.add_player("solo", Agents::silver_test(), NoShuffle::new());
    game.deal_starting_hands();
    assert_eq!(0, game.play_area(0).inspect_hand().len());
}

#[test]
fn buying_the_last_duchy_ends_the_game_at_the_end_of_that_turn() {
    let mut game: Game<AnyAgent, RandomShuffler, NullLog> = Game::new(GameLog::new(NullLog::new()));
    game.add_player("Player 1", Agents::greedy_for_duchies(), RandomShuffler::new(7));
    game.populate_supply(CardNames::COPPER, 10);
    game.populate_supply(CardNames::ESTATE, 3);
    game.populate_supply(CardNames::DUCHY, 3);
    game.deal_starting_hands();

    while !Game::<AnyAgent, RandomShuffler, NullLog>::has_ended(game.turn_counter(), 100, game.supply()) {
        assert!(!game.supply().empty_supply_piles().contains(&CardNames::DUCHY));
        game.play_one_turn();
    }

    assert!(game.turn_counter() < 100);
    assert!(game.supply().empty_supply_piles().contains(&CardNames::DUCHY));
}

#[test]
fn a_purchase_moves_the_top_card_to_the_discard_pile() {
    let mut game: Game<AnyAgent, NoShuffle, NullLog> = Game::new(GameLog::new(NullLog::new()));
    game.add_player("buyer", Agents::always_buy_copper(), NoShuffle::new());
    game.populate_supply(CardNames::COPPER, 2);
    game.populate_supply(CardNames::SILVER, 1);

    game.apply_buy(0, BuyChoice::Buy(CardNames::SILVER), 3);
    assert_eq!(1, game.play_area(0).discard_len());
    assert_eq!(vec![CardNames::SILVER], game.supply().empty_supply_piles());

    game.apply_buy(0, BuyChoice::Pass, 3);
    assert_eq!(1, game.play_area(0).discard_len());
    assert_eq!(vec![CardNames::COPPER], game.supply().buyable_cards(3));
}
