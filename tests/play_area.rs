use dominion::cards::{Card, CardName, CardNames, CardTypes, Cards};
use dominion::effects::CardEffect;
use dominion::logs::{GameEvent, GameLog, LogEntry, MemoryLog, NullLog};
use dominion::play_area::PlayArea;
use dominion::player_counters::PlayerCounters;
use dominion::shuffler::{NoShuffle, RandomShuffler};

fn copies(make: fn() -> Card, n: usize) -> Vec<Card> {
    (0..n).map(|_| make()).collect()
}

fn names(groups: &[(CardName, usize)]) -> Vec<CardName> {
    let mut v = Vec::new();
    for (name, n) in groups {
        for _ in 0..*n {
            v.push(*name);
        }
    }
    v
}

fn from_initial_cards(mut cards: Vec<Card>) -> PlayArea<NoShuffle> {
    let mut area = PlayArea::new(NoShuffle::new());
    area.gain_cards_to_discard_pile(&mut cards);
    area
}

fn standard_cards() -> Vec<Card> {
    let mut v = copies(Cards::copper, 7);
    v.append(&mut copies(Cards::estate, 3));
    v
}

fn make_log() -> GameLog<NullLog> {
    GameLog::new(NullLog::new())
}

fn hand_names<S: dominion::shuffler::Shuffler>(area: &PlayArea<S>) -> Vec<CardName> {
    area.inspect_hand().iter().map(|c| c.name).collect()
}

fn shuffles(log: &GameLog<MemoryLog>) -> usize {
    log.inner().count_shuffles()
}

#[test]
fn drawn_cards_go_into_hand() {
    let mut play_area = from_initial_cards(standard_cards());

    play_area.draw_hand(&mut make_log());

    assert_eq!(
        names(&[(CardNames::COPPER, 2), (CardNames::ESTATE, 3)]),
        hand_names(&play_area)
    );
}

#[test]
fn discarded_cards_leave_hand() {
    let mut play_area = from_initial_cards(standard_cards());

    play_area.draw_hand(&mut make_log());
    play_area.discard_hand();

    assert_eq!(0, play_area.inspect_hand().len());
}

#[test]
fn discarded_cards_are_recycled_into_hand() {
    let mut cards = copies(Cards::copper, 5);
    cards.append(&mut copies(Cards::estate, 2));
    let mut play_area = from_initial_cards(cards);

    // draw 5 and discard
    play_area.draw_hand(&mut make_log());
    play_area.discard_hand();
    // attempt to draw another 5: get some of the original discarded cards
    play_area.draw_hand(&mut make_log());

    assert_eq!(
        names(&[(CardNames::COPPER, 3), (CardNames::ESTATE, 2)]),
        hand_names(&play_area)
    );
}

#[test]
fn can_attempt_to_draw_five_even_if_deck_contains_fewer_cards() {
    let mut play_area = from_initial_cards(copies(Cards::copper, 3));

    play_area.draw_hand(&mut make_log());

    assert_eq!(3, play_area.inspect_hand().len());
}

#[test]
fn playing_treasure_increases_coins() {
    let mut hand = copies(Cards::copper, 1);
    hand.append(&mut copies(Cards::silver, 1));
    let mut play_area = PlayArea::test_from_hand(hand);
    let mut counters = PlayerCounters::new_turn();

    play_area.play_card(CardNames::COPPER, &mut counters, &mut make_log());
    assert_eq!(1, counters.coins);
    play_area.play_card(CardNames::SILVER, &mut counters, &mut make_log());
    assert_eq!(3, counters.coins);
}

#[test]
fn playing_smithy_draws_more_cards() {
    let mut play_area = PlayArea::test_from_hand(copies(Cards::smithy, 1));
    play_area.gain_cards_to_discard_pile(&mut copies(Cards::copper, 3));
    let mut counters = PlayerCounters::new_turn();

    play_area.play_card(CardNames::SMITHY, &mut counters, &mut make_log());
    assert_eq!(3, play_area.inspect_hand().len());
}

#[test]
fn playing_village_increases_actions() {
    let mut play_area = PlayArea::test_from_hand(copies(Cards::village, 1));
    let mut counters = PlayerCounters::new_turn();

    assert_eq!(1, counters.actions);
    play_area.play_card(CardNames::VILLAGE, &mut counters, &mut make_log());
    // note these tests assume that play_area isn't responsible for decrementing actions
    assert_eq!(3, counters.actions);
}

#[test]
fn drawing_a_hand_from_ten_coppers_leaves_five() {
    let mut play_area = from_initial_cards(copies(Cards::copper, 10));

    play_area.draw_hand(&mut make_log());

    assert_eq!(names(&[(CardNames::COPPER, 5)]), hand_names(&play_area));
    assert_eq!(5, play_area.deck_len());
    assert_eq!(0, play_area.discard_len());
}

#[test]
fn second_draw_reshuffles_the_first_discard_and_gets_five() {
    let mut cards = copies(Cards::copper, 5);
    cards.append(&mut copies(Cards::estate, 2));
    let mut play_area = PlayArea::new(NoShuffle::new());
    play_area.gain_cards_to_discard_pile(&mut cards);
    let mut log = GameLog::new(MemoryLog::new());

    play_area.draw_hand(&mut log);
    play_area.discard_hand();
    play_area.draw_hand(&mut log);

    assert_eq!(5, play_area.inspect_hand().len());
    assert_eq!(2, play_area.deck_len());
    assert_eq!(0, play_area.discard_len());
}

#[test]
fn draw_under_abundance_gets_exactly_n() {
    let mut play_area = from_initial_cards(copies(Cards::copper, 4));
    let mut log = make_log();
    play_area.draw_n(2, &mut log);
    play_area.discard_hand();
    // deck 2, discard 2: four cards in reach, four asked for
    play_area.draw_n(4, &mut log);

    assert_eq!(4, play_area.inspect_hand().len());
    assert_eq!(0, play_area.deck_len());
    assert_eq!(0, play_area.discard_len());
}

#[test]
fn draw_under_scarcity_gets_what_there_is_and_empties_both_piles() {
    let mut play_area = from_initial_cards(copies(Cards::estate, 3));
    let mut log = make_log();
    play_area.draw_n(1, &mut log);
    play_area.discard_hand();

    play_area.draw_n(9, &mut log);

    assert_eq!(3, play_area.inspect_hand().len());
    assert_eq!(0, play_area.deck_len());
    assert_eq!(0, play_area.discard_len());
}

#[test]
fn a_short_deck_shuffles_exactly_once_however_many_are_asked_for() {
    let mut play_area = from_initial_cards(copies(Cards::copper, 3));
    let mut log = GameLog::new(MemoryLog::new());

    play_area.draw_n(50, &mut log);

    assert_eq!(1, shuffles(&log));
    let events: Vec<GameEvent> = log
        .inner()
        .get_entries()
        .iter()
        .filter_map(|e| match e {
            LogEntry::Event(ev) => Some(*ev),
            _ => None,
        })
        .collect();
    assert_eq!(
        vec![
            GameEvent::DrawCards(0),
            GameEvent::Shuffle,
            GameEvent::DrawCards(3)
        ],
        events
    );
}

#[test]
fn a_sufficient_deck_does_not_shuffle() {
    let mut play_area = from_initial_cards(copies(Cards::copper, 8));
    let mut log = GameLog::new(MemoryLog::new());
    play_area.draw_n(1, &mut log);
    assert_eq!(1, shuffles(&log));

    play_area.draw_n(5, &mut log);

    assert_eq!(1, shuffles(&log));
    assert_eq!(6, play_area.inspect_hand().len());
}

#[test]
fn discard_and_gain_keep_every_card() {
    let mut play_area = from_initial_cards(standard_cards());
    let mut log = make_log();
    play_area.draw_hand(&mut log);
    let mut counters = PlayerCounters::new_turn();
    play_area.play_card(CardNames::COPPER, &mut counters, &mut log);
    play_area.gain_card_to_discard_pile(Cards::gold());
    play_area.discard_in_play();
    play_area.discard_hand();

    assert_eq!(0, play_area.in_play().len());
    let all = play_area.take_all_cards();
    assert_eq!(11, all.len());
    assert_eq!(7, all.iter().filter(|c| c.name == CardNames::COPPER).count());
    assert_eq!(3, all.iter().filter(|c| c.name == CardNames::ESTATE).count());
    assert_eq!(1, all.iter().filter(|c| c.name == CardNames::GOLD).count());
    assert_eq!(0, play_area.deck_len());
    assert_eq!(0, play_area.discard_len());
    assert_eq!(0, play_area.inspect_hand().len());
}

#[test]
fn a_sequence_of_actions_and_a_draw_applies_both() {
    let card = Card::new(
        CardNames::VILLAGE,
        3,
        0,
        vec![CardTypes::ACTION],
        CardEffect::Sequence(vec![CardEffect::AddActions(2), CardEffect::DrawCards(1)]),
    );
    let mut play_area = PlayArea::test_from_hand(vec![card, Cards::estate()]);
    play_area.gain_cards_to_discard_pile(&mut copies(Cards::copper, 3));
    let mut log = make_log();
    play_area.draw_n(1, &mut log);
    assert_eq!(3, play_area.inspect_hand().len());
    assert_eq!(2, play_area.deck_len());
    let mut counters = PlayerCounters::new_turn();

    play_area.play_card(CardNames::VILLAGE, &mut counters, &mut log);

    assert_eq!(3, counters.actions);
    assert_eq!(1, counters.buys);
    assert_eq!(0, counters.coins);
    // two cards stay in hand and one more is drawn
    assert_eq!(3, play_area.inspect_hand().len());
    assert_eq!(1, play_area.deck_len());
    assert_eq!(1, play_area.in_play().len());
}

#[test]
fn playing_swaps_the_last_card_into_the_gap() {
    let hand = vec![Cards::copper(), Cards::estate(), Cards::gold()];
    let mut play_area = PlayArea::test_from_hand(hand);
    let mut counters = PlayerCounters::new_turn();

    play_area.play_card(CardNames::COPPER, &mut counters, &mut make_log());

    assert_eq!(vec![CardNames::GOLD, CardNames::ESTATE], hand_names(&play_area));
    assert_eq!(1, counters.coins);
}

#[test]
fn treasure_names_lists_treasures_in_hand_order() {
    let hand = vec![Cards::estate(), Cards::silver(), Cards::smithy(), Cards::copper()];
    let play_area = PlayArea::test_from_hand(hand);

    assert_eq!(
        vec![CardNames::SILVER, CardNames::COPPER],
        play_area.treasure_names()
    );
}

#[test]
fn can_play_refuses_a_missing_card_and_an_overflow() {
    let play_area = PlayArea::test_from_hand(vec![Cards::platinum()]);
    let counters = PlayerCounters::new_turn();
    assert!(play_area.can_play(CardNames::PLATINUM, &counters));
    assert!(!play_area.can_play(CardNames::GOLD, &counters));
    let rich = PlayerCounters { actions: 1, buys: 1, coins: 251 };
    assert!(!play_area.can_play(CardNames::PLATINUM, &rich));
    let enough = PlayerCounters { actions: 1, buys: 1, coins: 250 };
    assert!(play_area.can_play(CardNames::PLATINUM, &enough));
}

#[test]
fn random_shuffle_reorders_but_keeps_the_cards() {
    let all = [
        Cards::copper as fn() -> Card,
        Cards::silver,
        Cards::gold,
        Cards::platinum,
        Cards::estate,
        Cards::duchy,
        Cards::province,
        Cards::colony,
        Cards::smithy,
        Cards::village,
    ];
    let mut cards: Vec<Card> = all.iter().map(|f| f()).collect();
    let before: Vec<CardName> = cards.iter().map(|c| c.name).collect();
    let mut play_area = PlayArea::new(RandomShuffler::new(1234));
    play_area.gain_cards_to_discard_pile(&mut cards);

    play_area.draw_n(10, &mut make_log());

    let after = hand_names(&play_area);
    assert_ne!(before, after);
    let mut sorted = after.clone();
    sorted.sort();
    assert_eq!(before, sorted);
}
