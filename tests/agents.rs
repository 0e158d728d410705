use dominion::cards::CardNames;
use dominion::players::{Agent, Agents, BasicPriorities, BoundedPriorities, BuyChoice, PlayChoice};

#[test]
fn basic_priorities_buy_the_first_listed_offer() {
    let mut agent = Agents::greedy_for_duchies();
    assert_eq!(
        BuyChoice::Buy(CardNames::SILVER),
        agent.buy_phase(&[CardNames::COPPER, CardNames::SILVER, CardNames::ESTATE])
    );
    assert_eq!(
        BuyChoice::Buy(CardNames::DUCHY),
        agent.buy_phase(&[CardNames::COPPER, CardNames::DUCHY, CardNames::PROVINCE])
    );
    assert_eq!(BuyChoice::Pass, agent.buy_phase(&[CardNames::ESTATE]));
    assert_eq!(BuyChoice::Pass, agent.buy_phase(&[]));
}

#[test]
fn basic_priorities_play_the_first_listed_card() {
    let mut agent = BasicPriorities::new(vec![], vec![CardNames::VILLAGE, CardNames::SMITHY]);
    assert_eq!(
        PlayChoice::Play(CardNames::VILLAGE),
        agent.action_phase(&[CardNames::SMITHY, CardNames::VILLAGE])
    );
    assert_eq!(
        PlayChoice::Play(CardNames::SMITHY),
        agent.action_phase(&[CardNames::SMITHY])
    );
    assert_eq!(PlayChoice::Pass, agent.action_phase(&[CardNames::COPPER]));
    assert_eq!(BuyChoice::Pass, agent.buy_phase(&[CardNames::COPPER]));
}

#[test]
fn bounded_priorities_stop_at_their_bound() {
    let mut agent = BoundedPriorities::new(
        vec![(CardNames::SMITHY, 2), (CardNames::SILVER, 100)],
        vec![],
    );
    let offer = [CardNames::SILVER, CardNames::SMITHY];
    assert_eq!(BuyChoice::Buy(CardNames::SMITHY), agent.buy_phase(&offer));
    assert_eq!(BuyChoice::Buy(CardNames::SMITHY), agent.buy_phase(&offer));
    assert_eq!(BuyChoice::Buy(CardNames::SILVER), agent.buy_phase(&offer));
    assert_eq!(BuyChoice::Pass, agent.buy_phase(&[CardNames::SMITHY]));
}

#[test]
fn a_bound_of_zero_never_buys() {
    let mut agent = BoundedPriorities::new(vec![(CardNames::GOLD, 0)], vec![]);
    assert_eq!(BuyChoice::Pass, agent.buy_phase(&[CardNames::GOLD]));
}

#[test]
fn big_money_with_smithies_prefers_provinces_and_two_smithies() {
    let mut agent = Agents::big_money_splash_smithys();
    let offer = [CardNames::SILVER, CardNames::SMITHY, CardNames::GOLD];
    assert_eq!(BuyChoice::Buy(CardNames::SMITHY), agent.buy_phase(&offer));
    assert_eq!(BuyChoice::Buy(CardNames::SMITHY), agent.buy_phase(&offer));
    assert_eq!(BuyChoice::Buy(CardNames::GOLD), agent.buy_phase(&offer));
    assert_eq!(
        BuyChoice::Buy(CardNames::PROVINCE),
        agent.buy_phase(&[CardNames::GOLD, CardNames::PROVINCE])
    );
    assert_eq!(
        PlayChoice::Play(CardNames::VILLAGE),
        agent.action_phase(&[CardNames::SMITHY, CardNames::VILLAGE])
    );
}

#[test]
fn ready_made_agents_follow_their_lists() {
    let mut copper = Agents::always_buy_copper();
    assert_eq!(
        BuyChoice::Buy(CardNames::COPPER),
        copper.buy_phase(&[CardNames::GOLD, CardNames::COPPER])
    );
    let mut silver = Agents::silver_test();
    assert_eq!(
        BuyChoice::Buy(CardNames::SILVER),
        silver.buy_phase(&[CardNames::GOLD, CardNames::SILVER])
    );
    let mut big = Agents::simple_big_money();
    assert_eq!(
        BuyChoice::Buy(CardNames::GOLD),
        big.buy_phase(&[CardNames::SILVER, CardNames::GOLD])
    );
    assert_eq!(PlayChoice::Pass, big.action_phase(&[CardNames::SMITHY]));
}
