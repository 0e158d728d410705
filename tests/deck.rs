use dominion::deck::{Deck, DrawResult};

#[test]
fn deck_added_cards_can_be_drawn() {
    let mut deck = Deck::<i32>::new();
    deck.add_at_top(1);
    deck.add_at_top(2);
    deck.add_at_top(3);
    let cards = deck.draw(3);
    assert_eq!(
        DrawResult::Complete(vec![3, 2, 1]),
        cards,
        "Since each card was added to the top, they get drawn in reverse order"
    )
}

#[test]
fn deck_if_there_arent_enough_cards_then_remaining_cards_get_drawn() {
    let mut deck = Deck::<i32>::new();
    deck.add_range(&mut vec![1, 2, 3]);
    let cards = deck.draw(5);
    assert_eq!(
        cards,
        DrawResult::Partial {
            0: vec![1, 2, 3],
            1: 2
        }
    )
}

#[test]
fn deck_draw_takes_from_the_end() {
    let mut deck = Deck::<i32>::new();
    deck.add_range(&mut vec![1, 2, 3, 4]);
    assert_eq!(DrawResult::Complete(vec![3, 4]), deck.draw(2));
    assert_eq!(DrawResult::Complete(vec![1, 2]), deck.draw(2));
    assert_eq!(DrawResult::Partial(vec![], 1), deck.draw(1));
}
