use vstd::prelude::*;

use crate::cards::Card;

verus! {

/// An ordered stack of cards. The last card is the top: the next one taken.
#[derive(Debug)]
pub struct CardPile {
    cards: Vec<Card>,
}

/// Whether a move got every card it asked for, and if not how many were missing.
#[derive(Debug, PartialEq, Eq, Structural)]
pub enum DrawResult {
    Complete,
    Partial(usize),
}

impl View for CardPile {
    type V = Seq<Card>;

    closed spec fn view(&self) -> Seq<Card> {
        self.cards@
    }
}

/// How many cards a request for `n` gets from a pile of `len`.
pub open spec fn taken(len: int, n: int) -> int {
    if n <= len {
        n
    } else {
        len
    }
}

/// What is left of `s` after `n` cards are taken from its top.
pub open spec fn after_taking(s: Seq<Card>, n: int) -> Seq<Card> {
    s.subrange(0, s.len() - taken(s.len() as int, n))
}

/// The cards that `n` taken from the top of `s` are, in pile order.
pub open spec fn top_cards(s: Seq<Card>, n: int) -> Seq<Card> {
    s.subrange(s.len() - taken(s.len() as int, n), s.len() as int)
}

impl CardPile {
    pub fn new() -> (r: CardPile)
        ensures
            r@ == Seq::<Card>::empty(),
    {
        CardPile { cards: Vec::new() }
    }

    pub fn with_initial_capacity(capacity: usize) -> (r: CardPile)
        ensures
            r@ == Seq::<Card>::empty(),
    {
        CardPile { cards: Vec::with_capacity(capacity) }
    }

    pub fn from_cards(cards: Vec<Card>) -> (r: CardPile)
        ensures
            r@ == cards@,
    {
        CardPile { cards }
    }

    pub fn len(&self) -> (r: usize)
        ensures
            r == self@.len(),
    {
        self.cards.len()
    }

    /// Moves up to `n` cards from the top of this pile onto `other`, keeping
    /// their order, and reports whether all `n` were there.
    pub fn move_n_to(&mut self, n: usize, other: &mut CardPile) -> (r: DrawResult)
        ensures
            final(self)@ == after_taking(old(self)@, n as int),
            final(other)@ == old(other)@ + top_cards(old(self)@, n as int),
            n <= old(self)@.len() ==> r == DrawResult::Complete,
            n > old(self)@.len() ==> r == DrawResult::Partial((n - old(self)@.len()) as usize),
    {
        let len = self.cards.len();
        let index = len.saturating_sub(n);
        let count = len - index;

        let mut cards = self.cards.split_off(index);
        other.cards.append(&mut cards);

        if count == n {
            DrawResult::Complete
        } else {
            DrawResult::Partial(n - count)
        }
    }

    /// Moves up to `n` cards from the top of this pile onto `other`; fewer
    /// when there are not enough.
    pub fn move_up_to_n_to(&mut self, n: usize, other: &mut CardPile)
        ensures
            final(self)@ == after_taking(old(self)@, n as int),
            final(other)@ == old(other)@ + top_cards(old(self)@, n as int),
    {
        let len = self.cards.len();
        let index = len.saturating_sub(n);
        let mut cards = self.cards.split_off(index);
        other.cards.append(&mut cards);
    }

    /// Moves every card of this pile onto `other`, keeping their order.
    pub fn move_all_to(&mut self, other: &mut CardPile)
        ensures
            final(self)@ == Seq::<Card>::empty(),
            final(other)@ == old(other)@ + old(self)@,
    {
        other.cards.append(&mut self.cards);
    }

    /// Takes up to `n` cards from the top; fewer when there are not enough.
    pub fn take_up_to_n(&mut self, n: usize) -> (r: Vec<Card>)
        ensures
            final(self)@ == after_taking(old(self)@, n as int),
            r@ == top_cards(old(self)@, n as int),
    {
        let index = self.cards.len().saturating_sub(n);
        self.cards.split_off(index)
    }

    /// Puts `cards` on top of the pile in the order given, leaving `cards` empty.
    pub fn add_range(&mut self, cards: &mut Vec<Card>)
        ensures
            final(self)@ == old(self)@ + old(cards)@,
            final(cards)@ == Seq::<Card>::empty(),
    {
        self.cards.append(cards)
    }

    pub fn push(&mut self, card: Card)
        ensures
            final(self)@ == old(self)@.push(card),
    {
        self.cards.push(card)
    }

    /// The top card, if any.
    pub fn peek(&self) -> (r: Option<&Card>)
        ensures
            self@.len() == 0 ==> r.is_none(),
            self@.len() > 0 ==> r == Some(&self@.last()),
    {
        if self.cards.len() == 0 {
            None
        } else {
            Some(&self.cards[self.cards.len() - 1])
        }
    }

    pub fn take_all(&mut self) -> (r: Vec<Card>)
        ensures
            final(self)@ == Seq::<Card>::empty(),
            r@ == old(self)@,
    {
        self.cards.split_off(0)
    }

    pub fn is_empty(&self) -> (r: bool)
        ensures
            r == (self@.len() == 0),
    {
        self.cards.len() == 0
    }

    /// The cards in pile order, the top last.
    pub fn temp_iter(&self) -> (r: &[Card])
        ensures
            r@ == self@,
    {
        self.cards.as_slice()
    }

    /// Direct access to the cards, the top last.
    pub fn temp_internal_vec(&mut self) -> (r: &mut Vec<Card>)
        ensures
            r@ == old(self)@,
            final(self)@ == final(r)@,
    {
        &mut self.cards
    }
}

} // verus!
