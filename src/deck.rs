use vstd::prelude::*;

verus! {

/// A stack of items; the end of the sequence is the top.
#[derive(Debug)]
pub struct Deck<C> {
    cards: Vec<C>,
}

/// What a draw got: everything asked for, or what there was and how many
/// were missing.
#[derive(Debug, PartialEq)]
pub enum DrawResult<C> {
    Complete(Vec<C>),
    Partial(Vec<C>, usize),
}

impl<C> View for Deck<C> {
    type V = Seq<C>;

    closed spec fn view(&self) -> Seq<C> {
        self.cards@
    }
}

impl<C> Deck<C> {
    pub fn new() -> (r: Deck<C>)
        ensures
            r@ == Seq::<C>::empty(),
    {
        Deck { cards: Vec::new() }
    }

    /// Takes up to `num_cards_requested` items from the top, in deck order.
    pub fn draw(&mut self, num_cards_requested: usize) -> (r: DrawResult<C>)
        ensures
            num_cards_requested <= old(self)@.len() ==> {
                &&& final(self)@ == old(self)@.subrange(0, old(self)@.len() - num_cards_requested)
                &&& r matches DrawResult::Complete(v) && v@ == old(self)@.subrange(
                    old(self)@.len() - num_cards_requested,
                    old(self)@.len() as int,
                )
            },
            num_cards_requested > old(self)@.len() ==> {
                &&& final(self)@ == Seq::<C>::empty()
                &&& r matches DrawResult::Partial(v, missing) && v@ == old(self)@ && missing
                    == num_cards_requested - old(self)@.len()
            },
    {
        let index = self.cards.len().saturating_sub(num_cards_requested);
        let cards = self.cards.split_off(index);
        if cards.len() == num_cards_requested {
            DrawResult::Complete(cards)
        } else {
            let remaining = num_cards_requested - cards.len();
            proof {
                assert(cards@ =~= old(self)@);
            }
            DrawResult::Partial(cards, remaining)
        }
    }

    /// Puts `card` first in deck order, ahead of everything already there.
    pub fn add_at_top(&mut self, card: C)
        ensures
            final(self)@ == seq![card] + old(self)@,
    {
        self.cards.insert(0, card);
        proof {
            assert(self.cards@ =~= seq![card] + old(self)@);
        }
    }

    /// Puts `cards` on top in the order given, leaving `cards` empty.
    pub fn add_range(&mut self, cards: &mut Vec<C>)
        ensures
            final(self)@ == old(self)@ + old(cards)@,
            final(cards)@ == Seq::<C>::empty(),
    {
        self.cards.append(cards)
    }
}

} // verus!
