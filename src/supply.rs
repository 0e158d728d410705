use vstd::prelude::*;

use crate::card_pile::{after_taking, top_cards, CardPile};
use crate::cards::{Card, CardName};

verus! {

/// A supply pile as the contracts see it: the name it was created with and
/// its cards, the top last.
pub type PileView = (CardName, Seq<Card>);

/// Names of the piles that are empty, in supply order.
pub open spec fn empty_names(ps: Seq<PileView>) -> Seq<CardName>
    decreases ps.len(),
{
    if ps.len() == 0 {
        Seq::empty()
    } else {
        let rest = empty_names(ps.drop_last());
        if ps.last().1.len() == 0 {
            rest.push(ps.last().0)
        } else {
            rest
        }
    }
}

/// Whether pile `p` has a top card that costs at most `coins`.
pub open spec fn affordable(p: PileView, coins: int) -> bool {
    p.1.len() > 0 && p.1.last().coins_cost <= coins
}

/// Names of the top cards that cost at most `coins`, in supply order.
pub open spec fn buyable_names(ps: Seq<PileView>, coins: int) -> Seq<CardName>
    decreases ps.len(),
{
    if ps.len() == 0 {
        Seq::empty()
    } else {
        let rest = buyable_names(ps.drop_last(), coins);
        if affordable(ps.last(), coins) {
            rest.push(ps.last().1.last().name)
        } else {
            rest
        }
    }
}

/// Whether pile `p` currently has a card named `name` on top.
pub open spec fn topped_by(p: PileView, name: CardName) -> bool {
    p.1.len() > 0 && p.1.last().name == name
}

/// The first pile whose top card is named `name`; -1 if there is none.
pub open spec fn first_topped(ps: Seq<PileView>, name: CardName) -> int
    decreases ps.len(),
{
    if ps.len() == 0 {
        -1
    } else {
        let i = first_topped(ps.drop_last(), name);
        if i >= 0 {
            i
        } else if topped_by(ps.last(), name) {
            ps.len() - 1
        } else {
            -1
        }
    }
}

/// The highest victory tier among the names the piles were created with.
pub open spec fn max_tier(ps: Seq<PileView>) -> int
    decreases ps.len(),
{
    if ps.len() == 0 {
        0
    } else {
        let rest = max_tier(ps.drop_last());
        if ps.last().0.tier() > rest {
            ps.last().0.tier()
        } else {
            rest
        }
    }
}

/// Whether the pile that ends the game is empty: the game-ending pile is the
/// victory pile of the highest tier in the supply.
pub open spec fn ending_pile_empty(ps: Seq<PileView>) -> bool {
    max_tier(ps) > 0 && exists|i: int|
        0 <= i < ps.len() && (#[trigger] ps[i]).0.tier() == max_tier(ps) && ps[i].1.len() == 0
}

struct NamedCardPile {
    name: CardName,
    pile: CardPile,
}

/// The shared piles of cards players buy from.
pub struct Supply {
    supply_piles: Vec<NamedCardPile>,
}

/// `first_topped` finds a pile topped by `name` and no earlier one, or
/// reports that there is none.
pub proof fn lemma_first_topped(ps: Seq<PileView>, name: CardName)
    ensures
        -1 <= first_topped(ps, name) < ps.len(),
        first_topped(ps, name) >= 0 ==> topped_by(ps[first_topped(ps, name)], name),
        forall|j: int|
            0 <= j < ps.len() && (first_topped(ps, name) < 0 || j < first_topped(ps, name))
                ==> !topped_by(#[trigger] ps[j], name),
    decreases ps.len(),
{
    if ps.len() > 0 {
        let t = ps.drop_last();
        lemma_first_topped(t, name);
        assert forall|j: int|
            0 <= j < ps.len() && (first_topped(ps, name) < 0 || j < first_topped(ps, name))
                implies !topped_by(#[trigger] ps[j], name) by {
            if j < ps.len() - 1 {
                assert(ps[j] == t[j]);
            }
        }
    }
}

proof fn lemma_max_tier(ps: Seq<PileView>)
    ensures
        max_tier(ps) >= 0,
        forall|j: int| 0 <= j < ps.len() ==> (#[trigger] ps[j]).0.tier() <= max_tier(ps),
        max_tier(ps) > 0 ==> exists|j: int| 0 <= j < ps.len() && (#[trigger] ps[j]).0.tier() == max_tier(ps),
    decreases ps.len(),
{
    if ps.len() > 0 {
        let t = ps.drop_last();
        lemma_max_tier(t);
        assert forall|j: int| 0 <= j < ps.len() implies (#[trigger] ps[j]).0.tier() <= max_tier(ps) by {
            if j < ps.len() - 1 {
                assert(ps[j] == t[j]);
            }
        }
        if max_tier(ps) > 0 {
            if ps.last().0.tier() > max_tier(t) {
                assert(ps[ps.len() - 1].0.tier() == max_tier(ps));
            } else {
                let j = choose|j: int| 0 <= j < t.len() && (#[trigger] t[j]).0.tier() == max_tier(t);
                assert(ps[j] == t[j]);
            }
        }
    }
}

/// Every name that `buyable_names` lists is the top card of some pile, and
/// that card costs at most `coins`.
pub proof fn lemma_buyable_affordable(ps: Seq<PileView>, coins: int)
    ensures
        forall|k: int|
            0 <= k < buyable_names(ps, coins).len() ==> exists|i: int|
                0 <= i < ps.len() && affordable(ps[i], coins) && (#[trigger] ps[i]).1.last().name
                    == #[trigger] buyable_names(ps, coins)[k],
    decreases ps.len(),
{
    if ps.len() > 0 {
        let t = ps.drop_last();
        lemma_buyable_affordable(t, coins);
        let b = buyable_names(ps, coins);
        assert forall|k: int| 0 <= k < b.len() implies exists|i: int|
            0 <= i < ps.len() && affordable(ps[i], coins) && (#[trigger] ps[i]).1.last().name
                == #[trigger] b[k] by {
            let bt = buyable_names(t, coins);
            if k < bt.len() {
                assert(b[k] == bt[k]);
                let i = choose|i: int|
                    0 <= i < t.len() && affordable(t[i], coins) && (#[trigger] t[i]).1.last().name
                        == #[trigger] bt[k];
                assert(ps[i] == t[i]);
            } else {
                assert(ps[ps.len() - 1] == ps.last());
            }
        }
    }
}

impl Supply {
    pub closed spec fn piles(&self) -> Seq<PileView> {
        self.supply_piles@.map_values(|p: NamedCardPile| (p.name, p.pile@))
    }

    pub fn new() -> (r: Supply)
        ensures
            r.piles() == Seq::<PileView>::empty(),
    {
        let r = Supply { supply_piles: Vec::new() };
        proof {
            assert(r.piles() =~= Seq::<PileView>::empty());
        }
        r
    }

    /// Removes every pile.
    pub fn clear(&mut self)
        ensures
            final(self).piles() == Seq::<PileView>::empty(),
    {
        self.supply_piles = Vec::new();
        proof {
            assert(self.piles() =~= Seq::<PileView>::empty());
        }
    }

    /// Adds a pile. It is named after its top card, and keeps that name when
    /// it runs out.
    pub fn add(&mut self, vec: Vec<Card>)
        requires
            vec@.len() > 0,
        ensures
            final(self).piles() == old(self).piles().push((vec@.last().name, vec@)),
    {
        let name = vec[vec.len() - 1].name;
        let pile = CardPile::from_cards(vec);
        self.supply_piles.push(NamedCardPile { name, pile });
        proof {
            assert(self.piles() =~= old(self).piles().push((vec@.last().name, vec@)));
        }
    }

    /// Names of the piles that are empty, in supply order.
    pub fn empty_supply_piles(&self) -> (r: Vec<CardName>)
        ensures
            r@ == empty_names(self.piles()),
    {
        let ghost ps = self.piles();
        let mut r: Vec<CardName> = Vec::new();
        let mut i: usize = 0;
        while i < self.supply_piles.len()
            invariant
                ps == self.piles(),
                i <= ps.len(),
                r@ == empty_names(ps.subrange(0, i as int)),
            decreases ps.len() - i,
        {
            proof {
                assert(ps.subrange(0, i + 1).drop_last() =~= ps.subrange(0, i as int));
            }
            if self.supply_piles[i].pile.is_empty() {
                r.push(self.supply_piles[i].name);
            }
            i += 1;
        }
        proof {
            assert(ps.subrange(0, i as int) =~= ps);
        }
        r
    }

    /// Names of the top cards that cost at most `coins`, in supply order.
    /// Empty piles have no top card and are skipped.
    pub fn buyable_cards(&self, coins: u8) -> (r: Vec<CardName>)
        ensures
            r@ == buyable_names(self.piles(), coins as int),
    {
        let ghost ps = self.piles();
        let mut r: Vec<CardName> = Vec::new();
        let mut i: usize = 0;
        while i < self.supply_piles.len()
            invariant
                ps == self.piles(),
                i <= ps.len(),
                r@ == buyable_names(ps.subrange(0, i as int), coins as int),
            decreases ps.len() - i,
        {
            proof {
                assert(ps.subrange(0, i + 1).drop_last() =~= ps.subrange(0, i as int));
            }
            match self.supply_piles[i].pile.peek() {
                Some(c) => {
                    if c.coins_cost <= coins {
                        r.push(c.name);
                    }
                },
                None => {},
            }
            i += 1;
        }
        proof {
            assert(ps.subrange(0, i as int) =~= ps);
        }
        r
    }

    /// The first pile whose top card is named `card`. Piles are found by
    /// their top card, as `buyable_cards` lists them.
    fn supply_pile_for(&self, card: CardName) -> (r: Option<usize>)
        ensures
            r.is_none() <==> first_topped(self.piles(), card) < 0,
            r matches Some(i) ==> i as int == first_topped(self.piles(), card),
    {
        let ghost ps = self.piles();
        proof {
            lemma_first_topped(ps, card);
        }
        let mut i: usize = 0;
        while i < self.supply_piles.len()
            invariant
                ps == self.piles(),
                i <= ps.len(),
                forall|j: int| 0 <= j < i ==> !topped_by(#[trigger] ps[j], card),
            decreases ps.len() - i,
        {
            let found = match self.supply_piles[i].pile.peek() {
                Some(c) => c.name == card,
                None => false,
            };
            if found {
                proof {
                    lemma_first_topped(ps, card);
                    let f = first_topped(ps, card);
                    assert(topped_by(ps[i as int], card));
                    if f >= 0 && f < i {
                        assert(!topped_by(ps[f], card));
                    }
                    assert(f == i as int);
                }
                return Some(i);
            }
            i += 1;
        }
        proof {
            lemma_first_topped(ps, card);
        }
        None
    }

    /// Whether some pile has a card named `card` on top.
    pub fn has_top(&self, card: CardName) -> (r: bool)
        ensures
            r == (first_topped(self.piles(), card) >= 0),
    {
        self.supply_pile_for(card).is_some()
    }

    /// Takes up to `n` cards from the first pile topped by `card`.
    pub fn take_up_to_n(&mut self, card: CardName, n: usize) -> (r: Vec<Card>)
        requires
            first_topped(old(self).piles(), card) >= 0,
        ensures
            r@ == top_cards(old(self).piles()[first_topped(old(self).piles(), card)].1, n as int),
            final(self).piles() == old(self).piles().update(
                first_topped(old(self).piles(), card),
                (
                    old(self).piles()[first_topped(old(self).piles(), card)].0,
                    after_taking(old(self).piles()[first_topped(old(self).piles(), card)].1, n as int),
                ),
            ),
    {
        proof {
            lemma_first_topped(self.piles(), card);
            assert(self.piles().len() == self.supply_piles@.len());
        }
        let i = match self.supply_pile_for(card) {
            Some(i) => i,
            None => 0,
        };
        let ghost sp = self.supply_piles@;
        let r = self.supply_piles[i].pile.take_up_to_n(n);
        proof {
            let ps = old(self).piles();
            assert(i as int == first_topped(ps, card));
            assert(self.supply_piles@ =~= sp.update(
                i as int,
                NamedCardPile { name: sp[i as int].name, pile: self.supply_piles@[i as int].pile },
            ));
            assert(self.piles() =~= ps.update(i as int, (ps[i as int].0, after_taking(ps[i as int].1, n as int))));
        }
        r
    }

    /// Takes the top card of the first pile topped by `card`.
    pub fn take_one(&mut self, card: CardName) -> (r: Option<Card>)
        requires
            first_topped(old(self).piles(), card) >= 0,
        ensures
            r == Some(old(self).piles()[first_topped(old(self).piles(), card)].1.last()),
            final(self).piles() == old(self).piles().update(
                first_topped(old(self).piles(), card),
                (
                    old(self).piles()[first_topped(old(self).piles(), card)].0,
                    old(self).piles()[first_topped(old(self).piles(), card)].1.drop_last(),
                ),
            ),
    {
        let ghost ps = self.piles();
        proof {
            lemma_first_topped(ps, card);
        }
        let mut taken = self.take_up_to_n(card, 1);
        proof {
            let s = ps[first_topped(ps, card)].1;
            assert(after_taking(s, 1) =~= s.drop_last());
            assert(taken@ =~= seq![s.last()]);
        }
        taken.pop()
    }

    /// Whether the game-ending pile is empty: of the victory piles in the
    /// supply, the one of the highest tier (an Estate pile ranks below a
    /// Duchy pile, a Duchy pile below a Province pile, a Province pile below
    /// a Colony pile).
    pub fn game_ending_pile_empty(&self) -> (r: bool)
        ensures
            r == ending_pile_empty(self.piles()),
    {
        let ghost ps = self.piles();
        let mut top: u8 = 0;
        let mut i: usize = 0;
        while i < self.supply_piles.len()
            invariant
                ps == self.piles(),
                i <= ps.len(),
                top as int == max_tier(ps.subrange(0, i as int)),
            decreases ps.len() - i,
        {
            proof {
                assert(ps.subrange(0, i + 1).drop_last() =~= ps.subrange(0, i as int));
            }
            let t = self.supply_piles[i].name.victory_tier();
            if t > top {
                top = t;
            }
            i += 1;
        }
        proof {
            assert(ps.subrange(0, i as int) =~= ps);
            lemma_max_tier(ps);
        }
        if top == 0 {
            return false;
        }
        let mut j: usize = 0;
        while j < self.supply_piles.len()
            invariant
                ps == self.piles(),
                j <= ps.len(),
                top as int == max_tier(ps),
                top > 0,
                forall|k: int| 0 <= k < j ==> !((#[trigger] ps[k]).0.tier() == max_tier(ps) && ps[k].1.len() == 0),
            decreases ps.len() - j,
        {
            if self.supply_piles[j].name.victory_tier() == top && self.supply_piles[j].pile.is_empty() {
                assert(ps[j as int].0.tier() == max_tier(ps) && ps[j as int].1.len() == 0);
                assert(ending_pile_empty(ps));
                return true;
            }
            j += 1;
        }
        proof {
            if ending_pile_empty(ps) {
                let k = choose|k: int|
                    0 <= k < ps.len() && (#[trigger] ps[k]).0.tier() == max_tier(ps) && ps[k].1.len() == 0;
                assert(!(ps[k].0.tier() == max_tier(ps) && ps[k].1.len() == 0));
            }
        }
        false
    }
}

/// A name that `buyable_names` lists tops some pile, so it can be taken.
pub proof fn lemma_buyable_topped(ps: Seq<PileView>, coins: int, name: CardName)
    requires
        buyable_names(ps, coins).contains(name),
    ensures
        first_topped(ps, name) >= 0,
{
    lemma_buyable_affordable(ps, coins);
    lemma_first_topped(ps, name);
    let k = choose|k: int| 0 <= k < buyable_names(ps, coins).len() && buyable_names(ps, coins)[k] == name;
    let i = choose|i: int|
        0 <= i < ps.len() && affordable(ps[i], coins) && (#[trigger] ps[i]).1.last().name
            == #[trigger] buyable_names(ps, coins)[k];
    assert(topped_by(ps[i], name));
}

/// Once a victory pile of the highest tier in the supply is empty, the
/// game-ending pile is empty: the game ends at the next check.
pub proof fn emptied_top_victory_pile_ends_game(ps: Seq<PileView>, i: int)
    requires
        0 <= i < ps.len(),
        max_tier(ps) > 0,
        ps[i].0.tier() == max_tier(ps),
        ps[i].1.len() == 0,
    ensures
        ending_pile_empty(ps),
{
    assert(ps[i].0.tier() == max_tier(ps) && ps[i].1.len() == 0);
}

/// Every name that `buyable_cards(coins)` returns is the top card of a pile
/// of the supply, and that card costs at most `coins`.
pub proof fn buyable_cards_are_affordable(supply: &Supply, coins: u8)
    ensures
        forall|k: int|
            0 <= k < buyable_names(supply.piles(), coins as int).len() ==> exists|i: int|
                0 <= i < supply.piles().len() && affordable(supply.piles()[i], coins as int) && (
                #[trigger] supply.piles()[i]).1.last().name == #[trigger] buyable_names(
                    supply.piles(),
                    coins as int,
                )[k],
{
    lemma_buyable_affordable(supply.piles(), coins as int);
}

} // verus!
