use vstd::multiset::Multiset;
use vstd::prelude::*;

use crate::card_pile::{after_taking, top_cards, CardPile, DrawResult};
use crate::cards::{Card, CardName, CardType, CardTypes};
use crate::effects::{
    effect_actions, effect_coins, effect_draws, effects_actions, effects_coins, effects_draws,
    effect_draw_list, effects_draw_list, lemma_effects_prefix, lemma_seq_totals_nonneg,
    lemma_totals_nonneg, room_after, CardEffect,
};
use crate::logs::{shuffle_count, GameEvent, GameLog, GameLogInner};
use crate::player_counters::PlayerCounters;
use crate::shuffler::{NoShuffle, Shuffler};

verus! {

broadcast use {vstd::seq_lib::lemma_multiset_commutative, vstd::seq_lib::group_to_multiset_ensures};

/// The number of cards a draw of `n` gets when `available` cards are in the
/// deck and the discard pile together.
pub open spec fn drawable(n: int, available: int) -> int {
    if n <= available {
        n
    } else {
        available
    }
}

/// The events a draw of `n` from a deck of `deck_len` cards and a discard
/// pile of `discard_len` emits: one `DrawCards` when the deck suffices;
/// otherwise what the deck had, one shuffle, and what the reshuffled pile
/// gave.
pub open spec fn draw_events(n: int, deck_len: int, discard_len: int) -> Seq<GameEvent> {
    if n <= deck_len {
        seq![GameEvent::DrawCards(n as usize)]
    } else {
        seq![
            GameEvent::DrawCards(deck_len as usize),
            GameEvent::Shuffle,
            GameEvent::DrawCards(drawable(n - deck_len, discard_len) as usize),
        ]
    }
}

/// The position of the first card named `name` in `s`, if there is one.
pub open spec fn first_named(s: Seq<Card>, name: CardName) -> int
    decreases s.len(),
{
    if s.len() == 0 {
        -1
    } else {
        let i = first_named(s.drop_last(), name);
        if i >= 0 {
            i
        } else if s.last().name == name {
            s.len() - 1
        } else {
            -1
        }
    }
}

/// `s` with its `i`-th card taken out and the last card moved into its place.
pub open spec fn swap_removed(s: Seq<Card>, i: int) -> Seq<Card> {
    s.update(i, s.last()).drop_last()
}

/// The card `play_card` takes from a hand `s` when asked for `name`.
pub open spec fn played_card(s: Seq<Card>, name: CardName) -> Card {
    s[first_named(s, name)]
}

proof fn lemma_first_named(s: Seq<Card>, name: CardName)
    ensures
        -1 <= first_named(s, name) < s.len(),
        first_named(s, name) >= 0 ==> s[first_named(s, name)].name == name,
        forall|j: int| 0 <= j < s.len() && (first_named(s, name) < 0 || j < first_named(s, name))
            ==> s[j].name != name,
    decreases s.len(),
{
    if s.len() > 0 {
        let t = s.drop_last();
        lemma_first_named(t, name);
        assert forall|j: int|
            0 <= j < s.len() && (first_named(s, name) < 0 || j < first_named(s, name)) implies s[j].name
            != name by {
            if j < s.len() - 1 {
                assert(s[j] == t[j]);
            }
        }
    }
}

proof fn lemma_swap_removed_multiset(s: Seq<Card>, i: int)
    requires
        0 <= i < s.len(),
    ensures
        swap_removed(s, i).to_multiset().insert(s[i]) =~= s.to_multiset(),
{
    let l = s.len() - 1;
    let sr = swap_removed(s, i);
    if i == l {
        assert(s =~= sr.push(s[l]));
    } else {
        let t = s.update(i, s[l]);
        assert(t =~= sr.push(s[l]));
        assert(t.remove(i) =~= s.remove(i));
        assert(t[i] == s[l]);
        assert(t.to_multiset() =~= sr.to_multiset().insert(s[l]));
        assert(t.remove(i).to_multiset() =~= t.to_multiset().remove(s[l]));
        assert(s.remove(i).to_multiset() =~= s.to_multiset().remove(s[i]));
        assert(sr.to_multiset() =~= s.to_multiset().remove(s[i]));
        assert(s.contains(s[i]));
        assert(s.to_multiset().count(s[i]) > 0);
    }
}

/// Names of the treasures among `s`, in order.
pub open spec fn treasure_names_of(s: Seq<Card>) -> Seq<CardName>
    decreases s.len(),
{
    if s.len() == 0 {
        Seq::empty()
    } else {
        let rest = treasure_names_of(s.drop_last());
        if s.last().type_set().contains(CardType::Treasure) {
            rest.push(s.last().name)
        } else {
            rest
        }
    }
}

/// A player's four zones: the deck drawn from, the hand, the cards played
/// this turn and the discard pile that becomes the next deck.
pub struct PlayArea<S> {
    deck: CardPile,
    hand: CardPile,
    in_play: Vec<Card>,
    discard: CardPile,
    shuffler: S,
}

impl<S: Shuffler> PlayArea<S> {
    pub closed spec fn deck_cards(&self) -> Seq<Card> {
        self.deck@
    }

    pub closed spec fn hand_cards(&self) -> Seq<Card> {
        self.hand@
    }

    pub closed spec fn in_play_cards(&self) -> Seq<Card> {
        self.in_play@
    }

    pub closed spec fn discard_cards(&self) -> Seq<Card> {
        self.discard@
    }

    /// The shuffler this area reshuffles its discard pile with.
    pub closed spec fn shuffler(&self) -> S {
        self.shuffler
    }

    /// Every card the player owns, whatever zone it is in.
    pub open spec fn owned(&self) -> Multiset<Card> {
        self.deck_cards().to_multiset().add(self.hand_cards().to_multiset()).add(
            self.in_play_cards().to_multiset(),
        ).add(self.discard_cards().to_multiset())
    }

    /// The cards a draw can still reach: the deck and the discard pile.
    pub open spec fn available(&self) -> int {
        self.deck_cards().len() + self.discard_cards().len() as int
    }

    /// What a draw of `n` makes of the zones `before`: the hand grows by
    /// `n`, or by all the deck and discard pile hold when that is fewer; the
    /// deck is drawn from its top first, and only when it runs short is the
    /// discard pile shuffled into a new deck; no card is made or lost.
    pub open spec fn draw_outcome(before: Self, after: Self, n: int) -> bool {
        &&& after.owned() == before.owned()
        &&& after.in_play_cards() == before.in_play_cards()
        &&& after.hand_cards().len() == before.hand_cards().len() + drawable(n, before.available())
        &&& after.available() == before.available() - drawable(n, before.available())
        &&& after.hand_cards().subrange(0, before.hand_cards().len() as int) == before.hand_cards()
        &&& n <= before.deck_cards().len() ==> {
            &&& after.shuffler() == before.shuffler()
            &&& after.deck_cards() == after_taking(before.deck_cards(), n)
            &&& after.hand_cards() == before.hand_cards() + top_cards(before.deck_cards(), n)
            &&& after.discard_cards() == before.discard_cards()
        }
        &&& n > before.deck_cards().len() ==> {
            &&& after.discard_cards() == Seq::<Card>::empty()
            &&& exists|p: Seq<Card>|
                #![trigger top_cards(p, n - before.deck_cards().len())]
                {
                    &&& p.to_multiset() == before.discard_cards().to_multiset()
                    &&& S::shuffled(before.discard_cards(), p)
                    &&& after.deck_cards() == after_taking(p, n - before.deck_cards().len())
                    &&& after.hand_cards() == before.hand_cards() + before.deck_cards() + top_cards(
                        p,
                        n - before.deck_cards().len(),
                    )
                }
        }
    }

    /// The hand moved, in order, onto the discard pile.
    pub open spec fn discard_hand_outcome(before: Self, after: Self) -> bool {
        &&& after.shuffler() == before.shuffler()
        &&& after.hand_cards() == Seq::<Card>::empty()
        &&& after.discard_cards() == before.discard_cards() + before.hand_cards()
        &&& after.deck_cards() == before.deck_cards()
        &&& after.in_play_cards() == before.in_play_cards()
    }

    /// The cards in play moved, in order, onto the discard pile.
    pub open spec fn discard_in_play_outcome(before: Self, after: Self) -> bool {
        &&& after.shuffler() == before.shuffler()
        &&& after.in_play_cards() == Seq::<Card>::empty()
        &&& after.discard_cards() == before.discard_cards() + before.in_play_cards()
        &&& after.deck_cards() == before.deck_cards()
        &&& after.hand_cards() == before.hand_cards()
    }

    /// `gained` put, in order, on the discard pile.
    pub open spec fn gain_outcome(before: Self, after: Self, gained: Seq<Card>) -> bool {
        &&& after.shuffler() == before.shuffler()
        &&& after.discard_cards() == before.discard_cards() + gained
        &&& after.deck_cards() == before.deck_cards()
        &&& after.hand_cards() == before.hand_cards()
        &&& after.in_play_cards() == before.in_play_cards()
    }

    /// One draw, discard or gain, which gained the cards `gained`: none
    /// unless it is a gain.
    pub open spec fn zone_step(before: Self, after: Self, gained: Seq<Card>) -> bool {
        ||| gained.len() == 0 && exists|n: int| Self::draw_outcome(before, after, n)
        ||| gained.len() == 0 && Self::discard_hand_outcome(before, after)
        ||| gained.len() == 0 && Self::discard_in_play_outcome(before, after)
        ||| Self::gain_outcome(before, after, gained)
    }

    /// A run of draws of the amounts `ks`, one after the other: `states`
    /// are the zones before, between and after them, `evs` the events.
    pub open spec fn draw_chain(states: Seq<Self>, evs: Seq<Seq<GameEvent>>, ks: Seq<int>) -> bool {
        &&& states.len() == ks.len() + 1
        &&& evs.len() == ks.len() + 1
        &&& forall|i: int|
            #![trigger ks[i]]
            0 <= i < ks.len() ==> Self::draw_outcome(states[i], states[i + 1], ks[i]) && evs[i + 1]
                == evs[i] + draw_events(ks[i], states[i].deck_cards().len() as int, states[i].discard_cards().len() as int)
    }

    /// Draws of the amounts `ks`, in order, take the zones from `before` to
    /// `after` and the events from `ev_before` to `ev_after`.
    pub open spec fn draws_outcome(
        before: Self,
        after: Self,
        ev_before: Seq<GameEvent>,
        ev_after: Seq<GameEvent>,
        ks: Seq<int>,
    ) -> bool {
        exists|states: Seq<Self>, evs: Seq<Seq<GameEvent>>|
            #[trigger] Self::draw_chain(states, evs, ks) && states[0] == before && states.last()
                == after && evs[0] == ev_before && evs.last() == ev_after
    }

    /// What resolving `e` makes of the zones and the events: each
    /// `DrawCards(k)` in it is a draw of `k`, in the order the effect runs
    /// them; nothing else touches the zones or the log.
    pub open spec fn effect_outcome(
        before: Self,
        after: Self,
        ev_before: Seq<GameEvent>,
        ev_after: Seq<GameEvent>,
        e: CardEffect,
    ) -> bool {
        Self::draws_outcome(before, after, ev_before, ev_after, effect_draw_list(e))
    }

    /// What `play_card(name)` makes of the zones: the first card named
    /// `name` leaves the hand, the last card of the hand taking its place;
    /// its effect is resolved on the zones that leaves; then the card is in
    /// play.
    pub open spec fn play_outcome(
        before: Self,
        after: Self,
        ev_before: Seq<GameEvent>,
        ev_after: Seq<GameEvent>,
        name: CardName,
    ) -> bool {
        &&& after.in_play_cards() == before.in_play_cards().push(played_card(before.hand_cards(), name))
        &&& exists|mid: Self, end: Self|
            {
                &&& mid.deck_cards() == before.deck_cards()
                &&& mid.hand_cards() == swap_removed(
                    before.hand_cards(),
                    first_named(before.hand_cards(), name),
                )
                &&& mid.in_play_cards() == before.in_play_cards()
                &&& mid.discard_cards() == before.discard_cards()
                &&& #[trigger] Self::effect_outcome(
                    mid,
                    end,
                    ev_before,
                    ev_after,
                    played_card(before.hand_cards(), name).effect,
                )
                &&& after.deck_cards() == end.deck_cards()
                &&& after.hand_cards() == end.hand_cards()
                &&& after.discard_cards() == end.discard_cards()
            }
    }

    pub fn new(shuffler: S) -> (r: PlayArea<S>)
        ensures
            r.deck_cards() == Seq::<Card>::empty(),
            r.hand_cards() == Seq::<Card>::empty(),
            r.in_play_cards() == Seq::<Card>::empty(),
            r.discard_cards() == Seq::<Card>::empty(),
            r.shuffler() == shuffler,
    {
        PlayArea {
            deck: CardPile::with_initial_capacity(20),
            hand: CardPile::with_initial_capacity(5),
            in_play: Vec::new(),
            discard: CardPile::with_initial_capacity(20),
            shuffler,
        }
    }

    /// Draws `n` cards into the hand. The deck is drawn first; when it runs
    /// out the discard pile is shuffled once into a new deck and the rest is
    /// drawn from it, as far as it goes.
    pub fn draw_n<L: GameLogInner>(&mut self, n: usize, log: &mut GameLog<L>)
        ensures
            Self::draw_outcome(*old(self), *final(self), n as int),
            final(log).events() == old(log).events() + draw_events(
                n as int,
                old(self).deck_cards().len() as int,
                old(self).discard_cards().len() as int,
            ),
    {
        let ghost d = self.deck@;
        let ghost h = self.hand@;
        let ghost x = self.discard@;
        let status = self.deck.move_n_to(n, &mut self.hand);
        match status {
            DrawResult::Complete => {
                log.record(GameEvent::DrawCards(n));
                proof {
                    assert(d =~= after_taking(d, n as int) + top_cards(d, n as int));
                    assert(top_cards(d, n as int).len() == n);
                    assert(n <= d.len());
                    assert(self.hand@.len() == h.len() + n);
                    assert(self.owned() =~= old(self).owned());
                    assert(self.hand@.subrange(0, h.len() as int) =~= h);
                    assert(log.events() =~= old(log).events() + draw_events(n as int, d.len() as int, x.len() as int));
                }
            },
            DrawResult::Partial(remaining) => {
                log.record(GameEvent::DrawCards(n - remaining));
                // a partial move leaves the deck empty
                assert(self.deck@.len() == 0);
                log.record(GameEvent::Shuffle);
                self.shuffler.shuffle(&mut self.discard);
                let ghost p = self.discard@;
                self.discard.move_all_to(&mut self.deck);
                let drawn = if remaining <= self.deck.len() {
                    remaining
                } else {
                    self.deck.len()
                };
                log.record(GameEvent::DrawCards(drawn));
                self.deck.move_up_to_n_to(remaining, &mut self.hand);
                proof {
                    assert(top_cards(d, n as int) =~= d);
                    assert(self.deck@ =~= after_taking(p, remaining as int));
                    assert(p =~= after_taking(p, remaining as int) + top_cards(p, remaining as int));
                    assert(self.hand@ =~= h + d + top_cards(p, remaining as int));
                    assert(Seq::<Card>::empty().to_multiset() =~= Multiset::<Card>::empty());
                    assert(p.to_multiset() == x.to_multiset());
                    assert(p.len() == p.to_multiset().len());
                    assert(x.len() == x.to_multiset().len());
                    assert(p.len() == x.len());
                    assert(remaining == n - d.len());
                    assert(p.to_multiset() =~= after_taking(p, remaining as int).to_multiset().add(
                        top_cards(p, remaining as int).to_multiset()));
                    assert(self.owned() =~= old(self).owned());
                    assert((h + d + top_cards(p, remaining as int)).subrange(0, h.len() as int) =~= h);
                    assert(top_cards(p, n - d.len()) == top_cards(p, remaining as int));
                    assert(self.deck@ == after_taking(p, n - d.len()));
                    assert(self.hand@ == h + d + top_cards(p, n - d.len()));
                    assert(Self::draw_outcome(*old(self), *self, n as int));
                    assert(log.events() =~= old(log).events() + draw_events(n as int, d.len() as int, x.len() as int));
                }
            },
        }
    }

    /// Draws the standard hand of five cards.
    pub fn draw_hand<L: GameLogInner>(&mut self, log: &mut GameLog<L>)
        ensures
            Self::draw_outcome(*old(self), *final(self), 5),
            final(log).events() == old(log).events() + draw_events(
                5,
                old(self).deck_cards().len() as int,
                old(self).discard_cards().len() as int,
            ),
    {
        self.draw_n(5, log)
    }
    /// Applies an effect: counters grow by what it grants and its draws are
    /// made in order, each one seeing the zones the previous ones left.
    fn resolve_effect<L: GameLogInner>(
        &mut self,
        effect: &CardEffect,
        counters: &mut PlayerCounters,
        log: &mut GameLog<L>,
    )
        requires
            old(counters).actions + effect_actions(*effect) <= u8::MAX,
            old(counters).coins + effect_coins(*effect) <= u8::MAX,
        ensures
            final(counters).actions == old(counters).actions + effect_actions(*effect),
            final(counters).coins == old(counters).coins + effect_coins(*effect),
            final(counters).buys == old(counters).buys,
            final(self).owned() == old(self).owned(),
            final(self).in_play_cards() == old(self).in_play_cards(),
            final(self).hand_cards().len() == old(self).hand_cards().len() + drawable(
                effect_draws(*effect),
                old(self).available(),
            ),
            final(self).available() == old(self).available() - drawable(
                effect_draws(*effect),
                old(self).available(),
            ),
            final(self).hand_cards().subrange(0, old(self).hand_cards().len() as int)
                == old(self).hand_cards(),
            Self::effect_outcome(*old(self), *final(self), old(log).events(), final(log).events(), *effect),
        decreases effect,
    {
        match effect {
            CardEffect::Nothing => {
                proof {
                    lemma_no_draws(*self, log.events());
                }
            },
            CardEffect::Sequence(s) => {
                let ghost a0 = counters.actions;
                let ghost c0 = counters.coins;
                let ghost h0 = self.hand@;
                let ghost avail0 = self.available();
                let ghost owned0 = self.owned();
                let ghost start = *self;
                let ghost ev0 = log.events();
                let mut i: usize = 0;
                proof {
                    lemma_seq_totals_nonneg(s@);
                    assert(s@.subrange(0, 0) =~= Seq::<CardEffect>::empty());
                    lemma_no_draws(start, ev0);
                    assert(effects_draw_list(s@.subrange(0, 0)) =~= Seq::<int>::empty());
                    assert(self.hand@.subrange(0, h0.len() as int) =~= h0);
                }
                while i < s.len()
                    invariant
                        *effect == CardEffect::Sequence(*s),
                        i <= s@.len(),
                        a0 + effects_actions(s@) <= u8::MAX,
                        c0 + effects_coins(s@) <= u8::MAX,
                        avail0 >= 0,
                        counters.actions == a0 + effects_actions(s@.subrange(0, i as int)),
                        counters.coins == c0 + effects_coins(s@.subrange(0, i as int)),
                        counters.buys == old(counters).buys,
                        effects_draws(s@.subrange(0, i as int)) >= 0,
                        self.owned() == owned0,
                        self.in_play_cards() == old(self).in_play_cards(),
                        self.hand_cards().len() == h0.len() + drawable(
                            effects_draws(s@.subrange(0, i as int)),
                            avail0,
                        ),
                        self.available() == avail0 - drawable(
                            effects_draws(s@.subrange(0, i as int)),
                            avail0,
                        ),
                        self.hand_cards().subrange(0, h0.len() as int) == h0,
                        start == *old(self),
                        ev0 == old(log).events(),
                        Self::draws_outcome(start, *self, ev0, log.events(), effects_draw_list(s@.subrange(0, i as int))),
                    decreases s@.len() - i,
                {
                    proof {
                        lemma_effects_prefix(s@, i as int);
                        lemma_totals_nonneg(s@[i as int]);
                    }
                    let ghost before = self.hand@;
                    let ghost mid = *self;
                    let ghost ev_mid = log.events();
                    proof {
                        let v = *s;
                        assert(*effect == CardEffect::Sequence(v));
                        assert(i < v@.len());
                        assert(decreases_to!(*effect => (*effect)->Sequence_0));
                        assert((*effect)->Sequence_0 == v);
                        assert(decreases_to!(v => v@));
                        assert(decreases_to!(v@ => v@[i as int]));
                        assert(decreases_to!(*effect => v@[i as int]));
                    }
                    self.resolve_effect(&s[i], counters, log);
                    proof {
                        assert(self.hand@.subrange(0, h0.len() as int) =~= before.subrange(
                            0,
                            h0.len() as int,
                        ));
                        let t = s@.subrange(0, i + 1);
                        assert(t.drop_last() =~= s@.subrange(0, i as int));
                        assert(t.last() == s@[i as int]);
                        assert(effects_draw_list(t) == effects_draw_list(s@.subrange(0, i as int))
                            + effect_draw_list(s@[i as int]));
                        lemma_draws_concat(
                            start,
                            mid,
                            *self,
                            ev0,
                            ev_mid,
                            log.events(),
                            effects_draw_list(s@.subrange(0, i as int)),
                            effect_draw_list(s@[i as int]),
                        );
                    }
                    i += 1;
                }
                proof {
                    assert(s@.subrange(0, i as int) =~= s@);
                }
            },
            CardEffect::AddActions(a) => {
                counters.actions = counters.actions + *a;
                proof {
                    assert(self.hand@.subrange(0, self.hand@.len() as int) =~= self.hand@);
                    lemma_no_draws(*self, log.events());
                }
            },
            CardEffect::AddCoins(c) => {
                counters.coins = counters.coins + *c;
                proof {
                    assert(self.hand@.subrange(0, self.hand@.len() as int) =~= self.hand@);
                    lemma_no_draws(*self, log.events());
                }
            },
            CardEffect::DrawCards(n) => {
                let ghost before = *self;
                let ghost ev_before = log.events();
                self.draw_n(*n as usize, log);
                proof {
                    lemma_one_draw(before, *self, ev_before, log.events(), *n as int);
                }
            },
        }
    }

    /// Moves the first card of the hand named `name` into play and applies
    /// its effect. The last card of the hand takes its place.
    pub fn play_card<L: GameLogInner>(
        &mut self,
        name: CardName,
        counters: &mut PlayerCounters,
        log: &mut GameLog<L>,
    )
        requires
            first_named(old(self).hand_cards(), name) >= 0,
            old(counters).actions + effect_actions(
                played_card(old(self).hand_cards(), name).effect,
            ) <= u8::MAX,
            old(counters).coins + effect_coins(played_card(old(self).hand_cards(), name).effect)
                <= u8::MAX,
        ensures
            final(counters).actions == old(counters).actions + effect_actions(
                played_card(old(self).hand_cards(), name).effect,
            ),
            final(counters).coins == old(counters).coins + effect_coins(
                played_card(old(self).hand_cards(), name).effect,
            ),
            final(counters).buys == old(counters).buys,
            final(self).owned() == old(self).owned(),
            final(self).in_play_cards() == old(self).in_play_cards().push(
                played_card(old(self).hand_cards(), name),
            ),
            final(self).hand_cards().len() == old(self).hand_cards().len() - 1 + drawable(
                effect_draws(played_card(old(self).hand_cards(), name).effect),
                old(self).available(),
            ),
            final(self).available() == old(self).available() - drawable(
                effect_draws(played_card(old(self).hand_cards(), name).effect),
                old(self).available(),
            ),
            final(self).hand_cards().subrange(0, old(self).hand_cards().len() - 1)
                == swap_removed(old(self).hand_cards(), first_named(old(self).hand_cards(), name)),
            Self::play_outcome(*old(self), *final(self), old(log).events(), final(log).events(), name),
    {
        let ghost h = self.hand@;
        proof {
            lemma_first_named(h, name);
        }
        let mut pos: usize = 0;
        while pos < self.hand.len() && self.hand.temp_iter()[pos].name != name
            invariant
                self.hand@ == h,
                pos <= h.len(),
                forall|j: int| 0 <= j < pos ==> h[j].name != name,
            decreases h.len() - pos,
        {
            pos += 1;
        }
        assert(pos as int == first_named(h, name));
        let card = self.hand.temp_internal_vec().swap_remove(pos);
        proof {
            lemma_swap_removed_multiset(h, pos as int);
            assert(self.owned().insert(card) =~= old(self).owned());
        }
        let ghost mid = self.owned();
        let ghost mid_zones = *self;
        let ghost ev_mid = log.events();
        self.resolve_effect(&card.effect, counters, log);
        let ghost end = *self;
        let ghost ip = self.in_play@;
        self.in_play.push(card);
        proof {
            assert(self.in_play@.to_multiset() =~= ip.to_multiset().insert(card));
            assert(self.owned() =~= mid.insert(card));
            assert(Self::effect_outcome(mid_zones, end, ev_mid, log.events(), card.effect));
            assert(Self::play_outcome(*old(self), *self, old(log).events(), log.events(), name));
        }
    }

    /// Whether the hand holds a card named `name` whose effect, played now,
    /// keeps both counters within range.
    pub fn can_play(&self, name: CardName, counters: &PlayerCounters) -> (r: bool)
        ensures
            r == (first_named(self.hand_cards(), name) >= 0 && counters.actions + effect_actions(
                played_card(self.hand_cards(), name).effect,
            ) <= u8::MAX && counters.coins + effect_coins(
                played_card(self.hand_cards(), name).effect,
            ) <= u8::MAX),
    {
        let ghost h = self.hand@;
        proof {
            lemma_first_named(h, name);
        }
        let cards = self.hand.temp_iter();
        let mut pos: usize = 0;
        while pos < cards.len() && cards[pos].name != name
            invariant
                cards@ == h,
                pos <= h.len(),
                forall|j: int| 0 <= j < pos ==> h[j].name != name,
            decreases h.len() - pos,
        {
            pos += 1;
        }
        if pos == cards.len() {
            return false;
        }
        assert(pos as int == first_named(h, name));
        room_after(&cards[pos].effect, u8::MAX - counters.actions, u8::MAX - counters.coins).is_some()
    }

    /// Names of the treasures in hand, in hand order.
    pub fn treasure_names(&self) -> (r: Vec<CardName>)
        ensures
            r@ == treasure_names_of(self.hand_cards()),
    {
        let cards = self.hand.temp_iter();
        let ghost h = cards@;
        let mut r: Vec<CardName> = Vec::new();
        let mut i: usize = 0;
        while i < cards.len()
            invariant
                cards@ == h,
                i <= h.len(),
                r@ == treasure_names_of(h.subrange(0, i as int)),
            decreases h.len() - i,
        {
            proof {
                assert(h.subrange(0, i + 1).drop_last() =~= h.subrange(0, i as int));
            }
            if cards[i].has_type(CardTypes::TREASURE) {
                r.push(cards[i].name);
            }
            i += 1;
        }
        proof {
            assert(h.subrange(0, i as int) =~= h);
        }
        r
    }

    /// Puts the whole hand on the discard pile.
    pub fn discard_hand(&mut self)
        ensures
            Self::discard_hand_outcome(*old(self), *final(self)),
            final(self).owned() == old(self).owned(),
    {
        self.hand.move_all_to(&mut self.discard);
        proof {
            assert(self.owned() =~= old(self).owned());
        }
    }

    /// Puts every card played this turn on the discard pile.
    pub fn discard_in_play(&mut self)
        ensures
            Self::discard_in_play_outcome(*old(self), *final(self)),
            final(self).owned() == old(self).owned(),
    {
        self.discard.add_range(&mut self.in_play);
        proof {
            assert(self.owned() =~= old(self).owned());
        }
    }

    /// Gains `cards` onto the discard pile, leaving `cards` empty.
    pub fn gain_cards_to_discard_pile(&mut self, cards: &mut Vec<Card>)
        ensures
            final(cards)@ == Seq::<Card>::empty(),
            Self::gain_outcome(*old(self), *final(self), old(cards)@),
            final(self).owned() == old(self).owned().add(old(cards)@.to_multiset()),
    {
        self.discard.add_range(cards);
        proof {
            assert(self.owned() =~= old(self).owned().add(old(cards)@.to_multiset()));
        }
    }

    /// Gains one card onto the discard pile.
    pub fn gain_card_to_discard_pile(&mut self, card: Card)
        ensures
            Self::gain_outcome(*old(self), *final(self), seq![card]),
            final(self).owned() == old(self).owned().insert(card),
    {
        self.discard.push(card);
        proof {
            assert(old(self).discard@.push(card) =~= old(self).discard@ + seq![card]);
        }
        proof {
            assert(self.owned() =~= old(self).owned().insert(card));
        }
    }

    pub fn deck_len(&self) -> (r: usize)
        ensures
            r == self.deck_cards().len(),
    {
        self.deck.len()
    }

    pub fn discard_len(&self) -> (r: usize)
        ensures
            r == self.discard_cards().len(),
    {
        self.discard.len()
    }

    pub fn in_play(&self) -> (r: &[Card])
        ensures
            r@ == self.in_play_cards(),
    {
        self.in_play.as_slice()
    }

    /// The hand, in order.
    pub fn inspect_hand(&self) -> (r: &[Card])
        ensures
            r@ == self.hand_cards(),
    {
        self.hand.temp_iter()
    }

    /// Empties the deck, the hand and the discard pile into one collection,
    /// in that order. Cards in play stay where they are.
    pub fn take_all_cards(&mut self) -> (r: Vec<Card>)
        ensures
            r@ == old(self).deck_cards() + old(self).hand_cards() + old(self).discard_cards(),
            final(self).deck_cards() == Seq::<Card>::empty(),
            final(self).hand_cards() == Seq::<Card>::empty(),
            final(self).discard_cards() == Seq::<Card>::empty(),
            final(self).in_play_cards() == old(self).in_play_cards(),
    {
        let mut res = self.deck.take_all();
        res.append(self.hand.temp_internal_vec());
        res.append(self.discard.temp_internal_vec());
        res
    }
}

/// When the deck and the discard pile hold at least `n` cards, a draw of
/// `n` puts exactly `n` more cards in hand, however they are split between
/// the deck and the reshuffled discard pile.
pub proof fn draw_complete_under_abundance<S: Shuffler>(before: PlayArea<S>, after: PlayArea<S>, n: int)
    requires
        PlayArea::draw_outcome(before, after, n),
        before.available() >= n,
    ensures
        after.hand_cards().len() == before.hand_cards().len() + n,
{
}

/// When the deck and the discard pile hold `m` cards, fewer than `n`, a
/// draw of `n` puts exactly those `m` cards in hand and leaves the deck and
/// the discard pile empty.
pub proof fn draw_under_scarcity<S: Shuffler>(before: PlayArea<S>, after: PlayArea<S>, n: int)
    requires
        PlayArea::draw_outcome(before, after, n),
        before.available() < n,
    ensures
        after.hand_cards().len() == before.hand_cards().len() + before.available(),
        after.deck_cards().len() == 0,
        after.discard_cards().len() == 0,
{
}

/// A draw shuffles exactly once when the deck alone holds fewer cards than
/// asked for, however many that is, and not at all otherwise.
pub proof fn reshuffle_once_per_draw(n: int, deck_len: int, discard_len: int)
    requires
        0 <= deck_len,
        0 <= n,
    ensures
        shuffle_count(draw_events(n, deck_len, discard_len)) == if n > deck_len {
            1nat
        } else {
            0nat
        },
{
    let e = draw_events(n, deck_len, discard_len);
    let none = Seq::<GameEvent>::empty();
    assert(shuffle_count(none) == 0);
    if n > deck_len {
        let e1 = e.drop_last().drop_last();
        assert(e1.drop_last() =~= none);
        assert(e1.last() != GameEvent::Shuffle);
        assert(shuffle_count(e1) == 0);
        assert(e.drop_last().last() == GameEvent::Shuffle);
        assert(shuffle_count(e.drop_last()) == 1);
        assert(e.last() != GameEvent::Shuffle);
    } else {
        assert(e.drop_last() =~= none);
        assert(e.last() != GameEvent::Shuffle);
    }
}

proof fn lemma_no_draws<S: Shuffler>(a: PlayArea<S>, ev: Seq<GameEvent>)
    ensures
        PlayArea::draws_outcome(a, a, ev, ev, Seq::empty()),
{
    let states = seq![a];
    let evs = seq![ev];
    assert(PlayArea::draw_chain(states, evs, Seq::empty()));
}

proof fn lemma_one_draw<S: Shuffler>(
    a: PlayArea<S>,
    b: PlayArea<S>,
    ev_a: Seq<GameEvent>,
    ev_b: Seq<GameEvent>,
    k: int,
)
    requires
        PlayArea::draw_outcome(a, b, k),
        ev_b == ev_a + draw_events(k, a.deck_cards().len() as int, a.discard_cards().len() as int),
    ensures
        PlayArea::draws_outcome(a, b, ev_a, ev_b, seq![k]),
{
    let states = seq![a, b];
    let evs = seq![ev_a, ev_b];
    let ks = seq![k];
    assert(ks[0] == k);
    assert(PlayArea::draw_chain(states, evs, ks));
}

/// Two runs of draws, one after the other, are one run.
proof fn lemma_draws_concat<S: Shuffler>(
    a: PlayArea<S>,
    b: PlayArea<S>,
    c: PlayArea<S>,
    ev_a: Seq<GameEvent>,
    ev_b: Seq<GameEvent>,
    ev_c: Seq<GameEvent>,
    k1: Seq<int>,
    k2: Seq<int>,
)
    requires
        PlayArea::draws_outcome(a, b, ev_a, ev_b, k1),
        PlayArea::draws_outcome(b, c, ev_b, ev_c, k2),
    ensures
        PlayArea::draws_outcome(a, c, ev_a, ev_c, k1 + k2),
{
    let (s1, e1) = choose|states: Seq<PlayArea<S>>, evs: Seq<Seq<GameEvent>>|
        #[trigger] PlayArea::draw_chain(states, evs, k1) && states[0] == a && states.last() == b
            && evs[0] == ev_a && evs.last() == ev_b;
    let (s2, e2) = choose|states: Seq<PlayArea<S>>, evs: Seq<Seq<GameEvent>>|
        #[trigger] PlayArea::draw_chain(states, evs, k2) && states[0] == b && states.last() == c
            && evs[0] == ev_b && evs.last() == ev_c;
    let ks = k1 + k2;
    let st = s1 + s2.drop_first();
    let ev = e1 + e2.drop_first();
    let n1 = k1.len() as int;
    assert forall|i: int|
        #![trigger ks[i]]
        0 <= i < ks.len() implies PlayArea::draw_outcome(st[i], st[i + 1], ks[i]) && ev[i + 1] == ev[i]
            + draw_events(ks[i], st[i].deck_cards().len() as int, st[i].discard_cards().len() as int) by {
        if i < n1 {
            assert(ks[i] == k1[i]);
            assert(st[i] == s1[i]);
            assert(ev[i] == e1[i]);
            if i + 1 < n1 + 1 {
                assert(st[i + 1] == s1[i + 1]);
                assert(ev[i + 1] == e1[i + 1]);
            }
        } else {
            let j = i - n1;
            assert(ks[i] == k2[j]);
            if j == 0 {
                assert(st[i] == s1[n1]);
                assert(s1[n1] == s2[0]);
                assert(ev[i] == e1[n1]);
                assert(e1[n1] == e2[0]);
            } else {
                assert(st[i] == s2[j]);
                assert(ev[i] == e2[j]);
            }
            assert(st[i + 1] == s2[j + 1]);
            assert(ev[i + 1] == e2[j + 1]);
        }
    }
    assert(PlayArea::draw_chain(st, ev, ks));
    if k2.len() == 0 {
        assert(st.last() == s1.last());
        assert(ev.last() == e1.last());
        assert(s2.len() == 1 && s2[0] == c);
        assert(e2.len() == 1 && e2[0] == ev_c);
    } else {
        assert(st.last() == s2.last());
        assert(ev.last() == e2.last());
    }
}

/// Playing a card named `name`, when every card of that name in hand grants
/// two actions and then draws one, and the deck is not empty: the effect
/// grants two actions and no coins, the deck's top card replaces the played
/// card in the hand, the discard pile is untouched, and the card is in play.
pub proof fn play_actions_then_draw<S: Shuffler>(
    before: PlayArea<S>,
    after: PlayArea<S>,
    ev_before: Seq<GameEvent>,
    ev_after: Seq<GameEvent>,
    name: CardName,
)
    requires
        first_named(before.hand_cards(), name) >= 0,
        forall|i: int|
            0 <= i < before.hand_cards().len() && (#[trigger] before.hand_cards()[i]).name == name
                ==> (before.hand_cards()[i].effect matches CardEffect::Sequence(v) && v@ == seq![
                CardEffect::AddActions(2),
                CardEffect::DrawCards(1),
            ]),
        before.deck_cards().len() > 0,
        PlayArea::play_outcome(before, after, ev_before, ev_after, name),
    ensures
        effect_actions(played_card(before.hand_cards(), name).effect) == 2,
        effect_coins(played_card(before.hand_cards(), name).effect) == 0,
        after.hand_cards().len() == before.hand_cards().len(),
        after.hand_cards().last() == before.deck_cards().last(),
        after.deck_cards() == before.deck_cards().drop_last(),
        after.discard_cards() == before.discard_cards(),
        after.in_play_cards() == before.in_play_cards().push(played_card(before.hand_cards(), name)),
{
    let h = before.hand_cards();
    lemma_first_named(h, name);
    let f = first_named(h, name);
    let c = played_card(h, name);
    assert(h[f].name == name);
    let v = c.effect->Sequence_0;
    let s = seq![CardEffect::AddActions(2), CardEffect::DrawCards(1)];
    assert(v@ == s);
    let one = s.drop_last();
    assert(one =~= seq![CardEffect::AddActions(2)]);
    assert(one.drop_last() =~= Seq::<CardEffect>::empty());
    assert(one.last() == CardEffect::AddActions(2));
    assert(s.last() == CardEffect::DrawCards(1));
    assert(effects_actions(one.drop_last()) == 0);
    assert(effects_coins(one.drop_last()) == 0);
    assert(effect_actions(CardEffect::AddActions(2)) == 2);
    assert(effect_coins(CardEffect::AddActions(2)) == 0);
    assert(effect_actions(CardEffect::DrawCards(1)) == 0);
    assert(effect_coins(CardEffect::DrawCards(1)) == 0);
    assert(effects_actions(one) == 2);
    assert(effects_coins(one) == 0);
    assert(effects_actions(s) == 2);
    assert(effects_coins(s) == 0);
    assert(effects_draw_list(one.drop_last()) =~= Seq::<int>::empty());
    assert(effect_draw_list(CardEffect::AddActions(2)) =~= Seq::<int>::empty());
    assert(effects_draw_list(one) =~= Seq::<int>::empty());
    assert(effect_draw_list(CardEffect::DrawCards(1)) =~= seq![1int]);
    assert(effects_draw_list(s) =~= seq![1int]);
    assert(effect_draw_list(c.effect) =~= seq![1int]);
    let (mid, end) = choose|mid: PlayArea<S>, end: PlayArea<S>|
        {
            &&& mid.deck_cards() == before.deck_cards()
            &&& mid.hand_cards() == swap_removed(h, f)
            &&& mid.in_play_cards() == before.in_play_cards()
            &&& mid.discard_cards() == before.discard_cards()
            &&& #[trigger] PlayArea::effect_outcome(mid, end, ev_before, ev_after, c.effect)
            &&& after.deck_cards() == end.deck_cards()
            &&& after.hand_cards() == end.hand_cards()
            &&& after.discard_cards() == end.discard_cards()
        };
    let ks = seq![1int];
    let (states, evs) = choose|states: Seq<PlayArea<S>>, evs: Seq<Seq<GameEvent>>|
        #[trigger] PlayArea::draw_chain(states, evs, ks) && states[0] == mid && states.last() == end
            && evs[0] == ev_before && evs.last() == ev_after;
    assert(ks[0] == 1);
    assert(PlayArea::draw_outcome(states[0], states[1], 1));
    assert(states[1] == end);
    let d = before.deck_cards();
    assert(after_taking(d, 1) =~= d.drop_last());
    assert(top_cards(d, 1) =~= seq![d.last()]);
}

/// Every card gained over a run of steps.
pub open spec fn all_gained(gained: Seq<Seq<Card>>) -> Multiset<Card>
    decreases gained.len(),
{
    if gained.len() == 0 {
        Multiset::empty()
    } else {
        all_gained(gained.drop_last()).add(gained.last().to_multiset())
    }
}

proof fn lemma_zone_step<S: Shuffler>(before: PlayArea<S>, after: PlayArea<S>, gained: Seq<Card>)
    requires
        PlayArea::zone_step(before, after, gained),
    ensures
        after.owned() == before.owned().add(gained.to_multiset()),
{
    if gained.len() == 0 {
        assert(gained =~= Seq::<Card>::empty());
        assert(gained.to_multiset() =~= Multiset::<Card>::empty());
    }
    if PlayArea::gain_outcome(before, after, gained) {
        assert(after.owned() =~= before.owned().add(gained.to_multiset()));
    } else if PlayArea::discard_hand_outcome(before, after) {
        assert(Seq::<Card>::empty().to_multiset() =~= Multiset::<Card>::empty());
        assert(after.owned() =~= before.owned());
    } else if PlayArea::discard_in_play_outcome(before, after) {
        assert(Seq::<Card>::empty().to_multiset() =~= Multiset::<Card>::empty());
        assert(after.owned() =~= before.owned());
    } else {
        let n = choose|n: int| PlayArea::draw_outcome(before, after, n);
        assert(after.owned() =~= before.owned().add(gained.to_multiset()));
    }
}

/// No draw, discard or gain makes or loses a card: after any run of them,
/// a player owns, across deck, hand, play and discard pile, exactly the
/// cards it started with and those it gained.
pub proof fn cards_conserved<S: Shuffler>(zones: Seq<PlayArea<S>>, gained: Seq<Seq<Card>>)
    requires
        zones.len() == gained.len() + 1,
        forall|i: int|
            0 <= i < gained.len() ==> PlayArea::zone_step(zones[i], #[trigger] zones[i + 1], gained[i]),
    ensures
        zones.last().owned() == zones[0].owned().add(all_gained(gained)),
    decreases gained.len(),
{
    if gained.len() == 0 {
        assert(zones[0].owned().add(Multiset::empty()) =~= zones[0].owned());
    } else {
        let k = gained.len() - 1;
        let zs = zones.drop_last();
        assert forall|i: int|
            0 <= i < gained.drop_last().len() implies PlayArea::zone_step(zs[i], #[trigger] zs[i + 1], gained.drop_last()[i]) by {
            assert(zs[i] == zones[i] && zs[i + 1] == zones[i + 1]);
            assert(PlayArea::zone_step(zones[i], zones[i + 1], gained[i]));
        }
        cards_conserved(zs, gained.drop_last());
        assert(PlayArea::zone_step(zones[k], zones[k + 1], gained[k]));
        lemma_zone_step(zones[k], zones[k + 1], gained[k]);
        assert(zones.last().owned() =~= zones[0].owned().add(all_gained(gained)));
    }
}

/// After the hand is discarded, the hand `inspect_hand` shows is empty.
pub proof fn discarded_hand_is_empty<S: Shuffler>(before: PlayArea<S>, after: PlayArea<S>)
    requires
        PlayArea::discard_hand_outcome(before, after),
    ensures
        after.hand_cards().len() == 0,
{
}

impl PlayArea<NoShuffle> {
    /// A play area holding only `hand`, which never shuffles.
    pub fn test_from_hand(hand: Vec<Card>) -> (r: PlayArea<NoShuffle>)
        ensures
            r.hand_cards() == hand@,
            r.deck_cards() == Seq::<Card>::empty(),
            r.in_play_cards() == Seq::<Card>::empty(),
            r.discard_cards() == Seq::<Card>::empty(),
    {
        PlayArea {
            deck: CardPile::new(),
            hand: CardPile::from_cards(hand),
            in_play: Vec::new(),
            discard: CardPile::new(),
            shuffler: NoShuffle,
        }
    }
}

} // verus!
