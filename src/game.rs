use vstd::multiset::Multiset;
use vstd::prelude::*;

use crate::card_pile::{after_taking, top_cards};
use crate::cards::{is_catalog_card, Card, CardName, CardNames, Cards, NAME_COUNT};
use crate::logs::{GameEvent, GameLog, GameLogInner};
use crate::play_area::{drawable, first_named, played_card, treasure_names_of, PlayArea};
use crate::player_counters::PlayerCounters;
use crate::players::{Agent, BuyChoice, PlayChoice};
use crate::shuffler::Shuffler;
use crate::effects::{effect_actions, effect_coins};
use crate::supply::{
    buyable_names, ending_pile_empty, first_topped, lemma_buyable_topped, lemma_first_topped, PileView, Supply,
};

verus! {

/// The victory points of `s`, summed.
pub open spec fn vp_total(s: Seq<Card>) -> int
    decreases s.len(),
{
    if s.len() == 0 {
        0
    } else {
        vp_total(s.drop_last()) + s.last().vp_value
    }
}

/// `x`, or the largest `u64` when `x` is larger.
pub open spec fn capped(x: int) -> int {
    if x > u64::MAX {
        u64::MAX as int
    } else {
        x
    }
}

/// The termination rule: the turn counter has reached the limit, or the
/// game-ending pile of the supply is empty.
pub open spec fn ended(turn_counter: int, max_turns: int, piles: Seq<PileView>) -> bool {
    turn_counter >= max_turns || ending_pile_empty(piles)
}

/// A pile of `count` fresh cards named `name`.
pub open spec fn fresh_pile(p: PileView, name: CardName, count: int) -> bool {
    &&& p.0 == name
    &&& p.1.len() == count
    &&& forall|i: int| 0 <= i < p.1.len() ==> (#[trigger] p.1[i]).name == name && is_catalog_card(p.1[i])
}

/// What a turn trades: either nothing changes hands, or the top card of one
/// supply pile joins the player's cards.
pub open spec fn turn_trade(
    piles_before: Seq<PileView>,
    piles_after: Seq<PileView>,
    owned_before: Multiset<Card>,
    owned_after: Multiset<Card>,
) -> bool {
    ||| piles_after == piles_before && owned_after == owned_before
    ||| exists|k: int|
        0 <= k < piles_before.len() && piles_before[k].1.len() > 0 && piles_after == piles_before.update(
            k,
            (piles_before[k].0, piles_before[k].1.drop_last()),
        ) && owned_after == owned_before.insert(#[trigger] piles_before[k].1.last())
}

/// The supply piles keep their names and order, and none of them grows.
pub open spec fn piles_shrunk(before: Seq<PileView>, after: Seq<PileView>) -> bool {
    &&& after.len() == before.len()
    &&& forall|k: int|
        0 <= k < before.len() ==> (#[trigger] after[k]).0 == before[k].0 && after[k].1.len()
            <= before[k].1.len()
}

/// One seat at the table: who sits there, their cards and how they decide.
pub struct Seat<A, S> {
    name: String,
    area: PlayArea<S>,
    agent: A,
}

impl<A, S: Shuffler> Seat<A, S> {
    /// The player's name.
    pub closed spec fn seat_name(&self) -> Seq<char> {
        self.name@
    }

    /// The player's zones.
    pub closed spec fn area(&self) -> PlayArea<S> {
        self.area
    }

    /// How the player decides.
    pub closed spec fn agent(&self) -> A {
        self.agent
    }
}

/// Every card in the supply piles `ps`.
pub open spec fn pile_cards(ps: Seq<PileView>) -> Multiset<Card>
    decreases ps.len(),
{
    if ps.len() == 0 {
        Multiset::empty()
    } else {
        pile_cards(ps.drop_last()).add(ps.last().1.to_multiset())
    }
}

/// Every card the players of `seats` own.
pub open spec fn seats_cards<A, S: Shuffler>(seats: Seq<Seat<A, S>>) -> Multiset<Card>
    decreases seats.len(),
{
    if seats.len() == 0 {
        Multiset::empty()
    } else {
        seats_cards(seats.drop_last()).add(seats.last().area().owned())
    }
}

proof fn lemma_pile_cards_update(ps: Seq<PileView>, k: int, p: PileView)
    requires
        0 <= k < ps.len(),
    ensures
        pile_cards(ps.update(k, p)).add(ps[k].1.to_multiset()) =~= pile_cards(ps).add(p.1.to_multiset()),
    decreases ps.len(),
{
    broadcast use vstd::multiset::group_multiset_axioms;

    let q = ps.update(k, p);
    let l = ps.len() - 1;
    let old_k = ps[k].1.to_multiset();
    let new_k = p.1.to_multiset();
    let lhs = pile_cards(q).add(old_k);
    let rhs = pile_cards(ps).add(new_k);
    assert(pile_cards(q) == pile_cards(q.drop_last()).add(q.last().1.to_multiset()));
    assert(pile_cards(ps) == pile_cards(ps.drop_last()).add(ps.last().1.to_multiset()));
    if k == l {
        assert(q.drop_last() =~= ps.drop_last());
        let d = pile_cards(ps.drop_last());
        assert(lhs == d.add(new_k).add(old_k));
        assert(rhs == d.add(old_k).add(new_k));
        assert forall|c: Card| lhs.count(c) == rhs.count(c) by {}
    } else {
        assert(q.drop_last() =~= ps.drop_last().update(k, p));
        lemma_pile_cards_update(ps.drop_last(), k, p);
        let t = ps.last().1.to_multiset();
        let dq = pile_cards(ps.drop_last().update(k, p));
        let d = pile_cards(ps.drop_last());
        assert(dq.add(old_k) =~= d.add(new_k));
        assert(lhs == dq.add(t).add(old_k));
        assert(rhs == d.add(t).add(new_k));
        assert forall|c: Card| lhs.count(c) == rhs.count(c) by {
            assert(dq.add(old_k).count(c) == d.add(new_k).count(c));
        }
    }
    assert(lhs =~= rhs);
}

proof fn lemma_seats_cards_update<A, S: Shuffler>(seats: Seq<Seat<A, S>>, i: int, x: Seat<A, S>)
    requires
        0 <= i < seats.len(),
    ensures
        seats_cards(seats.update(i, x)).add(seats[i].area().owned()) =~= seats_cards(seats).add(
            x.area().owned(),
        ),
    decreases seats.len(),
{
    broadcast use vstd::multiset::group_multiset_axioms;

    let q = seats.update(i, x);
    let l = seats.len() - 1;
    let old_i = seats[i].area().owned();
    let new_i = x.area().owned();
    let lhs = seats_cards(q).add(old_i);
    let rhs = seats_cards(seats).add(new_i);
    assert(seats_cards(q) == seats_cards(q.drop_last()).add(q.last().area().owned()));
    assert(seats_cards(seats) == seats_cards(seats.drop_last()).add(seats.last().area().owned()));
    if i == l {
        assert(q.drop_last() =~= seats.drop_last());
        let d = seats_cards(seats.drop_last());
        assert(lhs == d.add(new_i).add(old_i));
        assert(rhs == d.add(old_i).add(new_i));
        assert forall|c: Card| lhs.count(c) == rhs.count(c) by {}
    } else {
        assert(q.drop_last() =~= seats.drop_last().update(i, x));
        lemma_seats_cards_update(seats.drop_last(), i, x);
        let t = seats.last().area().owned();
        let dq = seats_cards(seats.drop_last().update(i, x));
        let d = seats_cards(seats.drop_last());
        assert(dq.add(old_i) =~= d.add(new_i));
        assert(lhs == dq.add(t).add(old_i));
        assert(rhs == d.add(t).add(new_i));
        assert forall|c: Card| lhs.count(c) == rhs.count(c) by {
            assert(dq.add(old_i).count(c) == d.add(new_i).count(c));
        }
    }
    assert(lhs =~= rhs);
}

/// Taking up to `n` cards named `name` from the supply: from the first pile
/// topped by that name, or nothing when no pile is; `taken` are the cards.
pub open spec fn take_or_skip(
    ps0: Seq<PileView>,
    ps1: Seq<PileView>,
    name: CardName,
    n: int,
    taken: Seq<Card>,
) -> bool {
    if first_topped(ps0, name) >= 0 {
        let f = first_topped(ps0, name);
        &&& ps1 == ps0.update(f, (ps0[f].0, after_taking(ps0[f].1, n)))
        &&& taken == top_cards(ps0[f].1, n)
    } else {
        ps1 == ps0 && taken == Seq::<Card>::empty()
    }
}

/// Cards taken from the supply leave it and nothing else does.
proof fn lemma_take_conserves(ps0: Seq<PileView>, ps1: Seq<PileView>, name: CardName, n: int, taken: Seq<Card>)
    requires
        n >= 0,
        take_or_skip(ps0, ps1, name, n, taken),
    ensures
        pile_cards(ps1).add(taken.to_multiset()) =~= pile_cards(ps0),
{
    broadcast use vstd::multiset::group_multiset_axioms;
    broadcast use vstd::seq_lib::group_to_multiset_ensures;

    if first_topped(ps0, name) >= 0 {
        lemma_first_topped(ps0, name);
        let f = first_topped(ps0, name);
        let p = ps0[f].1;
        lemma_pile_cards_update(ps0, f, (ps0[f].0, after_taking(p, n)));
        assert(p =~= after_taking(p, n) + top_cards(p, n));
        vstd::seq_lib::lemma_multiset_commutative(after_taking(p, n), top_cards(p, n));
        let lhs = pile_cards(ps1).add(taken.to_multiset());
        assert forall|c: Card| lhs.count(c) == pile_cards(ps0).count(c) by {
            assert(pile_cards(ps1).add(p.to_multiset()).count(c) == pile_cards(ps0).add(
                after_taking(p, n).to_multiset(),
            ).count(c));
        }
    } else {
        assert(taken.to_multiset() =~= Multiset::<Card>::empty());
    }
}

/// Every card in the results `rs`.
pub open spec fn results_cards(rs: Seq<PlayerResult>) -> Multiset<Card>
    decreases rs.len(),
{
    if rs.len() == 0 {
        Multiset::empty()
    } else {
        results_cards(rs.drop_last()).add(rs.last().cards@.to_multiset())
    }
}

/// Whether the first card named `name` in the hand of `z` can be played
/// with the counters at `actions` and `coins` without taking them past
/// their range.
pub open spec fn playable<S: Shuffler>(z: PlayArea<S>, actions: int, coins: int, name: CardName) -> bool {
    &&& first_named(z.hand_cards(), name) >= 0
    &&& actions + effect_actions(played_card(z.hand_cards(), name).effect) <= u8::MAX
    &&& coins + effect_coins(played_card(z.hand_cards(), name).effect) <= u8::MAX
}

/// One treasure of the list: played when it can be, with its actions and
/// coins added to the counters; left alone when it cannot.
pub open spec fn treasure_step<S: Shuffler>(
    z0: PlayArea<S>,
    z1: PlayArea<S>,
    a0: int,
    a1: int,
    c0: int,
    c1: int,
    name: CardName,
) -> bool {
    if playable(z0, a0, c0, name) {
        &&& exists|e0: Seq<GameEvent>, e1: Seq<GameEvent>| #[trigger] PlayArea::play_outcome(z0, z1, e0, e1, name)
        &&& a1 == a0 + effect_actions(played_card(z0.hand_cards(), name).effect)
        &&& c1 == c0 + effect_coins(played_card(z0.hand_cards(), name).effect)
    } else {
        z1 == z0 && a1 == a0 && c1 == c0
    }
}

/// The treasures `names` played in order: `zs` are the zones before,
/// between and after them, `acts` and `coins` the counters.
pub open spec fn treasure_chain<S: Shuffler>(
    zs: Seq<PlayArea<S>>,
    acts: Seq<int>,
    coins: Seq<int>,
    names: Seq<CardName>,
) -> bool {
    &&& zs.len() == names.len() + 1
    &&& acts.len() == names.len() + 1
    &&& coins.len() == names.len() + 1
    &&& forall|k: int|
        #![trigger names[k]]
        0 <= k < names.len() ==> treasure_step(zs[k], zs[k + 1], acts[k], acts[k + 1], coins[k], coins[k + 1], names[k])
}

/// What a purchase does: nothing for `Pass`; for `Buy(name)` the top card
/// of the first pile topped by `name` leaves the supply and goes onto the
/// discard pile.
pub open spec fn buy_outcome<S: Shuffler>(
    ps0: Seq<PileView>,
    ps1: Seq<PileView>,
    z0: PlayArea<S>,
    z1: PlayArea<S>,
    choice: BuyChoice,
) -> bool {
    match choice {
        BuyChoice::Pass => ps1 == ps0 && z1 == z0,
        BuyChoice::Buy(name) => {
            let f = first_topped(ps0, name);
            &&& f >= 0
            &&& ps1 == ps0.update(f, (ps0[f].0, ps0[f].1.drop_last()))
            &&& PlayArea::gain_outcome(z0, z1, seq![ps0[f].1.last()])
        },
    }
}

/// A turn's trade moves cards between the supply and one player, and
/// keeps every card.
proof fn lemma_trade_conserves<A, S: Shuffler>(
    ps0: Seq<PileView>,
    ps1: Seq<PileView>,
    seats0: Seq<Seat<A, S>>,
    seats1: Seq<Seat<A, S>>,
    i: int,
)
    requires
        0 <= i < seats0.len(),
        seats1.len() == seats0.len(),
        forall|j: int| 0 <= j < seats0.len() && j != i ==> #[trigger] seats1[j] == seats0[j],
        turn_trade(ps0, ps1, seats0[i].area().owned(), seats1[i].area().owned()),
    ensures
        pile_cards(ps1).add(seats_cards(seats1)) =~= pile_cards(ps0).add(seats_cards(seats0)),
{
    broadcast use vstd::multiset::group_multiset_axioms;

    assert(seats1 =~= seats0.update(i, seats1[i]));
    lemma_seats_cards_update(seats0, i, seats1[i]);
    let o0 = seats0[i].area().owned();
    let o1 = seats1[i].area().owned();
    let lhs = pile_cards(ps1).add(seats_cards(seats1));
    let rhs = pile_cards(ps0).add(seats_cards(seats0));
    if ps1 == ps0 && o1 == o0 {
        assert forall|c: Card| lhs.count(c) == rhs.count(c) by {
            assert(seats_cards(seats1).add(o0).count(c) == seats_cards(seats0).add(o1).count(c));
        }
    } else {
        let k = choose|k: int|
            0 <= k < ps0.len() && ps0[k].1.len() > 0 && ps1 == ps0.update(
                k,
                (ps0[k].0, ps0[k].1.drop_last()),
            ) && o1 == o0.insert(#[trigger] ps0[k].1.last());
        let p = ps0[k].1;
        lemma_pile_cards_update(ps0, k, (ps0[k].0, p.drop_last()));
        assert(p =~= p.drop_last().push(p.last()));
        vstd::seq_lib::to_multiset_build(p.drop_last(), p.last());
        assert forall|c: Card| lhs.count(c) == rhs.count(c) by {
            assert(seats_cards(seats1).add(o0).count(c) == seats_cards(seats0).add(o1).count(c));
            assert(pile_cards(ps1).add(p.to_multiset()).count(c) == pile_cards(ps0).add(
                p.drop_last().to_multiset(),
            ).count(c));
        }
    }
    assert(lhs =~= rhs);
}

/// A game in progress: the players in turn order, the supply, the log and
/// the turn counter, which counts rounds.
pub struct Game<A, S, L> {
    players: Vec<Seat<A, S>>,
    supply: Supply,
    log: GameLog<L>,
    turn_counter: u8,
    max_turns: u8,
}

/// One player's final cards and score.
#[derive(Debug)]
pub struct PlayerResult {
    pub name: String,
    pub cards: Vec<Card>,
    pub score: u64,
}

impl PlayerResult {
    pub fn new(name: String, cards: Vec<Card>, score: u64) -> (r: PlayerResult)
        ensures
            r.name == name,
            r.cards == cards,
            r.score == score,
    {
        PlayerResult { name, cards, score }
    }
}

/// The results of every player, in turn order.
#[derive(Debug)]
pub struct PlayerResults(pub Vec<PlayerResult>);

impl<A: Agent, S: Shuffler, L: GameLogInner> Game<A, S, L> {
    pub closed spec fn turn(&self) -> u8 {
        self.turn_counter
    }

    pub closed spec fn turn_limit(&self) -> u8 {
        self.max_turns
    }

    pub open spec fn player_count(&self) -> nat {
        self.seats().len()
    }

    pub closed spec fn supply_piles(&self) -> Seq<PileView> {
        self.supply.piles()
    }

    /// The players, in turn order.
    pub closed spec fn seats(&self) -> Seq<Seat<A, S>> {
        self.players@
    }

    /// The zones of player `i`, in turn order.
    pub open spec fn zones(&self, i: int) -> PlayArea<S> {
        self.seats()[i].area()
    }

    /// Every card in the game: in the supply or owned by a player.
    pub open spec fn all_cards(&self) -> Multiset<Card> {
        pile_cards(self.supply_piles()).add(seats_cards(self.seats()))
    }

    /// One player's turn with what happened in between, `t`: the agent,
    /// offered nothing to play, answers `t.0` and is left as `t.1`; the
    /// treasures of the hand are played in hand order (`t.2` zones, `t.3`
    /// actions, `t.4` coins); the agent, offered exactly the names that
    /// those coins buy, answers `t.5`; the purchase gives zones `t.6`; the
    /// cards in play and then the hand are discarded (`t.7`, `t.8`); and a
    /// hand of five is drawn.
    pub open spec fn turn_steps(
        ps0: Seq<PileView>,
        ps1: Seq<PileView>,
        z0: PlayArea<S>,
        z1: PlayArea<S>,
        a0: A,
        a1: A,
        t: (PlayChoice, A, Seq<PlayArea<S>>, Seq<int>, Seq<int>, BuyChoice, PlayArea<S>, PlayArea<S>, PlayArea<S>),
    ) -> bool {
        &&& a0.play_decision(Seq::empty(), t.0, t.1)
        &&& treasure_chain(t.2, t.3, t.4, treasure_names_of(z0.hand_cards()))
        &&& t.2[0] == z0
        &&& t.3[0] == 1
        &&& t.4[0] == 0
        &&& t.1.buy_decision(buyable_names(ps0, t.4.last()), t.5, a1)
        &&& buy_outcome(ps0, ps1, t.2.last(), t.6, t.5)
        &&& PlayArea::discard_in_play_outcome(t.6, t.7)
        &&& PlayArea::discard_hand_outcome(t.7, t.8)
        &&& PlayArea::draw_outcome(t.8, z1, 5)
    }

    /// One player's turn takes the supply from `ps0` to `ps1`, their zones
    /// from `z0` to `z1` and their agent from `a0` to `a1`.
    pub open spec fn turn_outcome(
        ps0: Seq<PileView>,
        ps1: Seq<PileView>,
        z0: PlayArea<S>,
        z1: PlayArea<S>,
        a0: A,
        a1: A,
    ) -> bool {
        exists|t: (PlayChoice, A, Seq<PlayArea<S>>, Seq<int>, Seq<int>, BuyChoice, PlayArea<S>, PlayArea<S>, PlayArea<S>)|
            #[trigger] Self::turn_steps(ps0, ps1, z0, z1, a0, a1, t)
    }

    /// The results `r` collected from the game `before`, leaving `after`:
    /// one per player in turn order, with the player's name, the cards of
    /// their deck, hand and discard pile sorted by name, and their score;
    /// those three zones are then empty.
    pub open spec fn collected(before: Self, after: Self, r: Seq<PlayerResult>) -> bool {
        &&& r.len() == before.seats().len()
        &&& after.seats().len() == before.seats().len()
        &&& forall|k: int|
            0 <= k < r.len() ==> {
                &&& (#[trigger] r[k]).score == capped(vp_total(r[k].cards@))
                &&& sorted_by_name(r[k].cards@)
                &&& r[k].name@ == before.seats()[k].seat_name()
                &&& r[k].cards@.to_multiset() == (before.zones(k).deck_cards() + before.zones(k).hand_cards()
                    + before.zones(k).discard_cards()).to_multiset()
                &&& after.zones(k).deck_cards().len() == 0
                &&& after.zones(k).hand_cards().len() == 0
                &&& after.zones(k).discard_cards().len() == 0
                &&& after.zones(k).in_play_cards() == before.zones(k).in_play_cards()
            }
    }

    /// Dealing to one player: up to seven Coppers, then up to three Estates,
    /// taken from the supply (`ps0` to `ps2`) and gained, in that order, onto
    /// the discard pile of `z0`; then a hand of five is drawn, giving `z1`.
    pub open spec fn deal_step(ps0: Seq<PileView>, ps2: Seq<PileView>, z0: PlayArea<S>, z1: PlayArea<S>) -> bool {
        exists|ps1: Seq<PileView>, coppers: Seq<Card>, estates: Seq<Card>, m1: PlayArea<S>, m2: PlayArea<S>|
            #![trigger take_or_skip(ps0, ps1, CardName::Copper, 7, coppers), take_or_skip(ps1, ps2, CardName::Estate, 3, estates), PlayArea::gain_outcome(z0, m1, coppers), PlayArea::gain_outcome(m1, m2, estates)]
            {
                &&& take_or_skip(ps0, ps1, CardName::Copper, 7, coppers)
                &&& take_or_skip(ps1, ps2, CardName::Estate, 3, estates)
                &&& PlayArea::gain_outcome(z0, m1, coppers)
                &&& PlayArea::gain_outcome(m1, m2, estates)
                &&& PlayArea::draw_outcome(m2, z1, 5)
            }
    }

    /// Dealing to every player in turn order, the supply going through
    /// `sup[0]`, ..., `sup[n]`.
    pub open spec fn deal_chain(before: Self, after: Self, sup: Seq<Seq<PileView>>) -> bool {
        let n = before.seats().len() as int;
        &&& after.seats().len() == n
        &&& sup.len() == n + 1
        &&& sup[0] == before.supply_piles()
        &&& sup[n] == after.supply_piles()
        &&& forall|j: int|
            #![trigger after.seats()[j]]
            0 <= j < n ==> Self::deal_step(sup[j], sup[j + 1], before.zones(j), after.zones(j))
                && after.seats()[j].seat_name() == before.seats()[j].seat_name()
                && after.seats()[j].agent() == before.seats()[j].agent()
    }

    /// A round played from `before` to `after`: players `0 .. m` took their
    /// turns in order, the supply going through `sup[0]`, ..., `sup[m]`;
    /// after each of them but the last the game had not ended; after a turn
    /// the player has nothing in play and a fresh hand; the players after
    /// `m` are as they were, and the round stopped early only because the
    /// game ended.
    pub open spec fn round_chain(before: Self, after: Self, m: int, sup: Seq<Seq<PileView>>) -> bool {
        let n = before.seats().len();
        &&& after.seats().len() == n
        &&& 0 <= m <= n
        &&& n > 0 ==> m > 0
        &&& sup.len() == m + 1
        &&& sup[0] == before.supply_piles()
        &&& sup[m] == after.supply_piles()
        &&& forall|j: int|
            #![trigger after.seats()[j]]
            0 <= j < m ==> {
                &&& turn_trade(sup[j], sup[j + 1], before.zones(j).owned(), after.zones(j).owned())
                &&& after.zones(j).in_play_cards().len() == 0
                &&& after.zones(j).hand_cards().len() == drawable(5, after.zones(j).owned().len() as int)
                &&& after.seats()[j].seat_name() == before.seats()[j].seat_name()
                &&& Self::turn_outcome(
                    sup[j],
                    sup[j + 1],
                    before.zones(j),
                    after.zones(j),
                    before.seats()[j].agent(),
                    after.seats()[j].agent(),
                )
            }
        &&& forall|j: int| m <= j < n ==> #[trigger] after.seats()[j] == before.seats()[j]
        &&& forall|j: int|
            1 <= j < m ==> !ended(after.turn() as int, after.turn_limit() as int, #[trigger] sup[j])
        &&& m < n ==> ended(after.turn() as int, after.turn_limit() as int, after.supply_piles())
    }

    pub fn new(log: GameLog<L>) -> (r: Self)
        ensures
            r.turn() == 0,
            r.turn_limit() == 100,
            r.player_count() == 0,
            r.supply_piles() == Seq::<PileView>::empty(),
    {
        Game { players: Vec::new(), supply: Supply::new(), log, turn_counter: 0, max_turns: 100 }
    }

    /// Seats a player with no cards yet.
    pub fn add_player(&mut self, name: &str, agent: A, shuffler: S)
        ensures
            final(self).player_count() == old(self).player_count() + 1,
            final(self).seats().drop_last() == old(self).seats(),
            final(self).seats().last().seat_name() == name@,
            final(self).seats().last().agent() == agent,
            final(self).seats().last().area().shuffler() == shuffler,
            final(self).seats().last().area().deck_cards() == Seq::<Card>::empty(),
            final(self).seats().last().area().hand_cards() == Seq::<Card>::empty(),
            final(self).seats().last().area().in_play_cards() == Seq::<Card>::empty(),
            final(self).seats().last().area().discard_cards() == Seq::<Card>::empty(),
            final(self).turn() == old(self).turn(),
            final(self).turn_limit() == old(self).turn_limit(),
            final(self).supply_piles() == old(self).supply_piles(),
    {
        let area = PlayArea::new(shuffler);
        self.players.push(Seat { name: name.to_owned(), area, agent });
        proof {
            assert(self.players@.drop_last() =~= old(self).players@);
        }
    }

    /// The supply the players buy from.
    pub fn supply(&self) -> (r: &Supply)
        ensures
            r.piles() == self.supply_piles(),
    {
        &self.supply
    }

    /// The play area of player `i`, in turn order.
    pub fn play_area(&self, i: usize) -> (r: &PlayArea<S>)
        requires
            i < self.player_count(),
        ensures
            *r == self.zones(i as int),
    {
        &self.players[i].area
    }

    pub fn turn_counter(&self) -> (r: u8)
        ensures
            r == self.turn(),
    {
        self.turn_counter
    }

    /// The log the game writes to.
    pub closed spec fn game_log(&self) -> GameLog<L> {
        self.log
    }

    /// The log the game writes to.
    pub fn log(&self) -> (r: &GameLog<L>)
        ensures
            *r == self.game_log(),
    {
        &self.log
    }

    /// Adds a supply pile of `count` fresh cards named `name`.
    pub fn populate_supply(&mut self, name: CardName, count: u8)
        requires
            count > 0,
        ensures
            final(self).supply_piles().len() == old(self).supply_piles().len() + 1,
            final(self).supply_piles().subrange(0, old(self).supply_piles().len() as int)
                == old(self).supply_piles(),
            fresh_pile(final(self).supply_piles().last(), name, count as int),
            final(self).turn() == old(self).turn(),
            final(self).turn_limit() == old(self).turn_limit(),
            final(self).player_count() == old(self).player_count(),
            final(self).seats() == old(self).seats(),
    {
        let mut cards: Vec<Card> = Vec::new();
        let mut i: u8 = 0;
        while i < count
            invariant
                i <= count,
                cards@.len() == i,
                forall|j: int| 0 <= j < i ==> (#[trigger] cards@[j]).name == name && is_catalog_card(cards@[j]),
            decreases count - i,
        {
            cards.push(Cards::make(name));
            i += 1;
        }
        let ghost c = cards@;
        self.supply.add(cards);
        proof {
            assert(self.supply.piles().subrange(0, old(self).supply.piles().len() as int)
                =~= old(self).supply.piles());
            assert(self.supply.piles().last() == (c.last().name, c));
        }
    }

    /// The basic treasure and victory piles.
    pub fn populate_basic_kingdom(&mut self)
        ensures
            final(self).supply_piles().len() == old(self).supply_piles().len() + 6,
            final(self).supply_piles().subrange(0, old(self).supply_piles().len() as int)
                == old(self).supply_piles(),
            fresh_pile(final(self).supply_piles()[old(self).supply_piles().len() as int], CardName::Copper, 60),
            fresh_pile(final(self).supply_piles()[old(self).supply_piles().len() + 1int], CardName::Silver, 40),
            fresh_pile(final(self).supply_piles()[old(self).supply_piles().len() + 2int], CardName::Gold, 30),
            fresh_pile(final(self).supply_piles()[old(self).supply_piles().len() + 3int], CardName::Estate, 12),
            fresh_pile(final(self).supply_piles()[old(self).supply_piles().len() + 4int], CardName::Duchy, 12),
            fresh_pile(final(self).supply_piles()[old(self).supply_piles().len() + 5int], CardName::Province, 12),
            final(self).turn() == old(self).turn(),
            final(self).turn_limit() == old(self).turn_limit(),
            final(self).player_count() == old(self).player_count(),
            final(self).seats() == old(self).seats(),
    {
        let ghost q0 = self.supply.piles();
        self.populate_supply(CardNames::COPPER, 60);
        let ghost q1 = self.supply.piles();
        self.populate_supply(CardNames::SILVER, 40);
        let ghost q2 = self.supply.piles();
        self.populate_supply(CardNames::GOLD, 30);
        let ghost q3 = self.supply.piles();
        self.populate_supply(CardNames::ESTATE, 12);
        let ghost q4 = self.supply.piles();
        self.populate_supply(CardNames::DUCHY, 12);
        let ghost q5 = self.supply.piles();
        self.populate_supply(CardNames::PROVINCE, 12);
        proof {
            let q6 = self.supply.piles();
            let n = q0.len() as int;
            assert(q6.subrange(0, q5.len() as int) == q5);
            assert(q5.subrange(0, q4.len() as int) == q4);
            assert(q4.subrange(0, q3.len() as int) == q3);
            assert(q3.subrange(0, q2.len() as int) == q2);
            assert(q2.subrange(0, q1.len() as int) == q1);
            assert(q1.subrange(0, n) == q0);
            assert(q6[n] == q5[n] && q5[n] == q4[n] && q4[n] == q3[n] && q3[n] == q2[n] && q2[n] == q1[n]);
            assert(q6[n + 1] == q5[n + 1] && q5[n + 1] == q4[n + 1] && q4[n + 1] == q3[n + 1] && q3[n + 1] == q2[n + 1]);
            assert(q6[n + 2] == q5[n + 2] && q5[n + 2] == q4[n + 2] && q4[n + 2] == q3[n + 2]);
            assert(q6[n + 3] == q5[n + 3] && q5[n + 3] == q4[n + 3]);
            assert(q6[n + 4] == q5[n + 4]);
            assert(q6.subrange(0, n) =~= q0);
        }
    }

    /// The higher treasure and victory piles.
    pub fn populate_prosperous_kingdom(&mut self)
        ensures
            final(self).supply_piles().len() == old(self).supply_piles().len() + 2,
            final(self).supply_piles().subrange(0, old(self).supply_piles().len() as int)
                == old(self).supply_piles(),
            fresh_pile(final(self).supply_piles()[old(self).supply_piles().len() as int], CardName::Platinum, 12),
            fresh_pile(final(self).supply_piles()[old(self).supply_piles().len() + 1int], CardName::Colony, 12),
            final(self).turn() == old(self).turn(),
            final(self).turn_limit() == old(self).turn_limit(),
            final(self).player_count() == old(self).player_count(),
            final(self).seats() == old(self).seats(),
    {
        let ghost q0 = self.supply.piles();
        self.populate_supply(CardNames::PLATINUM, 12);
        let ghost q1 = self.supply.piles();
        self.populate_supply(CardNames::COLONY, 12);
        proof {
            let q2 = self.supply.piles();
            let n = q0.len() as int;
            assert(q2.subrange(0, q1.len() as int) == q1);
            assert(q1.subrange(0, n) == q0);
            assert(q2[n] == q1[n]);
            assert(q2.subrange(0, n) =~= q0);
        }
    }

    /// The action piles.
    pub fn populate_some_actions(&mut self)
        ensures
            final(self).supply_piles().len() == old(self).supply_piles().len() + 2,
            final(self).supply_piles().subrange(0, old(self).supply_piles().len() as int)
                == old(self).supply_piles(),
            fresh_pile(final(self).supply_piles()[old(self).supply_piles().len() as int], CardName::Smithy, 10),
            fresh_pile(final(self).supply_piles()[old(self).supply_piles().len() + 1int], CardName::Village, 10),
            final(self).turn() == old(self).turn(),
            final(self).turn_limit() == old(self).turn_limit(),
            final(self).player_count() == old(self).player_count(),
            final(self).seats() == old(self).seats(),
    {
        let ghost q0 = self.supply.piles();
        self.populate_supply(CardNames::SMITHY, 10);
        let ghost q1 = self.supply.piles();
        self.populate_supply(CardNames::VILLAGE, 10);
        proof {
            let q2 = self.supply.piles();
            let n = q0.len() as int;
            assert(q2.subrange(0, q1.len() as int) == q1);
            assert(q1.subrange(0, n) == q0);
            assert(q2[n] == q1[n]);
            assert(q2.subrange(0, n) =~= q0);
        }
    }

    /// Gives every player seven Coppers and three Estates from the supply,
    /// as far as those piles go, and draws their first hand.
    pub fn deal_starting_hands(&mut self)
        ensures
            final(self).turn() == old(self).turn(),
            final(self).turn_limit() == old(self).turn_limit(),
            final(self).player_count() == old(self).player_count(),
            exists|sup: Seq<Seq<PileView>>| #[trigger] Self::deal_chain(*old(self), *final(self), sup),
            forall|j: int|
                0 <= j < old(self).player_count() ==> (#[trigger] final(self).zones(j)).in_play_cards()
                    == old(self).zones(j).in_play_cards(),
            final(self).all_cards() == old(self).all_cards(),
            piles_shrunk(old(self).supply_piles(), final(self).supply_piles()),
    {
        proof {
            lemma_piles_shrunk_refl(self.supply.piles());
        }
        let ghost mut sup: Seq<Seq<PileView>> = seq![self.supply.piles()];
        let n = self.players.len();
        let mut i: usize = 0;
        while i < n
            invariant
                n == self.players@.len(),
                n == old(self).players@.len(),
                i <= n,
                self.turn_counter == old(self).turn_counter,
                self.max_turns == old(self).max_turns,
                piles_shrunk(old(self).supply.piles(), self.supply.piles()),
                sup.len() == i + 1,
                sup[0] == old(self).supply.piles(),
                sup[i as int] == self.supply.piles(),
                forall|j: int|
                    #![trigger self.players@[j]]
                    0 <= j < i ==> Self::deal_step(sup[j], sup[j + 1], old(self).players@[j].area, self.players@[j].area)
                        && self.players@[j].name == old(self).players@[j].name
                        && self.players@[j].agent == old(self).players@[j].agent
                        && self.players@[j].area.in_play_cards() == old(self).players@[j].area.in_play_cards(),
                forall|j: int| i <= j < n ==> #[trigger] self.players@[j] == old(self).players@[j],
                pile_cards(self.supply.piles()).add(seats_cards(self.players@)) == pile_cards(
                    old(self).supply.piles(),
                ).add(seats_cards(old(self).players@)),
            decreases n - i,
        {
            let ghost seats0 = self.players@;
            let ghost ps0 = self.supply.piles();
            let ghost z0 = self.players@[i as int].area;
            let ghost mut coppers_taken: Seq<Card> = Seq::empty();
            let ghost mut estates_taken: Seq<Card> = Seq::empty();
            if self.supply.has_top(CardNames::COPPER) {
                proof {
                    lemma_take_shrinks(old(self).supply.piles(), self.supply.piles(), CardNames::COPPER, 7);
                }
                let mut coppers = self.supply.take_up_to_n(CardNames::COPPER, 7);
                proof {
                    coppers_taken = coppers@;
                }
                self.players[i].area.gain_cards_to_discard_pile(&mut coppers);
            } else {
                proof {
                    assert(PlayArea::gain_outcome(z0, z0, Seq::empty()));
                    assert(z0.discard_cards() + Seq::<Card>::empty() =~= z0.discard_cards());
                }
            }
            let ghost ps1 = self.supply.piles();
            let ghost m1 = self.players@[i as int].area;
            if self.supply.has_top(CardNames::ESTATE) {
                proof {
                    lemma_take_shrinks(old(self).supply.piles(), self.supply.piles(), CardNames::ESTATE, 3);
                }
                let mut estates = self.supply.take_up_to_n(CardNames::ESTATE, 3);
                proof {
                    estates_taken = estates@;
                }
                self.players[i].area.gain_cards_to_discard_pile(&mut estates);
            } else {
                proof {
                    assert(m1.discard_cards() + Seq::<Card>::empty() =~= m1.discard_cards());
                }
            }
            let ghost ps2 = self.supply.piles();
            let ghost m2 = self.players@[i as int].area;
            self.players[i].area.draw_hand(&mut self.log);
            proof {
                let z1 = self.players@[i as int].area;
                assert(take_or_skip(ps0, ps1, CardName::Copper, 7, coppers_taken));
                assert(take_or_skip(ps1, ps2, CardName::Estate, 3, estates_taken));
                assert(PlayArea::gain_outcome(z0, m1, coppers_taken));
                assert(PlayArea::gain_outcome(m1, m2, estates_taken));
                assert(Self::deal_step(ps0, ps2, z0, z1));
                // every card taken from the supply is now the player's
                lemma_take_conserves(ps0, ps1, CardName::Copper, 7, coppers_taken);
                lemma_take_conserves(ps1, ps2, CardName::Estate, 3, estates_taken);
                assert(self.players@ =~= seats0.update(i as int, self.players@[i as int]));
                lemma_seats_cards_update(seats0, i as int, self.players@[i as int]);
                let o0 = z0.owned();
                let o1 = z1.owned();
                coppers_taken.to_multiset_ensures();
                estates_taken.to_multiset_ensures();
                if coppers_taken.len() == 0 {
                    assert(coppers_taken.to_multiset() =~= Multiset::<Card>::empty());
                }
                if estates_taken.len() == 0 {
                    assert(estates_taken.to_multiset() =~= Multiset::<Card>::empty());
                }
                assert(m1.owned() =~= o0.add(coppers_taken.to_multiset()));
                assert(m2.owned() =~= m1.owned().add(estates_taken.to_multiset()));
                assert(o1 == m2.owned());
                assert(o1 =~= o0.add(coppers_taken.to_multiset()).add(estates_taken.to_multiset()));
                let lhs = pile_cards(ps2).add(seats_cards(self.players@));
                let rhs = pile_cards(ps0).add(seats_cards(seats0));
                assert forall|c: Card| lhs.count(c) == rhs.count(c) by {
                    assert(seats_cards(self.players@).add(o0).count(c) == seats_cards(seats0).add(o1).count(c));
                    assert(pile_cards(ps1).add(coppers_taken.to_multiset()).count(c) == pile_cards(ps0).count(c));
                    assert(pile_cards(ps2).add(estates_taken.to_multiset()).count(c) == pile_cards(ps1).count(c));
                }
                assert(lhs =~= rhs);
                sup = sup.push(ps2);
                assert forall|j: int|
                    #![trigger self.players@[j]]
                    0 <= j < i + 1 implies Self::deal_step(sup[j], sup[j + 1], old(self).players@[j].area, self.players@[j].area)
                        && self.players@[j].name == old(self).players@[j].name
                        && self.players@[j].agent == old(self).players@[j].agent
                        && self.players@[j].area.in_play_cards() == old(self).players@[j].area.in_play_cards() by {
                    if j < i {
                        assert(self.players@[j] == seats0[j]);
                        assert(sup[j] == sup.drop_last()[j] && sup[j + 1] == sup.drop_last()[j + 1]);
                    } else {
                        assert(seats0[j] == old(self).players@[j]);
                    }
                }
            }
            i += 1;
        }
        proof {
            assert(Self::deal_chain(*old(self), *self, sup));
            assert forall|j: int|
                0 <= j < old(self).player_count() implies (#[trigger] self.zones(j)).in_play_cards()
                    == old(self).zones(j).in_play_cards() by {
                assert(self.players@[j].area.in_play_cards() == old(self).players@[j].area.in_play_cards());
            }
        }
    }

    /// Whether the game is over: the turn counter has reached `max_turns`, or
    /// the game-ending pile is empty. That pile is the victory pile of the
    /// highest tier in the supply; the rule of three empty piles is not used.
    pub fn has_ended(turn_counter: u8, max_turns: u8, supply: &Supply) -> (r: bool)
        ensures
            r == ended(turn_counter as int, max_turns as int, supply.piles()),
    {
        turn_counter >= max_turns || supply.game_ending_pile_empty()
    }

    /// Carries out player `i`'s purchase `choice`, made with `coins` to
    /// spend: for `Buy(name)` the top card of the first pile topped by
    /// `name` goes onto the player's discard pile; `Pass` changes nothing.
    pub fn apply_buy(&mut self, i: usize, choice: BuyChoice, coins: u8)
        requires
            i < old(self).player_count(),
            choice matches BuyChoice::Buy(name) ==> buyable_names(old(self).supply_piles(), coins as int).contains(name),
        ensures
            buy_outcome(old(self).supply_piles(), final(self).supply_piles(), old(self).zones(i as int), final(self).zones(i as int), choice),
            turn_trade(
                old(self).supply_piles(),
                final(self).supply_piles(),
                old(self).zones(i as int).owned(),
                final(self).zones(i as int).owned(),
            ),
            final(self).seats().len() == old(self).seats().len(),
            forall|j: int|
                0 <= j < old(self).seats().len() && j != i ==> #[trigger] final(self).seats()[j]
                    == old(self).seats()[j],
            final(self).seats()[i as int].seat_name() == old(self).seats()[i as int].seat_name(),
            final(self).seats()[i as int].agent() == old(self).seats()[i as int].agent(),
            final(self).turn() == old(self).turn(),
            final(self).turn_limit() == old(self).turn_limit(),
    {
        match choice {
            BuyChoice::Buy(card) => {
                let ghost piles0 = self.supply.piles();
                let ghost owned0 = self.players@[i as int].area.owned();
                proof {
                    lemma_buyable_topped(self.supply.piles(), coins as int, card);
                    lemma_first_topped(self.supply.piles(), card);
                }
                let ghost f = first_topped(piles0, card);
                if let Some(purchased) = self.supply.take_one(card) {
                    self.players[i].area.gain_card_to_discard_pile(purchased);
                    self.log.record(GameEvent::CardBoughtGained(card));
                    proof {
                        assert(piles0[f].1.len() > 0);
                        assert(self.players@[i as int].area.owned() == owned0.insert(piles0[f].1.last()));
                    }
                }
            },
            BuyChoice::Pass => {},
        }
    }

    /// Player `i`'s turn. The action phase offers the agent no card: playing
    /// actions is not part of the turn yet. Then every treasure in hand is
    /// played, in hand order; one whose effect would take a counter past
    /// its range stays in hand. The agent is offered the cards those coins
    /// buy and its purchase goes to its discard pile. Last, the cards in
    /// play and in hand are discarded and a new hand is drawn.
    fn take_turn(&mut self, i: usize)
        requires
            i < old(self).players@.len(),
        ensures
            final(self).players@.len() == old(self).players@.len(),
            final(self).turn_counter == old(self).turn_counter,
            final(self).max_turns == old(self).max_turns,
            forall|j: int|
                0 <= j < old(self).players@.len() && j != i ==> #[trigger] final(self).players@[j]
                    == old(self).players@[j],
            turn_trade(
                old(self).supply.piles(),
                final(self).supply.piles(),
                old(self).players@[i as int].area.owned(),
                final(self).players@[i as int].area.owned(),
            ),
            Self::turn_outcome(
                old(self).supply.piles(),
                final(self).supply.piles(),
                old(self).players@[i as int].area,
                final(self).players@[i as int].area,
                old(self).players@[i as int].agent,
                final(self).players@[i as int].agent,
            ),
            final(self).players@[i as int].name@ == old(self).players@[i as int].name@,
            final(self).players@[i as int].area.in_play_cards().len() == 0,
            final(self).players@[i as int].area.hand_cards().len() == drawable(
                5,
                final(self).players@[i as int].area.owned().len() as int,
            ),
    {
        let ghost seats0 = self.players@;
        let ghost owned0 = self.players@[i as int].area.owned();
        let ghost piles0 = self.supply.piles();
        let ghost z0 = self.players@[i as int].area;
        let ghost a0 = self.players@[i as int].agent;
        let turn_span = self.log.enter_turn(self.players[i].name.as_str(), self.turn_counter);
        let mut counters = PlayerCounters::new_turn();
        let no_actions: Vec<CardName> = Vec::new();
        let action = self.players[i].agent.action_phase(no_actions.as_slice());
        let ghost a_mid = self.players@[i as int].agent;
        proof {
            assert(no_actions@ =~= Seq::<CardName>::empty());
        }

        let buy_span = self.log.enter_buy_phase();
        let treasures = self.players[i].area.treasure_names();
        let ghost mut zs: Seq<PlayArea<S>> = seq![z0];
        let ghost mut acts: Seq<int> = seq![1int];
        let ghost mut coins: Seq<int> = seq![0int];
        proof {
            assert(treasures@.subrange(0, 0) =~= Seq::<CardName>::empty());
        }
        let mut k: usize = 0;
        while k < treasures.len()
            invariant
                i < self.players@.len(),
                self.players@.len() == seats0.len(),
                forall|j: int| 0 <= j < seats0.len() && j != i ==> #[trigger] self.players@[j] == seats0[j],
                self.players@[i as int].area.owned() == owned0,
                self.players@[i as int].name == seats0[i as int].name,
                self.players@[i as int].agent == a_mid,
                self.supply == old(self).supply,
                self.turn_counter == old(self).turn_counter,
                self.max_turns == old(self).max_turns,
                k <= treasures@.len(),
                treasures@ == treasure_names_of(z0.hand_cards()),
                treasure_chain(zs, acts, coins, treasures@.subrange(0, k as int)),
                zs[0] == z0,
                acts[0] == 1,
                coins[0] == 0,
                zs.last() == self.players@[i as int].area,
                acts.last() == counters.actions,
                coins.last() == counters.coins,
            decreases treasures@.len() - k,
        {
            let c = treasures[k];
            let ghost zb = self.players@[i as int].area;
            let ghost ab = counters.actions as int;
            let ghost cb = counters.coins as int;
            if self.players[i].area.can_play(c, &counters) {
                let ghost e0 = self.log.events();
                self.players[i].area.play_card(c, &mut counters, &mut self.log);
                let ghost e1 = self.log.events();
                self.log.record(GameEvent::CardPlayed(c, counters));
                proof {
                    assert(PlayArea::play_outcome(zb, self.players@[i as int].area, e0, e1, c));
                }
            }
            proof {
                let names = treasures@.subrange(0, k + 1);
                assert(treasure_step(zb, self.players@[i as int].area, ab, counters.actions as int, cb, counters.coins as int, c));
                let zs0 = zs;
                let acts0 = acts;
                let coins0 = coins;
                zs = zs.push(self.players@[i as int].area);
                acts = acts.push(counters.actions as int);
                coins = coins.push(counters.coins as int);
                assert forall|j: int|
                    #![trigger names[j]]
                    0 <= j < names.len() implies treasure_step(zs[j], zs[j + 1], acts[j], acts[j + 1], coins[j], coins[j + 1], names[j]) by {
                    if j < k {
                        assert(names[j] == treasures@.subrange(0, k as int)[j]);
                        assert(zs[j] == zs0[j] && zs[j + 1] == zs0[j + 1]);
                        assert(acts[j] == acts0[j] && acts[j + 1] == acts0[j + 1]);
                        assert(coins[j] == coins0[j] && coins[j + 1] == coins0[j + 1]);
                    } else {
                        assert(names[j] == c);
                        assert(zs[j] == zb);
                    }
                }
                assert(treasure_chain(zs, acts, coins, names));
            }
            k += 1;
        }
        proof {
            assert(treasures@.subrange(0, k as int) =~= treasures@);
        }

        let buyable_cards = self.supply.buyable_cards(counters.coins);
        let buy_choice = self.players[i].agent.buy_phase(buyable_cards.as_slice());
        let ghost a1 = self.players@[i as int].agent;
        let ghost zp = self.players@[i as int].area;
        self.apply_buy(i, buy_choice, counters.coins);
        let ghost zb = self.players@[i as int].area;
        let ghost piles1 = self.supply.piles();
        self.log.exit(buy_span);

        let cleanup_span = self.log.enter_cleanup();
        let ghost owned1 = self.players@[i as int].area.owned();
        self.players[i].area.discard_in_play();
        let ghost w1 = self.players@[i as int].area;
        self.players[i].area.discard_hand();
        let ghost w2 = self.players@[i as int].area;
        self.players[i].area.draw_hand(&mut self.log);
        self.log.exit(cleanup_span);
        self.log.exit(turn_span);
        proof {
            let a = self.players@[i as int].area;
            assert(a.owned() == owned1);
            lemma_owned_len(a);
            let t = (action, a_mid, zs, acts, coins, buy_choice, zb, w1, w2);
            assert(zs.last() == zp);
            assert(Self::turn_steps(piles0, self.supply.piles(), z0, a, a0, self.players@[i as int].agent, t));
        }
    }

    /// One round: every player takes a turn in order, and the termination
    /// rule is checked after each; once it holds, the round stops there.
    /// Action cards are not played during a turn: the action phase offers
    /// the agent nothing to play, and only treasures are played, by the
    /// engine itself.
    pub fn play_one_turn(&mut self)
        requires
            old(self).turn() < u8::MAX,
        ensures
            final(self).turn() == old(self).turn() + 1,
            final(self).turn_limit() == old(self).turn_limit(),
            final(self).player_count() == old(self).player_count(),
            exists|m: int, sup: Seq<Seq<PileView>>| #[trigger] Self::round_chain(*old(self), *final(self), m, sup),
            forall|j: int|
                0 <= j < old(self).player_count() ==> (#[trigger] final(self).zones(j)).in_play_cards().len() == 0
                    || final(self).zones(j) == old(self).zones(j),
            final(self).all_cards() == old(self).all_cards(),
            piles_shrunk(old(self).supply_piles(), final(self).supply_piles()),
            forall|j: int|
                0 <= j < old(self).player_count() ==> old(self).zones(j).owned().subset_of(
                    #[trigger] final(self).zones(j).owned(),
                ),
    {
        let ghost start = *self;
        self.turn_counter = self.turn_counter + 1;
        let n = self.players.len();
        let mut i: usize = 0;
        let ghost mut sup: Seq<Seq<PileView>> = seq![self.supply.piles()];
        proof {
            lemma_piles_shrunk_refl(self.supply.piles());
        }
        while i < n
            invariant
                n == self.players@.len(),
                n == old(self).players@.len(),
                i <= n,
                start == *old(self),
                self.turn_counter == old(self).turn_counter + 1,
                self.max_turns == old(self).max_turns,
                piles_shrunk(old(self).supply.piles(), self.supply.piles()),
                forall|j: int|
                    0 <= j < n ==> old(self).players@[j].area.owned().subset_of(
                        #[trigger] self.players@[j].area.owned(),
                    ),
                sup.len() == i + 1,
                sup[0] == old(self).supply.piles(),
                sup[i as int] == self.supply.piles(),
                forall|j: int|
                    #![trigger self.players@[j]]
                    0 <= j < i ==> {
                        &&& turn_trade(sup[j], sup[j + 1], old(self).players@[j].area.owned(), self.players@[j].area.owned())
                        &&& self.players@[j].area.in_play_cards().len() == 0
                        &&& self.players@[j].area.hand_cards().len() == drawable(5, self.players@[j].area.owned().len() as int)
                        &&& self.players@[j].name@ == old(self).players@[j].name@
                        &&& Self::turn_outcome(sup[j], sup[j + 1], old(self).players@[j].area, self.players@[j].area, old(self).players@[j].agent, self.players@[j].agent)
                    },
                forall|j: int| i <= j < n ==> #[trigger] self.players@[j] == old(self).players@[j],
                forall|j: int|
                    1 <= j <= i ==> !ended(self.turn_counter as int, self.max_turns as int, #[trigger] sup[j]),
                pile_cards(self.supply.piles()).add(seats_cards(self.players@)) == pile_cards(
                    old(self).supply.piles(),
                ).add(seats_cards(old(self).players@)),
            decreases n - i,
        {
            let ghost before = self.players@;
            let ghost piles = self.supply.piles();
            self.take_turn(i);
            proof {
                lemma_trade_shrinks(old(self).supply.piles(), piles, self.supply.piles(), before[i as int].area.owned(), self.players@[i as int].area.owned());
                lemma_trade_conserves(piles, self.supply.piles(), before, self.players@, i as int);
                assert forall|j: int|
                    0 <= j < n implies old(self).players@[j].area.owned().subset_of(
                        #[trigger] self.players@[j].area.owned(),
                    ) by {
                    if j != i {
                        assert(self.players@[j] == before[j]);
                    }
                }
                sup = sup.push(self.supply.piles());
                assert forall|j: int|
                    #![trigger self.players@[j]]
                    0 <= j < i + 1 implies {
                        &&& turn_trade(sup[j], sup[j + 1], old(self).players@[j].area.owned(), self.players@[j].area.owned())
                        &&& self.players@[j].area.in_play_cards().len() == 0
                        &&& self.players@[j].area.hand_cards().len() == drawable(5, self.players@[j].area.owned().len() as int)
                        &&& self.players@[j].name@ == old(self).players@[j].name@
                        &&& Self::turn_outcome(sup[j], sup[j + 1], old(self).players@[j].area, self.players@[j].area, old(self).players@[j].agent, self.players@[j].agent)
                    } by {
                    if j < i {
                        assert(self.players@[j] == before[j]);
                        assert(sup[j] == sup.drop_last()[j] && sup[j + 1] == sup.drop_last()[j + 1]);
                    } else {
                        assert(before[j] == old(self).players@[j]);
                    }
                }
                assert forall|j: int| 1 <= j <= i implies !ended(self.turn_counter as int, self.max_turns as int, #[trigger] sup[j]) by {
                    assert(sup[j] == sup.drop_last()[j]);
                }
            }
            if Self::has_ended(self.turn_counter, self.max_turns, &self.supply) {
                proof {
                    assert(Self::round_chain(*old(self), *self, i + 1, sup));
                    assert forall|j: int|
                        0 <= j < old(self).player_count() implies (#[trigger] self.zones(j)).in_play_cards().len() == 0
                            || self.zones(j) == old(self).zones(j) by {
                        if j < i + 1 {
                            assert(self.players@[j].area.in_play_cards().len() == 0);
                        } else {
                            assert(self.players@[j] == old(self).players@[j]);
                        }
                    }
                }
                return;
            }
            i += 1;
        }
        proof {
            assert(Self::round_chain(*old(self), *self, n as int, sup));
            assert forall|j: int|
                0 <= j < old(self).player_count() implies (#[trigger] self.zones(j)).in_play_cards().len() == 0
                    || self.zones(j) == old(self).zones(j) by {
                assert(self.players@[j].area.in_play_cards().len() == 0);
            }
        }
    }

    /// The victory points of `player_cards`; the sum stops at the largest `u64`.
    pub fn calculate_score(player_cards: &[Card]) -> (r: u64)
        ensures
            r == capped(vp_total(player_cards@)),
    {
        let mut total: u64 = 0;
        let mut i: usize = 0;
        while i < player_cards.len()
            invariant
                i <= player_cards@.len(),
                total == capped(vp_total(player_cards@.subrange(0, i as int))),
            decreases player_cards@.len() - i,
        {
            proof {
                assert(player_cards@.subrange(0, i + 1).drop_last() =~= player_cards@.subrange(
                    0,
                    i as int,
                ));
                lemma_vp_total_nonneg(player_cards@.subrange(0, i as int));
            }
            total = total.saturating_add(player_cards[i].vp_value as u64);
            i += 1;
        }
        proof {
            assert(player_cards@.subrange(0, i as int) =~= player_cards@);
        }
        total
    }

    /// Collects every player's cards and scores them: the result of each
    /// player, in turn order, has the player's name and the cards of their
    /// deck, hand and discard pile, sorted by name.
    fn collect_cards_and_get_results(&mut self) -> (r: PlayerResults)
        ensures
            r.0@.len() == old(self).players@.len(),
            forall|k: int|
                0 <= k < r.0@.len() ==> {
                    &&& (#[trigger] r.0@[k]).score == capped(vp_total(r.0@[k].cards@))
                    &&& sorted_by_name(r.0@[k].cards@)
                    &&& r.0@[k].name@ == old(self).seats()[k].seat_name()
                    &&& r.0@[k].cards@.to_multiset() == (old(self).zones(k).deck_cards()
                        + old(self).zones(k).hand_cards() + old(self).zones(k).discard_cards()).to_multiset()
                    &&& final(self).zones(k).deck_cards().len() == 0
                    &&& final(self).zones(k).hand_cards().len() == 0
                    &&& final(self).zones(k).discard_cards().len() == 0
                    &&& final(self).zones(k).in_play_cards() == old(self).zones(k).in_play_cards()
                },
            final(self).players@.len() == old(self).players@.len(),
            Self::collected(*old(self), *final(self), r.0@),
            results_cards(r.0@).add(seats_cards(final(self).seats())) == seats_cards(old(self).seats()),
            final(self).supply == old(self).supply,
            final(self).turn_counter == old(self).turn_counter,
            final(self).max_turns == old(self).max_turns,
    {
        let mut results: Vec<PlayerResult> = Vec::new();
        let n = self.players.len();
        let mut i: usize = 0;
        proof {
            assert(results_cards(results@).add(seats_cards(self.players@)) =~= seats_cards(self.players@));
        }
        while i < n
            invariant
                n == self.players@.len(),
                n == old(self).players@.len(),
                i <= n,
                self.supply == old(self).supply,
                self.turn_counter == old(self).turn_counter,
                self.max_turns == old(self).max_turns,
                results@.len() == i,
                forall|k: int|
                    0 <= k < i ==> {
                        &&& (#[trigger] results@[k]).score == capped(vp_total(results@[k].cards@))
                        &&& sorted_by_name(results@[k].cards@)
                        &&& results@[k].name@ == old(self).players@[k].name@
                        &&& results@[k].cards@.to_multiset() == (old(self).players@[k].area.deck_cards()
                            + old(self).players@[k].area.hand_cards() + old(self).players@[k].area.discard_cards()).to_multiset()
                        &&& self.players@[k].area.deck_cards().len() == 0
                        &&& self.players@[k].area.hand_cards().len() == 0
                        &&& self.players@[k].area.discard_cards().len() == 0
                        &&& self.players@[k].area.in_play_cards() == old(self).players@[k].area.in_play_cards()
                    },
                forall|j: int| i <= j < n ==> #[trigger] self.players@[j] == old(self).players@[j],
                results_cards(results@).add(seats_cards(self.players@)) == seats_cards(old(self).players@),
            decreases n - i,
        {
            let ghost seats0 = self.players@;
            let ghost a0 = self.players@[i as int].area;
            let taken = self.players[i].area.take_all_cards();
            let ghost taken_view = taken@;
            let player_cards = sort_by_name(taken);
            let score = Self::calculate_score(player_cards.as_slice());
            let name = self.players[i].name.clone();
            let ghost rs0 = results@;
            results.push(PlayerResult::new(name, player_cards, score));
            proof {
                broadcast use vstd::multiset::group_multiset_axioms;

                let a1 = self.players@[i as int].area;
                assert(self.players@ =~= seats0.update(i as int, self.players@[i as int]));
                lemma_seats_cards_update(seats0, i as int, self.players@[i as int]);
                let d = a0.deck_cards();
                let h = a0.hand_cards();
                let x = a0.discard_cards();
                vstd::seq_lib::lemma_multiset_commutative(d, h);
                vstd::seq_lib::lemma_multiset_commutative(d + h, x);
                a1.deck_cards().to_multiset_ensures();
                a1.hand_cards().to_multiset_ensures();
                a1.discard_cards().to_multiset_ensures();
                assert(a1.deck_cards().to_multiset() =~= Multiset::<Card>::empty());
                assert(a1.hand_cards().to_multiset() =~= Multiset::<Card>::empty());
                assert(a1.discard_cards().to_multiset() =~= Multiset::<Card>::empty());
                let cm = player_cards@.to_multiset();
                assert(cm == taken_view.to_multiset());
                assert(a0.owned() =~= a1.owned().add(cm));
                assert(results@.drop_last() =~= rs0);
                assert(results_cards(results@) == results_cards(rs0).add(cm));
                let lhs = results_cards(results@).add(seats_cards(self.players@));
                assert forall|c: Card| lhs.count(c) == seats_cards(old(self).players@).count(c) by {
                    assert(seats_cards(self.players@).add(a0.owned()).count(c) == seats_cards(seats0).add(a1.owned()).count(c));
                    assert(results_cards(rs0).add(seats_cards(seats0)).count(c) == seats_cards(old(self).players@).count(c));
                }
                assert(lhs =~= seats_cards(old(self).players@));
                assert forall|k: int| 0 <= k < i + 1 implies {
                        &&& (#[trigger] results@[k]).score == capped(vp_total(results@[k].cards@))
                        &&& sorted_by_name(results@[k].cards@)
                        &&& results@[k].name@ == old(self).players@[k].name@
                        &&& results@[k].cards@.to_multiset() == (old(self).players@[k].area.deck_cards()
                            + old(self).players@[k].area.hand_cards() + old(self).players@[k].area.discard_cards()).to_multiset()
                        &&& self.players@[k].area.deck_cards().len() == 0
                        &&& self.players@[k].area.hand_cards().len() == 0
                        &&& self.players@[k].area.discard_cards().len() == 0
                        &&& self.players@[k].area.in_play_cards() == old(self).players@[k].area.in_play_cards()
                    } by {
                    if k < i {
                        assert(results@[k] == rs0[k]);
                        assert(self.players@[k] == seats0[k]);
                    } else {
                        assert(seats0[k] == old(self).players@[k]);
                    }
                }
            }
            i += 1;
        }
        PlayerResults(results)
    }

    /// Deals the starting hands and plays rounds until the termination rule
    /// holds; then collects and scores every player's cards.
    pub fn play_to_end(&mut self) -> (r: PlayerResults)
        ensures
            ended(final(self).turn() as int, final(self).turn_limit() as int, final(self).supply_piles()),
            piles_shrunk(old(self).supply_piles(), final(self).supply_piles()),
            results_cards(r.0@).add(final(self).all_cards()) == old(self).all_cards(),
            exists|g: Self|
                #[trigger] Self::collected(g, *final(self), r.0@) && ended(
                    g.turn() as int,
                    g.turn_limit() as int,
                    g.supply_piles(),
                ) && g.supply_piles() == final(self).supply_piles(),
            (forall|k: int| 0 <= k < old(self).player_count() ==> (#[trigger] old(self).zones(k)).owned() == Multiset::<Card>::empty())
                ==> results_cards(r.0@).add(pile_cards(final(self).supply_piles())) == pile_cards(old(self).supply_piles())
                && forall|k: int| 0 <= k < old(self).player_count() ==> (#[trigger] final(self).zones(k)).in_play_cards().len() == 0,
            final(self).player_count() == old(self).player_count(),
            forall|k: int|
                0 <= k < r.0@.len() ==> {
                    &&& (#[trigger] r.0@[k]).name@ == old(self).seats()[k].seat_name()
                    &&& final(self).zones(k).deck_cards().len() == 0
                    &&& final(self).zones(k).hand_cards().len() == 0
                    &&& final(self).zones(k).discard_cards().len() == 0
                },
            r.0@.len() == old(self).player_count(),
            forall|k: int|
                0 <= k < r.0@.len() ==> (#[trigger] r.0@[k]).score == capped(
                    vp_total(r.0@[k].cards@),
                ) && sorted_by_name(r.0@[k].cards@),
    {
        let ghost g0 = *self;
        let ghost fresh = forall|k: int| 0 <= k < old(self).player_count() ==> (#[trigger] old(self).zones(k)).owned() == Multiset::<Card>::empty();
        self.deal_starting_hands();
        proof {
            if fresh {
                assert forall|k: int| 0 <= k < self.player_count() implies (#[trigger] self.zones(k)).in_play_cards().len() == 0 by {
                    assert(old(self).zones(k).owned() == Multiset::<Card>::empty());
                    lemma_owned_len(old(self).zones(k));
                    assert(self.zones(k).in_play_cards() == old(self).zones(k).in_play_cards());
                }
            }
            let sup = choose|sup: Seq<Seq<PileView>>| #[trigger] Self::deal_chain(g0, *self, sup);
            assert forall|k: int|
                0 <= k < self.players@.len() implies (#[trigger] self.players@[k]).name@
                    == old(self).players@[k].name@ by {
                assert(self.seats()[k].seat_name() == g0.seats()[k].seat_name());
            }
        }
        while !Self::has_ended(self.turn_counter, self.max_turns, &self.supply)
            invariant
                self.players@.len() == old(self).players@.len(),
                piles_shrunk(old(self).supply.piles(), self.supply.piles()),
                self.all_cards() == old(self).all_cards(),
                forall|k: int|
                    0 <= k < self.players@.len() ==> (#[trigger] self.players@[k]).name@
                        == old(self).players@[k].name@,
                fresh == forall|k: int| 0 <= k < old(self).player_count() ==> (#[trigger] old(self).zones(k)).owned() == Multiset::<Card>::empty(),
                fresh ==> forall|k: int| 0 <= k < self.player_count() ==> (#[trigger] self.zones(k)).in_play_cards().len() == 0,
            decreases self.max_turns - self.turn_counter,
        {
            let ghost mid = self.supply.piles();
            let ghost g0 = *self;
            self.play_one_turn();
            proof {
                if fresh {
                    assert forall|k: int| 0 <= k < self.player_count() implies (#[trigger] self.zones(k)).in_play_cards().len() == 0 by {
                        assert(g0.zones(k).in_play_cards().len() == 0);
                    }
                }
                let (m, sup) = choose|m: int, sup: Seq<Seq<PileView>>| #[trigger] Self::round_chain(g0, *self, m, sup);
                assert forall|k: int|
                    0 <= k < self.players@.len() implies (#[trigger] self.players@[k]).name@
                        == old(self).players@[k].name@ by {
                    assert(g0.players@[k].name@ == old(self).players@[k].name@);
                    if k < m {
                        assert(self.seats()[k].seat_name() == g0.seats()[k].seat_name());
                    } else {
                        assert(self.seats()[k] == g0.seats()[k]);
                    }
                }
            }
            proof {
                lemma_piles_shrunk_trans(old(self).supply.piles(), mid, self.supply.piles());
            }
        }
        let ghost g1 = *self;
        let r = self.collect_cards_and_get_results();
        proof {
            broadcast use vstd::multiset::group_multiset_axioms;

            let lhs = results_cards(r.0@).add(self.all_cards());
            assert forall|c: Card| lhs.count(c) == old(self).all_cards().count(c) by {
                assert(results_cards(r.0@).add(seats_cards(self.seats())).count(c) == seats_cards(g1.seats()).count(c));
            }
            assert(lhs =~= old(self).all_cards());
            assert forall|k: int| 0 <= k < r.0@.len() implies (#[trigger] r.0@[k]).name@ == old(self).seats()[k].seat_name() by {
                assert(g1.players@[k].name@ == old(self).players@[k].name@);
            }
            assert(Self::collected(g1, *self, r.0@));
            if fresh {
                assert forall|k: int| 0 <= k < self.player_count() implies (#[trigger] self.zones(k)).in_play_cards().len() == 0 by {
                    assert(g1.zones(k).in_play_cards().len() == 0);
                    assert(r.0@[k].score == capped(vp_total(r.0@[k].cards@)));
                    assert(self.zones(k).in_play_cards() == g1.zones(k).in_play_cards());
                }
                assert forall|j: int| 0 <= j < self.seats().len() implies (#[trigger] self.seats()[j]).area().owned() == Multiset::<Card>::empty() by {
                    assert(self.zones(j).in_play_cards().len() == 0);
                    assert(r.0@[j].score == capped(vp_total(r.0@[j].cards@)));
                    lemma_owned_empty(self.zones(j));
                }
                lemma_seats_cards_empty(self.seats());
                assert forall|j: int| 0 <= j < old(self).seats().len() implies (#[trigger] old(self).seats()[j]).area().owned() == Multiset::<Card>::empty() by {
                    assert(old(self).zones(j).owned() == Multiset::<Card>::empty());
                }
                lemma_seats_cards_empty(old(self).seats());
                let l = results_cards(r.0@).add(pile_cards(self.supply_piles()));
                assert forall|c: Card| l.count(c) == pile_cards(old(self).supply_piles()).count(c) by {
                    assert(results_cards(r.0@).add(self.all_cards()).count(c) == old(self).all_cards().count(c));
                }
                assert(l =~= pile_cards(old(self).supply_piles()));
            }
        }
        r
    }
}

/// Whether the cards of `s` are ordered by name.
pub open spec fn sorted_by_name(s: Seq<Card>) -> bool {
    forall|i: int, j: int|
        0 <= i < j < s.len() ==> (#[trigger] s[i]).name.index_spec() <= (#[trigger] s[j]).name.index_spec()
}

/// The same cards, ordered by name; cards of one name keep their order.
pub fn sort_by_name(cards: Vec<Card>) -> (r: Vec<Card>)
    ensures
        r@.to_multiset() == cards@.to_multiset(),
        sorted_by_name(r@),
{
    broadcast use {vstd::seq_lib::group_to_multiset_ensures, vstd::multiset::group_multiset_axioms};

    let mut rest = cards;
    let mut sorted: Vec<Card> = Vec::new();
    let mut k: usize = 0;
    while k < NAME_COUNT
        invariant
            k <= NAME_COUNT,
            sorted@.to_multiset().add(rest@.to_multiset()) == cards@.to_multiset(),
            sorted_by_name(sorted@),
            forall|i: int| 0 <= i < sorted@.len() ==> (#[trigger] sorted@[i]).name.index_spec() < k,
            forall|i: int| 0 <= i < rest@.len() ==> (#[trigger] rest@[i]).name.index_spec() >= k,
        decreases NAME_COUNT - k,
    {
        let mut keep: Vec<Card> = Vec::new();
        proof {
            keep@.to_multiset_ensures();
            assert(keep@.to_multiset() =~= Multiset::<Card>::empty());
            assert(sorted@.to_multiset().add(keep@.to_multiset()) =~= sorted@.to_multiset());
        }
        while rest.len() > 0
            invariant
                k < NAME_COUNT,
                sorted@.to_multiset().add(keep@.to_multiset()).add(rest@.to_multiset())
                    == cards@.to_multiset(),
                sorted_by_name(sorted@),
                forall|i: int| 0 <= i < sorted@.len() ==> (#[trigger] sorted@[i]).name.index_spec() <= k,
                forall|i: int| 0 <= i < keep@.len() ==> (#[trigger] keep@[i]).name.index_spec() > k,
                forall|i: int| 0 <= i < rest@.len() ==> (#[trigger] rest@[i]).name.index_spec() >= k,
            decreases rest@.len(),
        {
            let ghost r0 = rest@;
            let ghost s0 = sorted@;
            let ghost k0 = keep@;
            let c = rest.remove(0);
            proof {
                assert(rest@ =~= r0.remove(0));
                vstd::seq_lib::to_multiset_remove(r0, 0);
                r0.to_multiset_ensures();
                assert(r0.contains(r0[0]));
                assert(r0.to_multiset().count(c) > 0);
                assert(r0.to_multiset().remove(c).insert(c) =~= r0.to_multiset());
                assert forall|i: int| 0 <= i < rest@.len() implies (#[trigger] rest@[i]).name.index_spec() >= k by {
                    assert(rest@[i] == r0[i + 1]);
                }
            }
            if c.name.index() == k {
                sorted.push(c);
                proof {
                    vstd::seq_lib::to_multiset_build(s0, c);
                    assert(sorted@ == s0.push(c));
                    assert(sorted@.to_multiset() =~= s0.to_multiset().insert(c));
                    assert forall|i: int, j: int| 0 <= i < j < sorted@.len() implies (#[trigger] sorted@[i]).name.index_spec()
                        <= (#[trigger] sorted@[j]).name.index_spec() by {
                        if j < s0.len() {
                            assert(sorted@[i] == s0[i] && sorted@[j] == s0[j]);
                        } else {
                            assert(sorted@[i] == s0[i]);
                        }
                    }
                    assert forall|i: int| 0 <= i < sorted@.len() implies (#[trigger] sorted@[i]).name.index_spec() <= k by {
                        if i < s0.len() {
                            assert(sorted@[i] == s0[i]);
                        }
                    }
                    assert(sorted@.to_multiset().add(keep@.to_multiset()).add(rest@.to_multiset())
                        =~= cards@.to_multiset());
                }
            } else {
                keep.push(c);
                proof {
                    vstd::seq_lib::to_multiset_build(k0, c);
                    assert(keep@ == k0.push(c));
                    assert(keep@.to_multiset() =~= k0.to_multiset().insert(c));
                    assert forall|i: int| 0 <= i < keep@.len() implies (#[trigger] keep@[i]).name.index_spec() > k by {
                        if i < k0.len() {
                            assert(keep@[i] == k0[i]);
                        }
                    }
                    assert(sorted@.to_multiset().add(keep@.to_multiset()).add(rest@.to_multiset())
                        =~= cards@.to_multiset());
                }
            }
        }
        proof {
            assert(rest@ =~= Seq::<Card>::empty());
            rest@.to_multiset_ensures();
            assert(rest@.to_multiset() =~= Multiset::<Card>::empty());
            assert(sorted@.to_multiset().add(keep@.to_multiset()) =~= cards@.to_multiset());
        }
        rest = keep;
        k += 1;
    }
    proof {
        if rest@.len() > 0 {
            assert(rest@[0].name.index_spec() >= NAME_COUNT);
        }
        assert(rest@ =~= Seq::<Card>::empty());
        rest@.to_multiset_ensures();
        assert(rest@.to_multiset() =~= Multiset::<Card>::empty());
        assert(sorted@.to_multiset() =~= cards@.to_multiset());
    }
    sorted
}

proof fn lemma_piles_shrunk_refl(ps: Seq<PileView>)
    ensures
        piles_shrunk(ps, ps),
{
}

proof fn lemma_piles_shrunk_trans(a: Seq<PileView>, b: Seq<PileView>, c: Seq<PileView>)
    requires
        piles_shrunk(a, b),
        piles_shrunk(b, c),
    ensures
        piles_shrunk(a, c),
{
    assert forall|k: int| 0 <= k < a.len() implies (#[trigger] c[k]).0 == a[k].0 && c[k].1.len()
        <= a[k].1.len() by {
        assert(b[k].0 == a[k].0 && b[k].1.len() <= a[k].1.len());
    }
}

/// Taking cards from the pile topped by `name` only shrinks the supply.
proof fn lemma_take_shrinks(start: Seq<PileView>, before: Seq<PileView>, name: CardName, n: int)
    requires
        piles_shrunk(start, before),
        first_topped(before, name) >= 0,
        n >= 0,
    ensures
        ({
            let f = first_topped(before, name);
            piles_shrunk(start, before.update(f, (before[f].0, after_taking(before[f].1, n))))
        }),
{
    lemma_first_topped(before, name);
    let f = first_topped(before, name);
    let after = before.update(f, (before[f].0, after_taking(before[f].1, n)));
    assert forall|k: int| 0 <= k < start.len() implies (#[trigger] after[k]).0 == start[k].0
        && after[k].1.len() <= start[k].1.len() by {
        assert(before[k].0 == start[k].0 && before[k].1.len() <= start[k].1.len());
    }
}

/// A turn's trade only ever shrinks the supply and only ever adds to the
/// player's cards.
proof fn lemma_trade_shrinks(
    start: Seq<PileView>,
    before: Seq<PileView>,
    after: Seq<PileView>,
    owned_before: Multiset<Card>,
    owned_after: Multiset<Card>,
)
    requires
        piles_shrunk(start, before),
        turn_trade(before, after, owned_before, owned_after),
    ensures
        piles_shrunk(start, after),
        forall|m: Multiset<Card>| m.subset_of(owned_before) ==> m.subset_of(owned_after),
{
    broadcast use vstd::multiset::group_multiset_axioms;

    if !(after == before && owned_after == owned_before) {
        let k = choose|k: int|
            0 <= k < before.len() && before[k].1.len() > 0 && after == before.update(
                k,
                (before[k].0, before[k].1.drop_last()),
            ) && owned_after == owned_before.insert(#[trigger] before[k].1.last());
        assert forall|j: int| 0 <= j < start.len() implies (#[trigger] after[j]).0 == start[j].0
            && after[j].1.len() <= start[j].1.len() by {
            assert(before[j].0 == start[j].0 && before[j].1.len() <= start[j].1.len());
        }
        assert forall|m: Multiset<Card>| m.subset_of(owned_before) implies m.subset_of(owned_after) by {
            assert forall|c: Card| m.count(c) <= owned_after.count(c) by {
                assert(m.count(c) <= owned_before.count(c));
            }
        }
    }
}

/// Players who own nothing hold no cards between them.
proof fn lemma_seats_cards_empty<A, S: Shuffler>(seats: Seq<Seat<A, S>>)
    requires
        forall|j: int| 0 <= j < seats.len() ==> (#[trigger] seats[j]).area().owned() == Multiset::<Card>::empty(),
    ensures
        seats_cards(seats) == Multiset::<Card>::empty(),
    decreases seats.len(),
{
    if seats.len() > 0 {
        let t = seats.drop_last();
        assert forall|j: int| 0 <= j < t.len() implies (#[trigger] t[j]).area().owned() == Multiset::<Card>::empty() by {
            assert(t[j] == seats[j]);
        }
        lemma_seats_cards_empty(t);
        assert(seats[seats.len() - 1] == seats.last());
        assert(seats_cards(seats) =~= Multiset::<Card>::empty());
    }
}

/// Zones with no cards own nothing.
proof fn lemma_owned_empty<S: Shuffler>(a: PlayArea<S>)
    requires
        a.deck_cards().len() == 0,
        a.hand_cards().len() == 0,
        a.in_play_cards().len() == 0,
        a.discard_cards().len() == 0,
    ensures
        a.owned() == Multiset::<Card>::empty(),
{
    a.deck_cards().to_multiset_ensures();
    a.hand_cards().to_multiset_ensures();
    a.in_play_cards().to_multiset_ensures();
    a.discard_cards().to_multiset_ensures();
    assert(a.deck_cards().to_multiset() =~= Multiset::<Card>::empty());
    assert(a.hand_cards().to_multiset() =~= Multiset::<Card>::empty());
    assert(a.in_play_cards().to_multiset() =~= Multiset::<Card>::empty());
    assert(a.discard_cards().to_multiset() =~= Multiset::<Card>::empty());
    assert(a.owned() =~= Multiset::<Card>::empty());
}

/// A player owns as many cards as its four zones hold.
proof fn lemma_owned_len<S: Shuffler>(a: PlayArea<S>)
    ensures
        a.owned().len() == a.deck_cards().len() + a.hand_cards().len() + a.in_play_cards().len()
            + a.discard_cards().len(),
{
    a.deck_cards().to_multiset_ensures();
    a.hand_cards().to_multiset_ensures();
    a.in_play_cards().to_multiset_ensures();
    a.discard_cards().to_multiset_ensures();
}

proof fn lemma_vp_total_nonneg(s: Seq<Card>)
    ensures
        vp_total(s) >= 0,
    decreases s.len(),
{
    if s.len() > 0 {
        lemma_vp_total_nonneg(s.drop_last());
    }
}

} // verus!
