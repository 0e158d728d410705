use vstd::prelude::*;

verus! {

/// What happens when a card is played. A sequence runs its members in order.
#[derive(Debug, PartialEq, Eq)]
pub enum CardEffect {
    Nothing,
    Sequence(Vec<CardEffect>),
    AddActions(u8),
    AddCoins(u8),
    DrawCards(u8),
}

#[derive(Debug, Clone, Copy, PartialEq, Eq)]
pub struct TrashInstruction {
    pub min_cards_to_trash: u8,
    pub max_cards_to_trash: u8,
}

/// Actions granted by an effect, summed over every nested member.
pub open spec fn effect_actions(e: CardEffect) -> int
    decreases e, 1nat,
{
    match e {
        CardEffect::Sequence(v) => effects_actions(v@),
        CardEffect::AddActions(n) => n as int,
        _ => 0,
    }
}

pub open spec fn effects_actions(s: Seq<CardEffect>) -> int
    decreases s, 0nat,
{
    if s.len() == 0 {
        0
    } else {
        effects_actions(s.drop_last()) + effect_actions(s.last())
    }
}

/// Coins granted by an effect, summed over every nested member.
pub open spec fn effect_coins(e: CardEffect) -> int
    decreases e, 1nat,
{
    match e {
        CardEffect::Sequence(v) => effects_coins(v@),
        CardEffect::AddCoins(n) => n as int,
        _ => 0,
    }
}

pub open spec fn effects_coins(s: Seq<CardEffect>) -> int
    decreases s, 0nat,
{
    if s.len() == 0 {
        0
    } else {
        effects_coins(s.drop_last()) + effect_coins(s.last())
    }
}

/// Cards an effect asks to draw, summed over every nested member.
pub open spec fn effect_draws(e: CardEffect) -> int
    decreases e, 1nat,
{
    match e {
        CardEffect::Sequence(v) => effects_draws(v@),
        CardEffect::DrawCards(n) => n as int,
        _ => 0,
    }
}

pub open spec fn effects_draws(s: Seq<CardEffect>) -> int
    decreases s, 0nat,
{
    if s.len() == 0 {
        0
    } else {
        effects_draws(s.drop_last()) + effect_draws(s.last())
    }
}

/// The amounts of the `DrawCards` in an effect, in the order they run.
pub open spec fn effect_draw_list(e: CardEffect) -> Seq<int>
    decreases e, 1nat,
{
    match e {
        CardEffect::Sequence(v) => effects_draw_list(v@),
        CardEffect::DrawCards(n) => seq![n as int],
        _ => Seq::empty(),
    }
}

pub open spec fn effects_draw_list(s: Seq<CardEffect>) -> Seq<int>
    decreases s, 0nat,
{
    if s.len() == 0 {
        Seq::empty()
    } else {
        effects_draw_list(s.drop_last()) + effect_draw_list(s.last())
    }
}

pub proof fn lemma_totals_nonneg(e: CardEffect)
    ensures
        effect_actions(e) >= 0,
        effect_coins(e) >= 0,
        effect_draws(e) >= 0,
    decreases e, 1nat,
{
    if let CardEffect::Sequence(v) = e {
        lemma_seq_totals_nonneg(v@);
    }
}

pub proof fn lemma_seq_totals_nonneg(s: Seq<CardEffect>)
    ensures
        effects_actions(s) >= 0,
        effects_coins(s) >= 0,
        effects_draws(s) >= 0,
    decreases s, 0nat,
{
    if s.len() > 0 {
        lemma_seq_totals_nonneg(s.drop_last());
        lemma_totals_nonneg(s.last());
    }
}

/// The totals of the first `i + 1` members of a sequence are those of the
/// first `i` plus member `i`, and never exceed the totals of the whole.
pub proof fn lemma_effects_prefix(s: Seq<CardEffect>, i: int)
    requires
        0 <= i < s.len(),
    ensures
        effects_actions(s.subrange(0, i + 1)) == effects_actions(s.subrange(0, i)) + effect_actions(s[i]),
        effects_coins(s.subrange(0, i + 1)) == effects_coins(s.subrange(0, i)) + effect_coins(s[i]),
        effects_draws(s.subrange(0, i + 1)) == effects_draws(s.subrange(0, i)) + effect_draws(s[i]),
        effects_actions(s.subrange(0, i + 1)) <= effects_actions(s),
        effects_coins(s.subrange(0, i + 1)) <= effects_coins(s),
    decreases s.len() - i,
{
    assert(s.subrange(0, i + 1).drop_last() =~= s.subrange(0, i));
    assert(s.subrange(0, i + 1).last() == s[i]);
    if i + 1 == s.len() {
        assert(s.subrange(0, i + 1) =~= s);
    } else {
        lemma_effects_prefix(s, i + 1);
        lemma_totals_nonneg(s[i + 1]);
    }
}

/// What is left of `actions_room` and `coins_room` once `e` has granted
/// its actions and coins, or `None` when it grants more than that.
pub fn room_after(e: &CardEffect, actions_room: u8, coins_room: u8) -> (r: Option<(u8, u8)>)
    ensures
        r is Some <==> (effect_actions(*e) <= actions_room && effect_coins(*e) <= coins_room),
        r matches Some((a, c)) ==> a == actions_room - effect_actions(*e) && c == coins_room
            - effect_coins(*e),
    decreases e,
{
    proof {
        lemma_totals_nonneg(*e);
    }
    match e {
        CardEffect::Sequence(s) => {
            let mut a = actions_room;
            let mut c = coins_room;
            let mut i: usize = 0;
            proof {
                assert(s@.subrange(0, 0) =~= Seq::<CardEffect>::empty());
            }
            while i < s.len()
                invariant
                    *e == CardEffect::Sequence(*s),
                    i <= s@.len(),
                    a == actions_room - effects_actions(s@.subrange(0, i as int)),
                    c == coins_room - effects_coins(s@.subrange(0, i as int)),
                decreases s@.len() - i,
            {
                proof {
                    let v = *s;
                    assert(decreases_to!(*e => (*e)->Sequence_0));
                    assert((*e)->Sequence_0 == v);
                    assert(decreases_to!(v => v@));
                    assert(decreases_to!(v@ => v@[i as int]));
                    assert(s@.subrange(0, i + 1).drop_last() =~= s@.subrange(0, i as int));
                    assert(s@.subrange(0, i + 1).last() == s@[i as int]);
                    lemma_seq_totals_nonneg(s@.subrange(0, i as int));
                    lemma_totals_nonneg(s@[i as int]);
                }
                match room_after(&s[i], a, c) {
                    Some((a2, c2)) => {
                        a = a2;
                        c = c2;
                    },
                    None => {
                        proof {
                            lemma_effects_prefix(s@, i as int);
                        }
                        return None;
                    },
                }
                i += 1;
            }
            proof {
                assert(s@.subrange(0, i as int) =~= s@);
            }
            Some((a, c))
        },
        CardEffect::AddActions(n) => {
            if *n <= actions_room {
                Some((actions_room - *n, coins_room))
            } else {
                None
            }
        },
        CardEffect::AddCoins(n) => {
            if *n <= coins_room {
                Some((actions_room, coins_room - *n))
            } else {
                None
            }
        },
        _ => Some((actions_room, coins_room)),
    }
}

} // verus!
