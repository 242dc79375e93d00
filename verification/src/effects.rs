//! Lists of effects, as a character or the environment holds them, and what the passing
//! of rounds does to them.

use vstd::prelude::*;
use crate::effect::{Effect, EffectView};

verus! {

/// The effects of a list, each as plain values, in the list's order.
pub open spec fn effect_views(effects: Seq<Effect>) -> Seq<EffectView> {
    effects.map_values(|e: Effect| e@)
}

/// Every effect of the list one round later.
pub open spec fn aged_all(effects: Seq<EffectView>) -> Seq<EffectView> {
    effects.map_values(|e: EffectView| e.aged())
}

/// The effects of the list that have a round left, in the list's order.
pub open spec fn active_only(effects: Seq<EffectView>) -> Seq<EffectView> {
    effects.filter(|e: EffectView| e.is_active())
}

/// Whether every effect of the list has a round left.
pub open spec fn all_active(effects: Seq<EffectView>) -> bool {
    forall|i: int| #![trigger effects[i]] 0 <= i < effects.len() ==> effects[i].is_active()
}

/// The list one round later: every effect is aged, then the expired ones leave.
pub open spec fn after_round(effects: Seq<EffectView>) -> Seq<EffectView> {
    active_only(aged_all(effects))
}

/// The list after a number of rounds, one after the other.
pub open spec fn after_rounds(effects: Seq<EffectView>, rounds: nat) -> Seq<EffectView>
    decreases rounds,
{
    if rounds == 0 {
        effects
    } else {
        after_round(after_rounds(effects, (rounds - 1) as nat))
    }
}

/// The effects of the list that have more rounds left than `rounds`, each with `rounds`
/// rounds fewer, in the list's order.
pub open spec fn outlasting(effects: Seq<EffectView>, rounds: nat) -> Seq<EffectView> {
    effects.filter(|e: EffectView| e.outlasts(rounds)).map_values(
        |e: EffectView| e.aged_by(rounds),
    )
}

/// No effect without a round left is in what `active_only` keeps.
pub proof fn lemma_active_only_all_active(effects: Seq<EffectView>)
    ensures
        all_active(active_only(effects)),
{
    let active = active_only(effects);
    assert forall|i: int|
        #![trigger active[i]]
        0 <= i < active.len() implies active[i].is_active() by {
        effects.lemma_filter_pred(|e: EffectView| e.is_active(), i);
    }
}

/// No effect without a round left stays in a list when a round has passed.
pub proof fn lemma_after_round_all_active(effects: Seq<EffectView>)
    ensures
        all_active(after_round(effects)),
{
    lemma_active_only_all_active(aged_all(effects));
}

/// What one more effect at the end of a list adds to the list one round later.
proof fn lemma_after_round_push(effects: Seq<EffectView>, effect: EffectView)
    ensures
        after_round(effects.push(effect)) == if effect.duration > 1 {
            after_round(effects).push(effect.aged())
        } else {
            after_round(effects)
        },
{
    assert(aged_all(effects.push(effect)) =~= aged_all(effects).push(effect.aged()));
    aged_all(effects).lemma_filter_push(effect.aged(), |e: EffectView| e.is_active());
}

/// What one more effect at the end of a list adds to those that outlast some rounds.
proof fn lemma_outlasting_push(effects: Seq<EffectView>, effect: EffectView, rounds: nat)
    ensures
        outlasting(effects.push(effect), rounds) == if effect.duration > rounds {
            outlasting(effects, rounds).push(effect.aged_by(rounds))
        } else {
            outlasting(effects, rounds)
        },
{
    let lasts = |e: EffectView| e.outlasts(rounds);
    effects.lemma_filter_push(effect, lasts);
    if effect.duration > rounds {
        assert(outlasting(effects.push(effect), rounds) =~= outlasting(effects, rounds).push(
            effect.aged_by(rounds),
        ));
    }
}

/// After one round the effects left are those that had more than one round, each with
/// one round fewer.
pub proof fn lemma_one_round(effects: Seq<EffectView>)
    ensures
        after_round(effects) == outlasting(effects, 1),
    decreases effects.len(),
{
    if effects.len() == 0 {
        effects.lemma_filter_len(|e: EffectView| e.outlasts(1));
        aged_all(effects).lemma_filter_len(|e: EffectView| e.is_active());
        assert(after_round(effects) =~= outlasting(effects, 1));
    } else {
        let rest = effects.drop_last();
        let last = effects.last();
        assert(rest.push(last) =~= effects);
        lemma_one_round(rest);
        lemma_after_round_push(rest, last);
        lemma_outlasting_push(rest, last, 1);
        assert(last.aged() == last.aged_by(1));
    }
}

/// One round more for the effects that outlast some rounds leaves those that outlast one
/// round more.
proof fn lemma_round_of_outlasting(effects: Seq<EffectView>, rounds: nat)
    ensures
        after_round(outlasting(effects, rounds)) == outlasting(effects, rounds + 1),
    decreases effects.len(),
{
    if effects.len() == 0 {
        effects.lemma_filter_len(|e: EffectView| e.outlasts(rounds));
        effects.lemma_filter_len(|e: EffectView| e.outlasts(rounds + 1));
        let none = outlasting(effects, rounds);
        assert(none.len() == 0);
        aged_all(none).lemma_filter_len(|e: EffectView| e.is_active());
        assert(after_round(none) =~= outlasting(effects, rounds + 1));
    } else {
        let rest = effects.drop_last();
        let last = effects.last();
        assert(rest.push(last) =~= effects);
        lemma_round_of_outlasting(rest, rounds);
        lemma_outlasting_push(rest, last, rounds);
        lemma_outlasting_push(rest, last, rounds + 1);
        if last.duration > rounds {
            lemma_after_round_push(outlasting(rest, rounds), last.aged_by(rounds));
            assert(last.aged_by(rounds).aged() == last.aged_by(rounds + 1));
        }
    }
}

/// After one round or more, the effects left are those that had more rounds than have
/// passed, each with as many rounds fewer. So an effect of duration `d` is there after
/// `d - 1` rounds and gone after `d`, and one of duration zero is gone after the first.
pub proof fn lemma_after_rounds(effects: Seq<EffectView>, rounds: nat)
    requires
        rounds >= 1,
    ensures
        after_rounds(effects, rounds) == outlasting(effects, rounds),
    decreases rounds,
{
    if rounds == 1 {
        assert(after_rounds(effects, 0) == effects);
        lemma_one_round(effects);
    } else {
        lemma_after_rounds(effects, (rounds - 1) as nat);
        lemma_round_of_outlasting(effects, (rounds - 1) as nat);
    }
}

/// Lets one round pass for every effect of the list.
pub(crate) fn age_effects(effects: &mut Vec<Effect>)
    ensures
        effect_views(final(effects)@) == aged_all(effect_views(old(effects)@)),
{
    let mut i: usize = 0;
    while i < effects.len()
        invariant
            effects.len() == old(effects).len(),
            i <= effects.len(),
            forall|j: int|
                #![trigger effects@[j]]
                0 <= j < i ==> effects@[j]@ == old(effects)@[j]@.aged(),
            forall|j: int|
                #![trigger effects@[j]]
                i <= j < effects.len() ==> effects@[j] == old(effects)@[j],
        decreases effects.len() - i,
    {
        effects[i].decrement_duration();
        i += 1;
    }
    assert(effect_views(effects@) =~= aged_all(effect_views(old(effects)@)));
}

/// Removes the effects that have no round left; the others keep their order.
pub(crate) fn drop_expired(effects: &mut Vec<Effect>)
    ensures
        effect_views(final(effects)@) == active_only(effect_views(old(effects)@)),
{
    let mut all: Vec<Effect> = Vec::new();
    std::mem::swap(effects, &mut all);
    let ghost before = all@;
    for effect in it: all
        invariant
            it.seq() == before,
            effect_views(effects@) == active_only(effect_views(before.take(it.index()))),
    {
        proof {
            let seen = before.take(it.index());
            assert(before.take(it.index() + 1) =~= seen.push(effect));
            assert(effect_views(seen.push(effect)) =~= effect_views(seen).push(effect@));
            effect_views(seen).lemma_filter_push(effect@, |e: EffectView| e.is_active());
        }
        if effect.duration != 0 {
            let ghost kept = effects@;
            effects.push(effect);
            assert(effect_views(effects@) =~= effect_views(kept).push(effect@));
        }
    }
    assert(before.take(before.len() as int) =~= before);
}

} // verus!
