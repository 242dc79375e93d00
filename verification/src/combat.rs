//! The encounter: a round counter, the roster in turn order, and the effects of the
//! environment.

use vstd::prelude::*;
use crate::character::{Character, CharacterView};
use crate::effect::{Effect, EffectView};
use crate::effects::{
    after_round, after_rounds, age_effects, all_active, drop_expired, effect_views,
    lemma_after_round_all_active, lemma_after_rounds, outlasting,
};
use crate::roster::{
    character_views, has_distinct_initiatives, is_ranked, is_ranking_of, is_strictly_ranked,
    lemma_distinct_initiatives_rank_strictly, lemma_order_is_immaterial,
    lemma_ranking_is_unique, lemma_ranking_keeps_characters, lemma_ranking_of_ranked,
    lemma_ranking_of_ranked_push, lemma_ranking_ranks, rank, ranking,
};

verus! {

/// An encounter. The roster is in turn order as of the last addition: a change of
/// initiative made afterwards moves nobody until `sort_characters` is called or the next
/// character is added.
#[derive(Debug)]
pub struct Combat {
    pub round: u8,
    pub characters: Vec<Character>,
    pub environ: Vec<Effect>,
}

/// What an encounter is, as plain mathematical values.
pub struct CombatView {
    pub round: nat,
    pub characters: Seq<CharacterView>,
    pub environ: Seq<EffectView>,
}

impl CombatView {
    /// The encounter before anything has happened.
    pub open spec fn start() -> CombatView {
        CombatView { round: 0, characters: Seq::empty(), environ: Seq::empty() }
    }

    /// The encounter with `effect` added behind the effects of the environment.
    pub open spec fn with_environ(self, effect: EffectView) -> CombatView {
        CombatView { environ: self.environ.push(effect), ..self }
    }

    /// The encounter with its roster put in order.
    pub open spec fn ranked(self) -> CombatView {
        CombatView { characters: ranking(self.characters), ..self }
    }

    /// The encounter with `character` added and the roster put in order.
    pub open spec fn with_character(self, character: CharacterView) -> CombatView {
        CombatView { characters: ranking(self.characters.push(character)), ..self }
    }

    /// The encounter with the characters of `added` added one after the other.
    pub open spec fn with_characters(self, added: Seq<CharacterView>) -> CombatView
        decreases added.len(),
    {
        if added.len() == 0 {
            self
        } else {
            self.with_characters(added.drop_last()).with_character(added.last())
        }
    }

    /// The encounter one round later: the counter is one higher, every character is one
    /// round later, and the effects of the environment are aged and the expired ones gone.
    pub open spec fn after_round(self) -> CombatView {
        CombatView {
            round: self.round + 1,
            characters: self.characters.map_values(|c: CharacterView| c.after_round()),
            environ: after_round(self.environ),
        }
    }

    /// The encounter after a number of rounds, one after the other.
    pub open spec fn after_rounds(self, rounds: nat) -> CombatView
        decreases rounds,
    {
        if rounds == 0 {
            self
        } else {
            self.after_rounds((rounds - 1) as nat).after_round()
        }
    }

    /// Whether no effect of the environment or of a character is without a round left.
    pub open spec fn all_effects_active(self) -> bool {
        &&& all_active(self.environ)
        &&& forall|i: int|
            #![trigger self.characters[i]]
            0 <= i < self.characters.len() ==> all_active(self.characters[i].effects)
    }
}

impl View for Combat {
    type V = CombatView;

    open spec fn view(&self) -> CombatView {
        CombatView {
            round: self.round as nat,
            characters: character_views(self.characters@),
            environ: effect_views(self.environ@),
        }
    }
}

/// After any run of additions to an encounter whose roster was in order, the roster is
/// the ranking of those that were there and those that were added: by descending
/// initiative, and those of equal initiative in the order they had and were added in.
/// Nothing else changes.
pub proof fn lemma_with_characters(combat: CombatView, added: Seq<CharacterView>)
    requires
        is_ranked(combat.characters) || added.len() > 0,
    ensures
        combat.with_characters(added).characters == ranking(combat.characters + added),
        is_ranking_of(combat.with_characters(added).characters, combat.characters + added),
        combat.with_characters(added).round == combat.round,
        combat.with_characters(added).environ == combat.environ,
    decreases added.len(),
{
    let all = combat.characters + added;
    lemma_ranking_ranks(all);
    if added.len() == 0 {
        assert(all =~= combat.characters);
        lemma_ranking_of_ranked(combat.characters);
    } else {
        let earlier = added.drop_last();
        let before = combat.characters + earlier;
        assert(before.push(added.last()) =~= all);
        if earlier.len() == 0 {
            assert(before =~= combat.characters);
            assert(combat.with_characters(earlier) == combat);
        } else {
            lemma_with_characters(combat, earlier);
            lemma_ranking_of_ranked_push(before, added.last());
        }
    }
}

/// Characters of distinct initiatives stand in strictly descending order after their
/// addition to an empty roster, whatever the order in which they were added, and all of
/// them are there.
pub proof fn lemma_distinct_additions_rank_strictly(added: Seq<CharacterView>)
    requires
        has_distinct_initiatives(added),
    ensures
        is_strictly_ranked(CombatView::start().with_characters(added).characters),
        CombatView::start().with_characters(added).characters.to_multiset()
            == added.to_multiset(),
        CombatView::start().with_characters(added).characters.len() == added.len(),
{
    let roster = CombatView::start().with_characters(added).characters;
    lemma_with_characters(CombatView::start(), added);
    assert(CombatView::start().characters + added =~= added);
    lemma_distinct_initiatives_rank_strictly(roster, added);
    lemma_ranking_keeps_characters(roster, added);
}

/// The same holds of additions to a roster that has characters already, as long as no
/// two of all of them have the same initiative.
pub proof fn lemma_distinct_additions_to_any_roster(combat: CombatView, added: Seq<CharacterView>)
    requires
        is_ranked(combat.characters) || added.len() > 0,
        has_distinct_initiatives(combat.characters + added),
    ensures
        is_strictly_ranked(combat.with_characters(added).characters),
        combat.with_characters(added).characters.to_multiset() == (combat.characters
            + added).to_multiset(),
{
    let roster = combat.with_characters(added).characters;
    lemma_with_characters(combat, added);
    lemma_distinct_initiatives_rank_strictly(roster, combat.characters + added);
    lemma_ranking_keeps_characters(roster, combat.characters + added);
}

/// Characters of distinct initiatives end in the same order whatever the order in which
/// they were added.
pub proof fn lemma_order_of_addition_is_immaterial(
    first: Seq<CharacterView>,
    second: Seq<CharacterView>,
)
    requires
        has_distinct_initiatives(first),
        first.to_multiset() == second.to_multiset(),
    ensures
        CombatView::start().with_characters(first) == CombatView::start().with_characters(second),
{
    lemma_with_characters(CombatView::start(), first);
    lemma_with_characters(CombatView::start(), second);
    assert(CombatView::start().characters + first =~= first);
    assert(CombatView::start().characters + second =~= second);
    lemma_order_is_immaterial(first, second);
}

/// A round leaves no effect without a round left, in the environment or on a character.
pub proof fn lemma_after_round_all_effects_active(combat: CombatView)
    ensures
        combat.after_round().all_effects_active(),
{
    lemma_after_round_all_active(combat.environ);
    let later = combat.after_round().characters;
    assert forall|i: int| #![trigger later[i]] 0 <= i < later.len() implies all_active(
        later[i].effects,
    ) by {
        lemma_after_round_all_active(combat.characters[i].effects);
    }
}

/// Rounds add up: each one counts once, the roster keeps its characters and their order,
/// and every list of effects is what that many rounds leave of it.
pub proof fn lemma_after_rounds_by_parts(combat: CombatView, rounds: nat)
    ensures
        combat.after_rounds(rounds).round == combat.round + rounds,
        combat.after_rounds(rounds).environ == after_rounds(combat.environ, rounds),
        combat.after_rounds(rounds).characters == combat.characters.map_values(
            |c: CharacterView| c.after_rounds(rounds),
        ),
    decreases rounds,
{
    if rounds == 0 {
        assert(combat.characters =~= combat.characters.map_values(
            |c: CharacterView| c.after_rounds(0),
        ));
    } else {
        let earlier = combat.after_rounds((rounds - 1) as nat);
        lemma_after_rounds_by_parts(combat, (rounds - 1) as nat);
        assert(earlier.after_round().characters =~= combat.characters.map_values(
            |c: CharacterView| c.after_rounds(rounds),
        ));
    }
}

/// After one round or more, the effects left anywhere in the encounter are those that
/// had more rounds than have passed, each with as many rounds fewer.
pub proof fn lemma_after_rounds_outlasting(combat: CombatView, rounds: nat)
    requires
        rounds >= 1,
    ensures
        combat.after_rounds(rounds).environ == outlasting(combat.environ, rounds),
        combat.after_rounds(rounds).characters == combat.characters.map_values(
            |c: CharacterView| c.with_effects(outlasting(c.effects, rounds)),
        ),
{
    lemma_after_rounds_by_parts(combat, rounds);
    lemma_after_rounds(combat.environ, rounds);
    let roster = combat.characters;
    assert forall|i: int|
        #![trigger roster[i]]
        0 <= i < roster.len() implies roster[i].after_rounds(rounds) == roster[i].with_effects(
        outlasting(roster[i].effects, rounds),
    ) by {
        lemma_after_rounds(roster[i].effects, rounds);
    }
    assert(combat.after_rounds(rounds).characters =~= combat.characters.map_values(
        |c: CharacterView| c.with_effects(outlasting(c.effects, rounds)),
    ));
}

impl Combat {
    /// An encounter at round zero, without characters or effects.
    pub fn new() -> (combat: Combat)
        ensures
            combat@ == CombatView::start(),
    {
        let combat = Combat { round: 0, characters: Vec::new(), environ: Vec::new() };
        assert(combat@.characters =~= Seq::empty());
        assert(combat@.environ =~= Seq::empty());
        combat
    }

    /// Adds `effect` behind the effects of the environment.
    pub fn add_environ(&mut self, effect: Effect)
        ensures
            final(self)@ == old(self)@.with_environ(effect@),
    {
        self.environ.push(effect);
        assert(effect_views(self.environ@) =~= effect_views(old(self).environ@).push(effect@));
    }

    /// Adds `new_char` to the roster and puts the whole roster in turn order: higher
    /// initiative first, and characters of equal initiative in the order they had, the new
    /// one last among its equals.
    pub fn add_char(&mut self, new_char: Character)
        ensures
            final(self)@ == old(self)@.with_character(new_char@),
            is_ranking_of(final(self)@.characters, old(self)@.characters.push(new_char@)),
            is_ranked(final(self)@.characters),
            final(self).characters.len() == old(self).characters.len() + 1,
    {
        self.characters.push(new_char);
        assert(character_views(self.characters@) =~= character_views(old(self).characters@).push(
            new_char@,
        ));
        rank(&mut self.characters);
        proof {
            lemma_ranking_is_unique(self@.characters, old(self)@.characters.push(new_char@));
        }
    }

    /// Puts the roster in turn order, as an addition does. For use after a change of
    /// initiative.
    pub fn sort_characters(&mut self)
        ensures
            final(self)@ == old(self)@.ranked(),
            is_ranking_of(final(self)@.characters, old(self)@.characters),
            is_ranked(final(self)@.characters),
            final(self).characters.len() == old(self).characters.len(),
    {
        rank(&mut self.characters);
        proof {
            lemma_ranking_is_unique(self@.characters, old(self)@.characters);
        }
    }

    /// Lets one round pass for the whole encounter: the counter goes up by one, every
    /// character's effects and those of the environment are aged, and the expired ones are
    /// removed. The counter has no room for a round after the 255th.
    pub fn next_round(&mut self)
        requires
            old(self).round < u8::MAX,
        ensures
            final(self)@ == old(self)@.after_round(),
            final(self).round == old(self).round + 1,
            final(self)@.all_effects_active(),
    {
        self.round = self.round + 1;
        let ghost before = old(self).characters@;
        let mut i: usize = 0;
        while i < self.characters.len()
            invariant
                self.round == old(self).round + 1,
                self.environ == old(self).environ,
                before == old(self).characters@,
                self.characters.len() == before.len(),
                i <= self.characters.len(),
                forall|j: int|
                    #![trigger self.characters@[j]]
                    0 <= j < i ==> self.characters@[j]@ == before[j]@.after_round(),
                forall|j: int|
                    #![trigger self.characters@[j]]
                    i <= j < self.characters.len() ==> self.characters@[j] == before[j],
            decreases self.characters.len() - i,
        {
            self.characters[i].new_round();
            i += 1;
        }
        age_effects(&mut self.environ);
        drop_expired(&mut self.environ);
        proof {
            assert(self@.characters =~= old(self)@.after_round().characters);
            lemma_after_round_all_effects_active(old(self)@);
        }
    }
}

} // verus!
