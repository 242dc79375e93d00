//! Combatants: a name, an initiative score and the effects that act on them.

use vstd::prelude::*;
use vstd::std_specs::iter::IteratorSpec;
use crate::effect::{effect_from_tokens, texts, token_texts, Effect, EffectError, EffectView};
use crate::effects::{
    active_only, after_round, after_rounds, age_effects, all_active, drop_expired, effect_views,
    lemma_active_only_all_active, lemma_after_round_all_active,
};

verus! {

/// A combatant. Names need not be unique; a higher initiative acts earlier.
#[derive(Debug, PartialEq, Eq)]
pub struct Character {
    pub name: String,
    pub initiative: u8,
    pub effects: Vec<Effect>,
}

/// What a character is, as plain mathematical values.
pub struct CharacterView {
    pub name: Seq<char>,
    pub initiative: nat,
    pub effects: Seq<EffectView>,
}

impl CharacterView {
    /// The character with other effects.
    pub open spec fn with_effects(self, effects: Seq<EffectView>) -> CharacterView {
        CharacterView { effects, ..self }
    }

    /// The character with `effect` added behind the effects it has.
    pub open spec fn with_effect(self, effect: EffectView) -> CharacterView {
        self.with_effects(self.effects.push(effect))
    }

    /// The character with another initiative.
    pub open spec fn with_initiative(self, initiative: nat) -> CharacterView {
        CharacterView { initiative, ..self }
    }

    /// The character without the effects that have no round left.
    pub open spec fn without_expired(self) -> CharacterView {
        self.with_effects(active_only(self.effects))
    }

    /// The character one round later: every effect is aged, then the expired ones leave.
    pub open spec fn after_round(self) -> CharacterView {
        self.with_effects(after_round(self.effects))
    }

    /// The character after a number of rounds.
    pub open spec fn after_rounds(self, rounds: nat) -> CharacterView {
        self.with_effects(after_rounds(self.effects, rounds))
    }
}

impl View for Character {
    type V = CharacterView;

    open spec fn view(&self) -> CharacterView {
        CharacterView {
            name: self.name@,
            initiative: self.initiative as nat,
            effects: effect_views(self.effects@),
        }
    }
}

impl Character {
    /// A character without effects. Every name and every initiative is accepted.
    pub fn new(name: &str, init: u8) -> (r: Result<Character, &'static str>)
        ensures
            r matches Ok(character) && character@ == (CharacterView {
                name: name@,
                initiative: init as nat,
                effects: Seq::empty(),
            }),
    {
        let character = Character { name: name.to_owned(), initiative: init, effects: Vec::new() };
        assert(character@.effects =~= Seq::empty());
        Ok(character)
    }

    /// Overwrites the initiative. A roster that holds the character is not put in order
    /// again by this.
    pub fn change_init(&mut self, new_init: u8)
        ensures
            final(self)@ == old(self)@.with_initiative(new_init as nat),
    {
        self.initiative = new_init;
    }

    /// Builds an effect from the first three strings of `effect_vec` and adds it behind the
    /// effects the character has. Where no effect can be built the character stays as it is.
    pub fn add_new_effect(&mut self, effect_vec: &Vec<String>) -> (r: Result<(), EffectError>)
        ensures
            match effect_from_tokens(texts(effect_vec@)) {
                Ok(effect) => r is Ok && final(self)@ == old(self)@.with_effect(effect),
                Err(error) => r == Err::<(), EffectError>(error) && *final(self) == *old(self),
            },
    {
        let tokens = effect_vec.iter();
        assert(token_texts(tokens.remaining()) =~= texts(effect_vec@));
        match Effect::new(tokens) {
            Ok(effect) => {
                self.add_effect(effect);
                Ok(())
            },
            Err(error) => Err(error),
        }
    }

    /// Adds `effect` behind the effects the character has.
    pub fn add_effect(&mut self, effect: Effect)
        ensures
            final(self)@ == old(self)@.with_effect(effect@),
    {
        self.effects.push(effect);
        assert(effect_views(self.effects@) =~= effect_views(old(self).effects@).push(effect@));
    }

    /// Removes the effects that have no round left; the others keep their order.
    pub fn rm_old_effects(&mut self)
        ensures
            final(self)@ == old(self)@.without_expired(),
            all_active(final(self)@.effects),
    {
        drop_expired(&mut self.effects);
        proof {
            lemma_active_only_all_active(old(self)@.effects);
        }
    }

    /// Lets one round pass: every effect is aged, then the expired ones are removed.
    pub fn new_round(&mut self)
        ensures
            final(self)@ == old(self)@.after_round(),
            all_active(final(self)@.effects),
    {
        age_effects(&mut self.effects);
        self.rm_old_effects();
        proof {
            lemma_after_round_all_active(old(self)@.effects);
        }
    }
}

} // verus!
