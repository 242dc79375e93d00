//! Timed effects: a description, a free-text modifier and the rounds that remain.

use vstd::prelude::*;
use vstd::std_specs::iter::IteratorSpec;
use crate::duration::{
    decimal_text, is_digit, lemma_decimal_text_parses, lemma_not_a_number, parse_duration,
    parse_duration_spec,
};

verus! {

/// One of the three tokens that an effect is built from, in the order they are read.
#[derive(Debug, Clone, Copy, PartialEq, Eq, Structural)]
pub enum EffectField {
    Description,
    Modifier,
    Duration,
}

/// Why an effect could not be built from its tokens.
#[derive(Debug, Clone, Copy, PartialEq, Eq, Structural)]
pub enum EffectError {
    /// The tokens ran out before this field was read.
    MissingField(EffectField),
    /// The duration token is not a decimal number from 0 to 255.
    InvalidDuration,
}

impl EffectError {
    /// The text of the message that describes the error.
    pub open spec fn message_text(self) -> Seq<char> {
        match self {
            EffectError::MissingField(EffectField::Description) => "Didn't get description string"@,
            EffectError::MissingField(EffectField::Modifier) => "Didn't get modifier string"@,
            EffectError::MissingField(EffectField::Duration) => "Didn't get duration string"@,
            EffectError::InvalidDuration => "Duration must be a non-negative integer."@,
        }
    }

    /// A message that describes the error, to show to a user.
    pub fn message(&self) -> (text: &'static str)
        ensures
            text@ == self.message_text(),
    {
        match self {
            EffectError::MissingField(EffectField::Description) => "Didn't get description string",
            EffectError::MissingField(EffectField::Modifier) => "Didn't get modifier string",
            EffectError::MissingField(EffectField::Duration) => "Didn't get duration string",
            EffectError::InvalidDuration => "Duration must be a non-negative integer.",
        }
    }
}

/// A timed modifier that is attached to a character or to the environment.
#[derive(Debug, PartialEq, Eq)]
pub struct Effect {
    pub description: String,
    pub modifier: String,
    pub duration: u8,
}

/// What an effect is, as plain mathematical values.
pub struct EffectView {
    pub description: Seq<char>,
    pub modifier: Seq<char>,
    pub duration: nat,
}

impl EffectView {
    /// The effect one round later: one round less remains, and none can be taken from zero.
    pub open spec fn aged(self) -> EffectView {
        EffectView {
            duration: if self.duration > 0 { (self.duration - 1) as nat } else { 0 },
            ..self
        }
    }

    /// The effect `rounds` rounds later.
    pub open spec fn aged_by(self, rounds: nat) -> EffectView {
        EffectView {
            duration: if self.duration > rounds { (self.duration - rounds) as nat } else { 0 },
            ..self
        }
    }

    /// Whether any round remains.
    pub open spec fn is_active(self) -> bool {
        self.duration > 0
    }

    /// Whether the effect has more rounds left than `rounds`.
    pub open spec fn outlasts(self, rounds: nat) -> bool {
        self.duration > rounds
    }
}

impl View for Effect {
    type V = EffectView;

    open spec fn view(&self) -> EffectView {
        EffectView {
            description: self.description@,
            modifier: self.modifier@,
            duration: self.duration as nat,
        }
    }
}

/// What building an effect from `tokens` gives: the first field that is missing, else an
/// invalid duration, else the effect that the first three tokens describe.
pub open spec fn effect_from_tokens(tokens: Seq<Seq<char>>) -> Result<EffectView, EffectError> {
    if tokens.len() < 1 {
        Err(EffectError::MissingField(EffectField::Description))
    } else if tokens.len() < 2 {
        Err(EffectError::MissingField(EffectField::Modifier))
    } else if tokens.len() < 3 {
        Err(EffectError::MissingField(EffectField::Duration))
    } else {
        match parse_duration_spec(tokens[2]) {
            Some(duration) => Ok(
                EffectView {
                    description: tokens[0],
                    modifier: tokens[1],
                    duration: duration as nat,
                },
            ),
            None => Err(EffectError::InvalidDuration),
        }
    }
}

/// With fewer than three tokens, and only then, a field is missing. With three or more,
/// the third decides: where it stands for a duration the effect is built, with the fields
/// that the tokens hold, and where it stands for none the duration is invalid.
pub proof fn lemma_effect_from_tokens(tokens: Seq<Seq<char>>)
    ensures
        (tokens.len() < 3) <==> (effect_from_tokens(tokens) matches Err(
            EffectError::MissingField(_),
        )),
        tokens.len() >= 3 ==> effect_from_tokens(tokens) == (match parse_duration_spec(tokens[2]) {
            Some(duration) => Ok::<EffectView, EffectError>(
                EffectView {
                    description: tokens[0],
                    modifier: tokens[1],
                    duration: duration as nat,
                },
            ),
            None => Err::<EffectView, EffectError>(EffectError::InvalidDuration),
        }),
{
}

/// A description, a modifier and the decimal digits of a duration from 0 to 255 always
/// give the effect with those three fields.
pub proof fn lemma_effect_from_valid_tokens(
    description: Seq<char>,
    modifier: Seq<char>,
    duration: nat,
)
    requires
        duration <= u8::MAX,
    ensures
        effect_from_tokens(seq![description, modifier, decimal_text(duration)])
            == Ok::<EffectView, EffectError>(EffectView { description, modifier, duration }),
{
    lemma_decimal_text_parses(duration);
}

/// Three tokens whose third has a minus sign in front, or anything else that is no digit
/// in or after the place a sign may take, give an invalid duration.
pub proof fn lemma_effect_from_bad_duration(tokens: Seq<Seq<char>>, i: int)
    requires
        tokens.len() >= 3,
        0 <= i < tokens[2].len(),
        !is_digit(tokens[2][i]),
        i > 0 || tokens[2][0] != '+',
    ensures
        effect_from_tokens(tokens) == Err::<EffectView, EffectError>(EffectError::InvalidDuration),
{
    lemma_not_a_number(tokens[2], i);
}

/// The texts of a list of strings.
pub open spec fn texts(strings: Seq<String>) -> Seq<Seq<char>> {
    strings.map_values(|s: String| s@)
}

/// The texts of the strings that an iterator over strings has yet to give.
pub open spec fn token_texts(tokens: Seq<&String>) -> Seq<Seq<char>> {
    tokens.map_values(|t: &String| t@)
}

/// Takes the next item of `iter`, if it has one left.
fn take_next<I: Iterator>(iter: &mut I) -> (r: Option<I::Item>)
    requires
        (*old(iter)).obeys_prophetic_iter_laws(),
    ensures
        (*final(iter)).obeys_prophetic_iter_laws(),
        (*old(iter)).remaining().len() > 0 ==> {
            &&& r == Some((*old(iter)).remaining()[0])
            &&& (*final(iter)).remaining() == (*old(iter)).remaining().drop_first()
        },
        (*old(iter)).remaining().len() == 0 ==> {
            &&& r.is_none()
            &&& (*final(iter)).remaining() == (*old(iter)).remaining()
        },
{
    iter.next()
}

impl Effect {
    /// Builds an effect from the next three tokens of `effect_iter`: description, modifier,
    /// duration. Tokens behind the third are not read.
    pub fn new(mut effect_iter: std::slice::Iter<String>) -> (r: Result<Effect, EffectError>)
        ensures
            match effect_from_tokens(token_texts(effect_iter.remaining())) {
                Ok(view) => r matches Ok(effect) && effect@ == view,
                Err(error) => r == Err::<Effect, EffectError>(error),
            },
    {
        let description = match take_next(&mut effect_iter) {
            Some(token) => token.clone(),
            None => return Err(EffectError::MissingField(EffectField::Description)),
        };
        let modifier = match take_next(&mut effect_iter) {
            Some(token) => token.clone(),
            None => return Err(EffectError::MissingField(EffectField::Modifier)),
        };
        let duration = match take_next(&mut effect_iter) {
            Some(token) => match parse_duration(token.as_str()) {
                Some(duration) => duration,
                None => return Err(EffectError::InvalidDuration),
            },
            None => return Err(EffectError::MissingField(EffectField::Duration)),
        };
        Ok(Effect { description, modifier, duration })
    }

    /// Lets one round pass: the duration drops by one, and stays at zero once it is there.
    pub fn decrement_duration(&mut self)
        ensures
            final(self)@ == old(self)@.aged(),
            old(self).duration > 0 ==> final(self).duration == old(self).duration - 1,
            old(self).duration == 0 ==> final(self).duration == 0,
    {
        if self.duration > 0 {
            self.duration = self.duration - 1;
        }
    }
}

} // verus!
