//! Turn order and timed status effects for a turn-based combat encounter.
//!
//! A [`Combat`] holds a round counter, a roster of [`Character`]s in turn order, and the
//! [`Effect`]s of the environment. Characters hold effects of their own. Letting a round
//! pass ages every effect by one round and removes those that have none left.
//!
//! Each type has a view, a value of plain mathematical data (`EffectView`,
//! `CharacterView`, `CombatView`), and every function says in its contract what it does
//! to the views. Three rules are fixed here:
//!
//! - A duration never goes below zero: an effect with no round left stays at zero until
//!   it is removed.
//! - A round ages first and removes afterwards, so an effect of duration `d` is still
//!   there after `d - 1` rounds and gone after `d`.
//! - The roster is put in order when a character is added: higher initiative first, and
//!   characters of equal initiative in the order of their addition. A change of a
//!   character's initiative does not move it; `Combat::sort_characters` does.
//!
//! The modules: `duration` reads a duration from text, `effect` and `effects` hold the
//! effects and the lists of them, `character` and `combat` the combatants and the
//! encounter, and `roster` the turn order and what is proved of it.

pub mod character;
pub mod combat;
pub mod duration;
pub mod effect;
pub mod effects;
mod filter;
pub mod roster;

pub use character::{Character, CharacterView};
pub use combat::{Combat, CombatView};
pub use effect::{Effect, EffectError, EffectField, EffectView};
