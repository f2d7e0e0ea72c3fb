//! A word-guessing assistant for Wordle-style games.
//!
//! Given a dictionary of fixed-length words, the library encodes the rules of
//! the game as a constraint filter that narrows a candidate set from
//! guess/feedback pairs, and ranks candidate next guesses by expected
//! information gain (entropy) against the current candidate set.

use vstd::prelude::*;

pub mod dict;
pub mod entropy;
pub mod filter;
pub mod laws;
pub mod pattern;
pub mod rank;
pub mod session;

verus! {

/// Errors returned by the core functions; all are caller input errors.
#[derive(Clone, Copy, Debug, PartialEq, Eq, Structural)]
pub enum WordleError {
    /// Guess, target, or feedback lengths disagree.
    LengthMismatch,
    /// A feedback string contains a character outside the three-symbol alphabet.
    InvalidSymbol,
    /// A dictionary with no words at all; no guesses are possible.
    EmptyDictionary,
}

} // verus!
