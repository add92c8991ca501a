//! The errors that decoding can return.

use vstd::prelude::*;

verus! {

/// Why a token string could not be decoded.
#[derive(Debug, Clone, Copy, PartialEq, Eq, Structural)]
pub enum KonamiParseError {
    /// The text held no complete token group.
    Empty,
    /// A fourth consecutive up or down token was followed by another character;
    /// the field is the index of that following character.
    TooManyUpDown(usize),
    /// The character at the given index has no transition from the state the
    /// parser was in.
    UexpectedCharacter(usize, char),
}

} // verus!
