//! Input symbols and the alphabet of literal characters.

use vstd::prelude::*;

verus! {

/// The label of a transition: either the empty word or one literal character.
#[derive(Clone, Copy, Debug, PartialEq, Eq, Hash, Structural)]
pub enum Symbol {
    /// The empty symbol; following it consumes no input.
    Empty,
    /// A literal character.
    Char(char),
}

/// Smallest character of the alphabet.
pub const ALPHABET_FIRST: char = '!';

/// Largest character of the alphabet.
pub const ALPHABET_LAST: char = '~';

/// Number of characters in the alphabet.
pub const ALPHABET_SIZE: usize = 94;

/// The alphabet is the set of visible ASCII characters, from `!` to `~`.
/// It holds the operators and parentheses of patterns too; which of its
/// characters stand for themselves in a pattern is for the pattern syntax
/// to say.
pub open spec fn in_alphabet(c: char) -> bool {
    ALPHABET_FIRST <= c <= ALPHABET_LAST
}

/// The `i`-th character of the alphabet, counted from zero.
pub open spec fn alphabet_char(i: int) -> char
    recommends
        0 <= i < ALPHABET_SIZE,
{
    (ALPHABET_FIRST as int + i) as char
}

/// Decides membership in the alphabet.
pub fn is_in_alphabet(c: char) -> (b: bool)
    ensures
        b == in_alphabet(c),
{
    ALPHABET_FIRST <= c && c <= ALPHABET_LAST
}

/// Returns the `i`-th character of the alphabet.
pub fn nth_alphabet_char(i: usize) -> (c: char)
    requires
        i < ALPHABET_SIZE,
    ensures
        c == alphabet_char(i as int),
        in_alphabet(c),
{
    let b: u8 = ALPHABET_FIRST as u8 + i as u8;
    b as char
}

} // verus!
