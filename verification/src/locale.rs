//! Regional rendering conventions.

use vstd::prelude::*;

verus! {

/// The regional convention a currency is rendered with: which characters
/// group the integer digits and mark the fraction, and how the digits
/// are grouped.
#[derive(Debug, Clone, Copy, PartialEq, Eq, Hash, Structural)]
pub enum Locale {
    /// `1,000,000.00`
    EnUs,
    /// `1.000.000,00`
    EnEu,
    /// `1,00,00,000.00`
    EnIn,
    /// `1 000 000,00`
    EnBy,
}

impl Locale {
    /// The character placed between digit groups.
    pub fn digit_separator(self) -> (r: char)
        ensures
            r == self.spec_digit_separator(),
    {
        match self {
            Locale::EnUs => ',',
            Locale::EnEu => '.',
            Locale::EnIn => ',',
            Locale::EnBy => ' ',
        }
    }

    /// The character placed between digit groups.
    pub open spec fn spec_digit_separator(self) -> char {
        match self {
            Locale::EnUs => ',',
            Locale::EnEu => '.',
            Locale::EnIn => ',',
            Locale::EnBy => ' ',
        }
    }

    /// The character between the integer and fractional digits.
    pub fn exponent_separator(self) -> (r: char)
        ensures
            r == self.spec_exponent_separator(),
    {
        match self {
            Locale::EnUs => '.',
            Locale::EnEu => ',',
            Locale::EnIn => '.',
            Locale::EnBy => ',',
        }
    }

    /// The character between the integer and fractional digits.
    pub open spec fn spec_exponent_separator(self) -> char {
        match self {
            Locale::EnUs => '.',
            Locale::EnEu => ',',
            Locale::EnIn => '.',
            Locale::EnBy => ',',
        }
    }
}

} // verus!
