//! The failure conditions the library reports.

use vstd::prelude::*;
use crate::text::DecimalError;

verus! {

/// Everything a fallible monetary operation can report.
#[derive(Debug, Clone, Copy, PartialEq, Eq, Structural)]
pub enum MoneyError {
    /// A binary operation between two different currencies.
    CurrencyMismatch,
    /// An unknown currency code, or an exchange rate whose two sides are
    /// one currency.
    InvalidCurrency,
    /// The amount text did not parse as a decimal number.
    InvalidAmountDecimal(DecimalError),
    /// An integer part of an amount text did not parse.
    InvalidAmountInteger,
    /// The amount text had the wrong shape: wrong token count or
    /// characters that can never appear in an amount.
    InvalidAmountFormat,
    /// An empty ratio list, or a ratio that is not strictly positive.
    InvalidRatio,
    /// A sum over no values.
    EmptySum,
    /// A malformed locale description.
    InvalidLocaleFormat,
}

} // verus!
