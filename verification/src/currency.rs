//! Currency descriptors and the lookup over the built-in tables.

use vstd::prelude::*;
use crate::decimal::MAX_SCALE;
use crate::locale::Locale;
use crate::text::str_eq;
use crate::currencies::iso::{find_iso, is_iso_code};
use crate::currencies::crypto::{find_crypto, is_crypto_code};

verus! {

/// What a currency must offer to be carried by a monetary value.
pub trait FormattableCurrency {
    fn exponent(&self) -> u32;

    fn code(&self) -> &'static str;

    fn locale(&self) -> Locale;

    fn symbol(&self) -> &'static str;

    fn symbol_first(&self) -> bool;
}

/// An immutable currency descriptor.  Two descriptors are the same
/// currency exactly when their codes agree.
#[derive(Debug, Clone, Copy, Hash)]
pub struct Currency {
    /// The unique short identifier, e.g. `"USD"`.
    pub code: &'static str,
    /// How many fractional digits the currency conventionally shows.
    pub exponent: u32,
    /// The rendering convention of the currency's region.
    pub locale: Locale,
    /// The smallest tradeable increment, in units of `10^-exponent`.
    pub minor_units: u64,
    /// The human-readable name.
    pub name: &'static str,
    /// The display symbol, e.g. `"$"`.
    pub symbol: &'static str,
    /// Whether the symbol is rendered before the amount.
    pub symbol_first: bool,
}

impl Currency {
    /// Well-formedness: the exponent fits the decimal representation.
    pub open spec fn wf(self) -> bool {
        self.exponent <= MAX_SCALE
    }

    /// Two descriptors denote the same currency when their codes agree.
    pub open spec fn same_currency(self, other: Currency) -> bool {
        self.code@ == other.code@
    }
}

/// Builds a descriptor record.
pub fn mk(
    code: &'static str,
    exponent: u32,
    locale: Locale,
    minor_units: u64,
    name: &'static str,
    symbol: &'static str,
    symbol_first: bool,
) -> (c: Currency)
    requires
        exponent <= MAX_SCALE,
    ensures
        c == (Currency { code, exponent, locale, minor_units, name, symbol, symbol_first }),
        c.wf(),
{
    Currency { code, exponent, locale, minor_units, name, symbol, symbol_first }
}

impl PartialEq for Currency {
    /// Code-based identity: two descriptors with one code are
    /// interchangeable.
    fn eq(&self, other: &Currency) -> (r: bool) {
        str_eq(self.code, other.code)
    }
}

impl vstd::std_specs::cmp::PartialEqSpecImpl for Currency {
    open spec fn obeys_eq_spec() -> bool {
        true
    }

    open spec fn eq_spec(&self, other: &Currency) -> bool {
        self.code@ == other.code@
    }
}

impl Eq for Currency {

}

impl FormattableCurrency for Currency {
    fn exponent(&self) -> u32 {
        self.exponent
    }

    fn code(&self) -> &'static str {
        self.code
    }

    fn locale(&self) -> Locale {
        self.locale
    }

    fn symbol(&self) -> &'static str {
        self.symbol
    }

    fn symbol_first(&self) -> bool {
        self.symbol_first
    }
}

impl Default for Currency {
    /// The empty descriptor.
    fn default() -> (c: Currency)
        ensures
            c.code@ == ("")@,
            c.exponent == 0,
            c.wf(),
    {
        Currency {
            code: "",
            exponent: 0,
            locale: Locale::EnEu,
            minor_units: 0,
            name: "",
            symbol: "",
            symbol_first: false,
        }
    }
}

/// Whether a code denotes some currency of the built-in tables.
pub open spec fn is_known_currency_code(s: Seq<char>) -> bool {
    is_iso_code(s) || is_crypto_code(s)
}

/// Looks a currency up by its code, over the ISO table first and the
/// crypto table second.  Returns `Some` exactly for the known codes.
pub fn find_currency(code: &str) -> (r: Option<Currency>)
    ensures
        r is Some <==> is_known_currency_code(code@),
        r matches Some(c) ==> c.wf() && c.code@ == code@,
{
    let r = find_iso(code);
    if r.is_none() {
        find_crypto(code)
    } else {
        r
    }
}

} // verus!
