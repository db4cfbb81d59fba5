//! The crypto-currency table.

use vstd::prelude::*;
use crate::currency::{Currency, mk};
use crate::locale::Locale;
use crate::text::str_eq;

verus! {

/// The codes this segment of the table recognises.
pub open spec fn is_crypto_code(s: Seq<char>) -> bool {
    ||| s == ("BTC")@
    ||| s == ("COMP")@
    ||| s == ("DAI")@
    ||| s == ("ETH")@
    ||| s == ("MKR")@
    ||| s == ("UNI")@
    ||| s == ("USDC")@
    ||| s == ("USDT")@
    ||| s == ("XTZ")@
    ||| s == ("ZEC")@
    ||| s == ("BCH")@
    ||| s == ("BSV")@
}

/// Table segment BTC to BSV.
#[verifier::rlimit(50)]
fn find_crypto_table(code: &str) -> (r: Option<Currency>)
    ensures
        r is Some <==> is_crypto_code(code@),
        r matches Some(c) ==> c.wf() && c.code@ == code@,
{
    if str_eq(code, "BTC") {
        Some(mk("BTC", 8, Locale::EnUs, 100_000_000, "Bitcoin", "₿", true))
    } else if str_eq(code, "COMP") {
        Some(mk("COMP", 18, Locale::EnUs, 1_000_000_000_000_000_000, "Compound", "COMP", false))
    } else if str_eq(code, "DAI") {
        Some(mk("DAI", 18, Locale::EnUs, 1_000_000_000_000_000_000, "Dai Stablecoin", "DAI", false))
    } else if str_eq(code, "ETH") {
        Some(mk("ETH", 18, Locale::EnUs, 1_000_000_000_000_000_000, "Ethereum", "ETH", false))
    } else if str_eq(code, "MKR") {
        Some(mk("MKR", 18, Locale::EnUs, 1_000_000_000_000_000_000, "Maker", "MKR", false))
    } else if str_eq(code, "UNI") {
        Some(mk("UNI", 18, Locale::EnUs, 1_000_000_000_000_000_000, "Uniswap", "UNI", false))
    } else if str_eq(code, "USDC") {
        Some(mk("USDC", 6, Locale::EnUs, 1_000_000, "USD Coin", "USDC", false))
    } else if str_eq(code, "USDT") {
        Some(mk("USDT", 6, Locale::EnUs, 1_000_000, "Tether", "USDT", false))
    } else if str_eq(code, "XTZ") {
        Some(mk("XTZ", 6, Locale::EnUs, 1_000_000, "Tezos", "XTZ", false))
    } else if str_eq(code, "ZEC") {
        Some(mk("ZEC", 8, Locale::EnUs, 100_000_000, "ZCash", "ZEC", false))
    } else if str_eq(code, "BCH") {
        Some(mk("BCH", 8, Locale::EnUs, 100_000_000, "Bitcoin Cash", "BCH", false))
    } else if str_eq(code, "BSV") {
        Some(mk("BSV", 8, Locale::EnUs, 100_000_000, "Bitcoin SV", "BSV", false))
    } else {
        None
    }
}

/// Looks a crypto currency up by its code.
pub fn find_crypto(code: &str) -> (r: Option<Currency>)
    ensures
        r is Some <==> is_crypto_code(code@),
        r matches Some(c) ==> c.wf() && c.code@ == code@,
{
    find_crypto_table(code)
}

/// The BTC descriptor from the table.
pub fn btc() -> (c: Currency)
    ensures
        c.wf() && c.code@ == ("BTC")@,
{
    match find_crypto("BTC") {
        Some(c) => c,
        None => vstd::pervasive::unreached(),
    }
}

/// The ETH descriptor from the table.
pub fn eth() -> (c: Currency)
    ensures
        c.wf() && c.code@ == ("ETH")@,
{
    match find_crypto("ETH") {
        Some(c) => c,
        None => vstd::pervasive::unreached(),
    }
}

} // verus!
