//! Currency table and descriptor tests.

use rusty_money::currencies::crypto;
use rusty_money::currencies::iso;
use rusty_money::{find_currency, Decimal, Money};

fn dec(s: &str) -> Decimal {
    Decimal::parse_chars(&s.chars().collect()).unwrap()
}

#[test]
fn currencies_in_different_modules_are_not_equal() {
    assert_eq!(iso::usd().code, "USD");
    assert_eq!(iso::aed().code, "AED");
}

#[test]
fn find_works_in_modules() {
    assert_eq!(find_currency("USD").unwrap().code, "USD");
    assert_eq!(find_currency("AED").unwrap().code, "AED");
}

#[test]
fn currency_find_returns_known_currencies() {
    let currency_by_alpha = iso::usd();
    assert_eq!(currency_by_alpha.code, "USD");
    assert_eq!(currency_by_alpha.exponent, 2);
    assert_eq!(currency_by_alpha.symbol, "$");
}

#[test]
fn currency_currency_can_be_accessed_by_reference() {
    assert_eq!(iso::usd().code, "USD");
    assert_eq!(iso::usd().exponent, 2);
    assert_eq!(iso::usd().symbol, "$");
}

#[test]
fn currency_test_sum() {
    let money1 = Money::from_decimal(dec("10.1"), iso::usd());
    let money2 = Money::from_decimal(dec("20.2"), iso::usd());
    let money3 = Money::from_decimal(dec("30.3"), iso::usd());

    let monies = vec![money1, money2, money3];

    let total: Money = Money::sum_iter(monies).unwrap().unwrap();

    assert_eq!(total.amount(), &dec("60.6"));
    assert_eq!(total.currency(), &iso::usd());
}

#[test]
fn currency_find_returns_known_currencies_crypto() {
    let currency_by_code = crypto::btc();
    assert_eq!(currency_by_code.code, "BTC");
    assert_eq!(currency_by_code.exponent, 8);
    assert_eq!(currency_by_code.symbol, "₿");
}

#[test]
fn crypto_currencies_find_returns_known_currencies() {
    let currency_by_code = find_currency("BTC").unwrap();
    assert_eq!(currency_by_code.code, "BTC");
    assert_eq!(currency_by_code.exponent, 8);
    assert_eq!(currency_by_code.symbol, "₿");
}

#[test]
fn find_returns_none_on_unknown_currency() {
    assert_eq!(find_currency("fake"), None);
}

#[test]
fn crypto_currencies_currency_can_be_accessed_by_reference() {
    assert_eq!(crypto::eth().code, "ETH");
    assert_eq!(crypto::eth().exponent, 18);
    assert_eq!(crypto::eth().symbol, "ETH");
}

#[test]
fn crypto_currencies_find_and_reference_point_to_same() {
    assert_eq!(crypto::btc(), find_currency("BTC").unwrap());
}

#[test]
fn iso_currencies_find_returns_known_currencies() {
    let currency_by_alpha = find_currency("USD").unwrap();
    assert_eq!(currency_by_alpha.code, "USD");
    assert_eq!(currency_by_alpha.exponent, 2);
    assert_eq!(currency_by_alpha.symbol, "$");
}

#[test]
fn find_raises_invalid_currency_error_on_unknown_currency() {
    assert_eq!(find_currency("fake"), None);
}

#[test]
fn iso_currencies_currency_can_be_accessed_by_reference() {
    assert_eq!(iso::usd().code, "USD");
    assert_eq!(iso::usd().exponent, 2);
    assert_eq!(iso::usd().symbol, "$");
}

#[test]
fn iso_currencies_find_and_reference_point_to_same() {
    assert_eq!(iso::usd(), find_currency("USD").unwrap());
}

#[test]
fn def_find_returns_known_currencies() {
    let currency_by_alpha = iso::usd();
    assert_eq!(currency_by_alpha.code, "USD");
    assert_eq!(currency_by_alpha.exponent, 2);
    assert_eq!(currency_by_alpha.symbol, "$");
}

#[test]
fn def_currency_can_be_accessed_by_reference() {
    assert_eq!(iso::usd().code, "USD");
    assert_eq!(iso::usd().exponent, 2);
    assert_eq!(iso::usd().symbol, "$");
}

#[test]
fn def_test_sum() {
    let money1 = Money::from_decimal(dec("10.1"), iso::usd());
    let money2 = Money::from_decimal(dec("20.2"), iso::usd());
    let money3 = Money::from_decimal(dec("30.3"), iso::usd());

    let monies = vec![money1, money2, money3];

    let total: Money = Money::sum_iter(monies).unwrap().unwrap();

    assert_eq!(total.amount(), &dec("60.6"));
    assert_eq!(total.currency(), &iso::usd());
}

#[test]
fn def_find_returns_known_currencies_crypto() {
    let currency_by_code = crypto::btc();
    assert_eq!(currency_by_code.code, "BTC");
    assert_eq!(currency_by_code.exponent, 8);
    assert_eq!(currency_by_code.symbol, "₿");
}
