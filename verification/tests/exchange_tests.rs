//! Exchange registry and rate conversion tests.

use rusty_money::currencies::iso;
use rusty_money::{find_currency, Decimal, Exchange, ExchangeRate, Money, MoneyError};

#[test]
fn exchange_stores_rates() {
    let usd = find_currency("USD").unwrap();
    let eur = find_currency("EUR").unwrap();
    let gbp = find_currency("GBP").unwrap();

    let eur_usd_rate = ExchangeRate::new(usd, eur, Decimal::new(15, 1)).unwrap();
    let eur_gbp_rate = ExchangeRate::new(usd, gbp, Decimal::new(16, 1)).unwrap();

    let mut exchange = Exchange::new();
    exchange.set_rate(&eur_usd_rate);
    exchange.set_rate(&eur_gbp_rate);

    let fetched_rate = exchange.get_rate(&usd, &eur).unwrap();
    assert_eq!(fetched_rate.rate(), Decimal::new(15, 1));

    let fetched_rate = exchange.get_rate(&usd, &gbp).unwrap();
    assert_eq!(fetched_rate.rate(), Decimal::new(16, 1));
}

#[test]
fn rate_convert() {
    let rate = ExchangeRate::new(iso::usd(), iso::eur(), Decimal::new(15, 1)).unwrap();
    let amount = Money::from_minor(1_000, iso::usd());
    let expected_amount = Money::from_minor(1_500, iso::eur());
    let converted_rate = rate.convert(&amount).unwrap();
    assert_eq!(converted_rate, expected_amount);
}

#[test]
fn rate_convert_errors_if_currencies_do_not_match() {
    let rate = ExchangeRate::new(iso::gbp(), iso::eur(), Decimal::new(15, 1)).unwrap();
    let amount = Money::from_minor(1_000, iso::usd());

    assert_eq!(rate.convert(&amount).unwrap_err(), MoneyError::InvalidCurrency,);
}

#[test]
fn rate_new_errors_if_currencies_are_equal() {
    let rate = ExchangeRate::new(iso::gbp(), iso::gbp(), Decimal::new(15, 1));
    assert_eq!(rate.unwrap_err(), MoneyError::InvalidCurrency,);
}

#[test]
fn exchange_overwrites_rate_for_same_pair() {
    let usd = iso::usd();
    let eur = iso::eur();
    let mut exchange = Exchange::new();
    let first = ExchangeRate::new(usd, eur, Decimal::new(15, 1)).unwrap();
    let second = ExchangeRate::new(usd, eur, Decimal::new(2, 0)).unwrap();
    exchange.set_rate(&first);
    exchange.set_rate(&second);
    assert_eq!(exchange.get_rate(&usd, &eur).unwrap().rate(), Decimal::new(2, 0));
}

#[test]
fn exchange_rates_are_directional() {
    let usd = iso::usd();
    let eur = iso::eur();
    let mut exchange = Exchange::new();
    let rate = ExchangeRate::new(usd, eur, Decimal::new(15, 1)).unwrap();
    exchange.set_rate(&rate);
    assert!(exchange.get_rate(&eur, &usd).is_none());
}
