//! Formatter tests.

use rusty_money::currencies::iso;
use rusty_money::{Formatter, Money, Params, Position};

#[test]
fn format_position() {
    let money = Money::from_major(-1000, iso::usd());

    let params = Params {
        symbol: Some("$"),
        code: Some("USD"),
        positions: vec![
            Position::Sign,
            Position::Space,
            Position::Symbol,
            Position::Amount,
            Position::Space,
            Position::Code,
        ],
        ..Default::default()
    };
    assert_eq!("- $1,000 USD", Formatter::money(&money, params));

    let params = Params {
        symbol: Some("$"),
        code: Some("USD"),
        positions: vec![
            Position::Code,
            Position::Space,
            Position::Amount,
            Position::Symbol,
            Position::Space,
            Position::Sign,
        ],
        ..Default::default()
    };
    assert_eq!("USD 1,000$ -", Formatter::money(&money, params));

    let params = Params { positions: vec![Position::Amount], ..Default::default() };
    assert_eq!("1,000", Formatter::money(&money, params));

    let params = Params {
        symbol: Some("$"),
        positions: vec![Position::Symbol],
        ..Default::default()
    };
    assert_eq!("$", Formatter::money(&money, params));

    let params = Params {
        positions: vec![Position::Amount, Position::Symbol],
        ..Default::default()
    };
    assert_eq!("1,000", Formatter::money(&money, params));
}

#[test]
fn format_digit_separators_with_custom_separators() {
    let params = Params { digit_separator: '/', ..Default::default() };

    let money = Money::from_major(1_000_000, iso::usd());
    assert_eq!("1/000/000", Formatter::money(&money, params.clone()));

    let money = Money::from_major(1_000, iso::usd());
    assert_eq!("1/000", Formatter::money(&money, params.clone()));

    let money = Money::from_major(0, iso::usd());
    assert_eq!("0", Formatter::money(&money, params));
}

#[test]
fn format_digit_separators_with_custom_sequences() {
    let params = Params { separator_pattern: vec![3, 2, 2], ..Default::default() };

    let money = Money::from_major(10_000_000, iso::usd());
    assert_eq!("1,00,00,000", Formatter::money(&money, params.clone()));

    let money = Money::from_major(100_000, iso::usd());
    assert_eq!("1,00,000", Formatter::money(&money, params.clone()));

    let money = Money::from_major(1_000, iso::usd());
    assert_eq!("1,000", Formatter::money(&money, params));

    let params = Params { separator_pattern: vec![0, 2], ..Default::default() };

    let money = Money::from_major(100, iso::usd());
    assert_eq!("1,00,", Formatter::money(&money, params.clone()));

    let money = Money::from_major(0, iso::usd());
    assert_eq!("0,", Formatter::money(&money, params));
}

#[test]
fn format_rounding() {
    let money = Money::from_minor(1000, iso::usd()).div(rusty_money::Decimal::new(3, 0));

    let params = Params { rounding: Some(0), ..Default::default() };
    assert_eq!("3", Formatter::money(&money, params));

    let params = Params { rounding: Some(2), ..Default::default() };
    assert_eq!("3.33", Formatter::money(&money, params));

    let params = Params { ..Default::default() };
    assert_eq!("3.3333333333333333333333333333", Formatter::money(&money, params));
}

#[test]
fn format_grouping_of_one_billion() {
    let money = Money::from_major(1_000_000_000, iso::usd());
    let params = Params { separator_pattern: vec![3, 3, 3], ..Default::default() };
    assert_eq!("1,000,000,000", Formatter::money(&money, params));

    let params = Params { separator_pattern: vec![3, 2, 2], ..Default::default() };
    assert_eq!("100,00,00,000", Formatter::money(&money, params));
}
