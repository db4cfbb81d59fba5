//! Scenario tests for the library's stated behaviours.

use rusty_money::currencies::iso;
use rusty_money::{Decimal, Formatter, Money, Params, Position, RoundingStrategy};

fn dec(s: &str) -> Decimal {
    Decimal::parse_chars(&s.chars().collect()).unwrap()
}

#[test]
fn add_then_subtract_gives_back_the_first_operand() {
    let a = Money::from_minor(12345, iso::usd());
    let b = Money::from_minor(678, iso::usd());
    let sum = a.add(b).unwrap();
    assert_eq!(sum.sub(b).unwrap(), a);
}

#[test]
fn addition_is_commutative() {
    let a = Money::from_minor(12345, iso::usd());
    let b = Money::from_major(7, iso::usd());
    assert_eq!(a.add(b).unwrap(), b.add(a).unwrap());
}

#[test]
fn major_equals_scaled_minor() {
    // 10^exponent minor units make one major unit, for several exponents.
    assert_eq!(Money::from_major(7, iso::usd()), Money::from_minor(700, iso::usd()));
    assert_eq!(Money::from_major(7, iso::bhd()), Money::from_minor(7000, iso::bhd()));
    assert_eq!(Money::from_major(-3, iso::usd()), Money::from_minor(-300, iso::usd()));
}

#[test]
fn allocation_sums_to_the_original_amount() {
    let money = Money::from_minor(1100, iso::usd());
    let shares = money.allocate(vec![1, 1, 1]).unwrap();
    let total = Money::sum_iter(shares).unwrap().unwrap();
    assert_eq!(total, money);

    // A single ratio is the identity.
    let shares = money.allocate(vec![5]).unwrap();
    assert_eq!(shares.len(), 1);
    assert_eq!(shares[0], money);

    // Uneven ratios still sum exactly.
    let money = Money::from_major(100, iso::usd());
    let shares = money.allocate(vec![3, 7, 11]).unwrap();
    let total = Money::sum_iter(shares).unwrap().unwrap();
    assert_eq!(total, money);
}

#[test]
fn formatting_round_trips_through_parsing() {
    let v = Money::from_decimal(dec("-1234.56"), iso::usd());
    let params = Params {
        separator_pattern: vec![],
        positions: vec![Position::Sign, Position::Amount, Position::Space, Position::Code],
        code: Some("USD"),
        ..Default::default()
    };
    let rendered = Formatter::money(&v, params);
    assert_eq!(rendered, "-1234.56 USD");
    assert_eq!(Money::from_str(&rendered).unwrap(), v);

    let v = Money::from_decimal(dec("0.05"), iso::eur());
    let params = Params {
        separator_pattern: vec![],
        positions: vec![Position::Sign, Position::Amount, Position::Space, Position::Code],
        code: Some("EUR"),
        ..Default::default()
    };
    let rendered = Formatter::money(&v, params);
    assert_eq!(rendered, "0.05 EUR");
    assert_eq!(Money::from_str(&rendered).unwrap(), v);
}

#[test]
fn round_half_to_even_prefers_the_even_neighbour() {
    let v = Money::from_decimal(dec("12.345"), iso::usd());
    assert_eq!(
        v.round(2, RoundingStrategy::MidpointNearestEven).amount(),
        &dec("12.34")
    );
    let v = Money::from_decimal(dec("12.355"), iso::usd());
    assert_eq!(
        v.round(2, RoundingStrategy::MidpointNearestEven).amount(),
        &dec("12.36")
    );
}

#[test]
fn round_half_away_from_zero_rounds_ties_up_in_magnitude() {
    let v = Money::from_decimal(dec("12.345"), iso::usd());
    assert_eq!(
        v.round(2, RoundingStrategy::MidpointAwayFromZero).amount(),
        &dec("12.35")
    );
    let v = Money::from_decimal(dec("-12.345"), iso::usd());
    assert_eq!(
        v.round(2, RoundingStrategy::MidpointAwayFromZero).amount(),
        &dec("-12.35")
    );
}

#[test]
fn grouping_helpers_follow_their_locales() {
    assert_eq!(rusty_money::format_with_separators("1000000.00", ',', '.'), "1,000,000.00");
    assert_eq!(rusty_money::format_with_separators("1000000.00", '.', ','), "1.000.000,00");
    assert_eq!(rusty_money::format_indian_style("10000000.00"), "1,00,00,000.00");
}

#[test]
fn conversion_multiplies_minor_units_exactly() {
    let rate =
        rusty_money::ExchangeRate::new(iso::usd(), iso::eur(), Decimal::new(15, 1)).unwrap();
    let amount = Money::from_minor(1000, iso::usd());
    let converted = rate.convert(&amount).unwrap();
    assert_eq!(converted, Money::from_minor(1500, iso::eur()));
    assert_eq!(converted.currency().code, "EUR");
}
