//! Monetary value tests: construction, parsing, arithmetic, allocation,
//! rounding and display.

use rusty_money::currencies::iso;
use rusty_money::text::DecimalError;
use rusty_money::{Decimal, Money, MoneyError, RoundingStrategy};

fn dec(s: &str) -> Decimal {
    Decimal::parse_chars(&s.chars().collect()).unwrap()
}

fn dec_string(d: &Decimal) -> String {
    d.to_chars().iter().collect()
}

#[test]
fn money_major_minor() {
    let major_usd = Money::from_major(10, iso::usd());
    let minor_usd = Money::from_minor(1000, iso::usd());
    assert_eq!(major_usd, minor_usd);
}

#[test]
fn money_from_string_decimal_sanity() {
    let money = Money::from_str("1,00.00 GBP");
    assert!(matches!(money.unwrap_err(), MoneyError::InvalidAmountDecimal(_)));

    let money = Money::from_str("1.00,00 EUR");
    assert!(matches!(money.unwrap_err(), MoneyError::InvalidAmountDecimal(_)));

    let money = Money::from_str("1.00.000,00 EUR");
    assert!(matches!(money.unwrap_err(), MoneyError::InvalidAmountDecimal(_)));

    let money = Money::from_str("1.00.000.000,00 EUR");
    assert!(matches!(money.unwrap_err(), MoneyError::InvalidAmountDecimal(_)));

    let money = Money::from_str("1,00.00 INR");
    assert!(matches!(money.unwrap_err(), MoneyError::InvalidAmountDecimal(_)));

    let money = Money::from_str("1.000.000.00 INR");
    assert!(matches!(money.unwrap_err(), MoneyError::InvalidAmountDecimal(_)));
}

#[test]
fn money_from_string_parse_errs() {
    assert_eq!(Money::from_str("1.0000").unwrap_err(), MoneyError::InvalidAmountFormat);
    assert_eq!(Money::from_str("USD").unwrap_err(), MoneyError::InvalidAmountFormat);
    assert_eq!(Money::from_str("USD 1.00").unwrap_err(), MoneyError::InvalidAmountFormat);
    assert_eq!(Money::from_str("").unwrap_err(), MoneyError::InvalidAmountFormat);
    assert_eq!(Money::from_str("  ").unwrap_err(), MoneyError::InvalidAmountFormat);

    assert_eq!(Money::from_str("abc USD").unwrap_err(), MoneyError::InvalidAmountFormat);

    let money = Money::from_str("1.00.00 GBP");
    assert!(matches!(money.unwrap_err(), MoneyError::InvalidAmountDecimal(_)));
    let money = Money::from_str("1,00,00 EUR");
    assert!(matches!(money.unwrap_err(), MoneyError::InvalidAmountDecimal(_)));

    assert_eq!(Money::from_str("1.00 XXX").unwrap_err(), MoneyError::InvalidCurrency);
    assert_eq!(Money::from_str("100 FOO").unwrap_err(), MoneyError::InvalidCurrency);
}

#[test]
fn money_parsing() {
    assert_eq!(Money::from_str("29.99 GBP").unwrap(), Money::from_minor(2999, iso::gbp()));
    assert_eq!(Money::from_str("100 USD").unwrap(), Money::from_major(100, iso::usd()));
    assert_eq!(
        Money::from_str("-50.50 EUR").unwrap(),
        Money::from_decimal(Decimal::new(-5050, 2), iso::eur())
    );
    assert_eq!(
        Money::from_str("  1234.56  USD  ").unwrap(),
        Money::from_decimal(Decimal::new(123456, 2), iso::usd())
    );
}

#[test]
fn money_from_string_parses_correctly_for_64_bit_numbers() {
    let max_str = i64::MAX.to_string();
    let money_str = format!("{} GBP", max_str);
    let expected_money = Money::from_major(i64::MAX, iso::gbp());
    let money = Money::from_str(&money_str).unwrap();
    assert_eq!(money, expected_money);

    let minor_val: i64 = 1234567890123456789;
    let decimal_val = Decimal::new(minor_val, iso::gbp().exponent);
    let money_str = format!("{} GBP", dec_string(&decimal_val));
    let expected_money = Money::from_minor(minor_val, iso::gbp());
    let money = Money::from_str(&money_str).unwrap();
    assert_eq!(money, expected_money);
}

#[test]
fn money_from_string_parses_signs() {
    let expected_money = Money::from_minor(-300, iso::gbp());
    let money = Money::from_str("-3.00 GBP").unwrap();
    assert_eq!(money, expected_money);

    let expected_money = Money::from_minor(300, iso::gbp());
    let money = Money::from_str("+3.00 GBP").unwrap();
    assert_eq!(money, expected_money);
    let money = Money::from_str("3.00 GBP").unwrap();
    assert_eq!(money, expected_money);
}

#[test]
fn money_from_string_ignores_separators() {
    let expected_money = Money::from_major(1_000_000, iso::gbp());
    let money = Money::from_str("1000000 GBP").unwrap();
    assert_eq!(money, expected_money);

    let expected_money = Money::from_decimal(Decimal::new(123456789, 2), iso::usd());
    let money = Money::from_str("1234567.89 USD").unwrap();
    assert_eq!(money, expected_money);
}

#[test]
fn money_format_rounds_exponent() {
    // 19.9999 rounds to 20 for USD
    let money = Money::from_str("19.9999 USD").unwrap();
    assert_eq!("$20.00", money.to_display_string());

    // 29.111 rounds to 29.11 for USD
    let money = Money::from_str("29.111 USD").unwrap();
    assert_eq!("$29.11", money.to_display_string());

    // 39.1155 rounds to 39.116 for BHD
    let money = Money::from_str("39.1155 BHD").unwrap();
    assert_eq!("د.ب39.116", money.to_display_string());
}

#[test]
fn money_addition_and_subtraction() {
    assert_eq!(
        Money::from_major(2, iso::usd()),
        Money::from_major(1, iso::usd()).add(Money::from_major(1, iso::usd())).unwrap()
    );
    assert_eq!(
        Money::from_major(0, iso::usd()),
        Money::from_major(1, iso::usd()).sub(Money::from_major(1, iso::usd())).unwrap()
    );
}

#[test]
fn money_addition_errors_on_different_currencies() {
    let result = Money::from_minor(100, iso::usd()).add(Money::from_minor(100, iso::gbp()));
    assert_eq!(result.unwrap_err(), MoneyError::CurrencyMismatch);
}

#[test]
fn money_subtraction_errors_on_different_currencies() {
    let result = Money::from_minor(100, iso::usd()).sub(Money::from_minor(100, iso::gbp()));
    assert_eq!(result.unwrap_err(), MoneyError::CurrencyMismatch);
}

#[test]
fn money_multiplication_and_division() {
    // Multiplication by integers, as scale-zero decimals.
    assert_eq!(
        Money::from_minor(200, iso::usd()),
        Money::from_minor(100, iso::usd()).mul(Decimal::new(2, 0))
    );
    assert_eq!(
        Money::from_minor(200, iso::usd()),
        Money::from_minor(-100, iso::usd()).mul(Decimal::new(-2, 0))
    );
    assert_eq!(
        Money::from_minor(200, iso::usd()),
        Money::from_minor(-100, iso::usd()).mul(Decimal::new(-2, 0))
    );

    // Multiplication by decimals.
    assert_eq!(
        Money::from_minor(200, iso::usd()),
        Money::from_minor(100, iso::usd()).mul(Decimal::new(2, 0))
    );
    assert_eq!(
        Money::from_minor(200, iso::usd()),
        Money::from_minor(-100, iso::usd()).mul(Decimal::new(-2, 0))
    );
    assert_eq!(
        Money::from_minor(200, iso::usd()),
        Money::from_minor(400, iso::usd()).mul(Decimal::new(5, 1))
    );

    // Division by integers.
    assert_eq!(
        Money::from_minor(200, iso::usd()),
        Money::from_minor(400, iso::usd()).div(Decimal::new(2, 0))
    );
    assert_eq!(
        Money::from_minor(200, iso::usd()),
        Money::from_minor(-400, iso::usd()).div(Decimal::new(-2, 0))
    );
    assert_eq!(
        Money::from_minor(50, iso::usd()),
        Money::from_minor(-200, iso::usd()).div_into(Decimal::new(-1, 0))
    );
    assert_eq!(
        Money::from_minor(200, iso::usd()),
        Money::from_minor(-200, iso::usd()).div(Decimal::new(-1, 0))
    );

    // Division by decimals.
    assert_eq!(
        Money::from_minor(200, iso::usd()),
        Money::from_minor(400, iso::usd()).div(Decimal::new(2, 0))
    );
    assert_eq!(
        Money::from_minor(200, iso::usd()),
        Money::from_minor(-400, iso::usd()).div(Decimal::new(-2, 0))
    );
    assert_eq!(
        Money::from_minor(50, iso::usd()),
        Money::from_minor(-200, iso::usd()).div_into(Decimal::new(-1, 0))
    );
    assert_eq!(
        Money::from_minor(200, iso::usd()),
        Money::from_minor(-200, iso::usd()).div(Decimal::new(-1, 0))
    );
    assert_eq!(
        Money::from_minor(400, iso::usd()),
        Money::from_minor(-200, iso::usd()).div(Decimal::new(-5, 1))
    );

    // In-place multiplication.
    let mut money = Money::from_minor(100, iso::usd());
    money.mul_assign(Decimal::new(2, 0));
    assert_eq!(Money::from_minor(200, iso::usd()), money);

    let mut money = Money::from_minor(100, iso::usd());
    money.mul_assign(Decimal::new(2, 0));
    assert_eq!(Money::from_minor(200, iso::usd()), money);

    // In-place division.
    let mut money = Money::from_minor(100, iso::usd());
    money.div_assign(Decimal::new(-2, 0));
    assert_eq!(Money::from_minor(-50, iso::usd()), money);

    let mut money = Money::from_minor(100, iso::usd());
    money.div_assign(Decimal::new(-2, 0));
    assert_eq!(Money::from_minor(-50, iso::usd()), money);
}

#[test]
fn money_negation() {
    let money = Money::from_minor(100, iso::usd());

    assert_eq!(money.neg(), Money::from_minor(-100, iso::usd()));
}

#[test]
fn money_comparison() {
    // Greater than.
    assert!(Money::from_minor(200, iso::usd()) > Money::from_minor(100, iso::usd()));
    // Less than.
    assert!(Money::from_minor(100, iso::usd()) < Money::from_minor(200, iso::usd()));
    // Equals.
    assert!(Money::from_minor(100, iso::usd()) == Money::from_minor(100, iso::usd()));
    assert!(Money::from_minor(100, iso::usd()) != Money::from_minor(100, iso::gbp()));
    // Is positive.
    assert!(Money::from_minor(100, iso::usd()).is_positive());
    assert!(!Money::from_minor(0, iso::usd()).is_positive());
    assert!(!Money::from_minor(-100, iso::usd()).is_positive());
    // Is zero.
    assert!(Money::from_minor(0, iso::usd()).is_zero());
    assert!(!Money::from_minor(100, iso::usd()).is_zero());
    assert!(!Money::from_minor(-100, iso::usd()).is_zero());
    // Is negative.
    assert!(Money::from_minor(-100, iso::usd()).is_negative());
    assert!(!Money::from_minor(100, iso::usd()).is_negative());
    assert!(!Money::from_minor(0, iso::usd()).is_negative());
}

#[test]
fn money_partial_cmp_returns_none_for_different_currencies() {
    assert_eq!(
        Money::from_minor(100, iso::usd()).partial_cmp(&Money::from_minor(100, iso::gbp())),
        None
    );
    assert_eq!(
        Money::from_minor(100, iso::gbp()).partial_cmp(&Money::from_minor(100, iso::usd())),
        None
    );
}

#[test]
fn money_allocate() {
    let money = Money::from_minor(1_100, iso::usd());
    let allocated = money.allocate(vec![1, 1, 1]).unwrap();
    let expected_results = vec![
        Money::from_minor(400, iso::usd()),
        Money::from_minor(400, iso::usd()),
        Money::from_minor(300, iso::usd()),
    ];
    assert_eq!(expected_results, allocated);

    // Error if the ratio list is empty.
    let monies = Money::from_minor(100, iso::usd()).allocate(Vec::new());
    assert_eq!(monies.unwrap_err(), MoneyError::InvalidRatio);

    // Error if any ratio is zero.
    let monies = Money::from_minor(100, iso::usd()).allocate(vec![1, 0]);
    assert_eq!(monies.unwrap_err(), MoneyError::InvalidRatio);
}

#[test]
fn money_allocate_to() {
    let money = Money::from_minor(1_100, iso::usd());
    let monies = money.allocate_to(3).unwrap();
    let expected_results = vec![
        Money::from_minor(400, iso::usd()),
        Money::from_minor(400, iso::usd()),
        Money::from_minor(300, iso::usd()),
    ];
    assert_eq!(expected_results, monies);

    let monies = Money::from_minor(100, iso::usd()).allocate_to(0);
    assert_eq!(monies.unwrap_err(), MoneyError::InvalidRatio);
}

#[test]
fn money_fmt_separates_digits() {
    let usd = Money::from_minor(0, iso::usd());
    let expected_usd_fmt = "$0.00";
    assert_eq!(usd.to_display_string(), expected_usd_fmt);

    let usd = Money::from_minor(10_000_000, iso::usd());
    let expected_usd_fmt = "$100,000.00";
    assert_eq!(usd.to_display_string(), expected_usd_fmt);

    let usd = Money::from_minor(-10_000_000, iso::usd());
    let expected_usd_fmt = "-$100,000.00";
    assert_eq!(usd.to_display_string(), expected_usd_fmt);

    let usd = Money::from_minor(100_000_000_000, iso::usd());
    let expected_usd_fmt = "$1,000,000,000.00";
    assert_eq!(usd.to_display_string(), expected_usd_fmt);

    let inr = Money::from_minor(10_000_000, iso::inr());
    let expected_inr_fmt = "₹1,00,000.00";
    assert_eq!(inr.to_display_string(), expected_inr_fmt);

    let inr = Money::from_minor(-1_000_000_000, iso::inr());
    let expected_inr_fmt = "-₹1,00,00,000.00";
    assert_eq!(inr.to_display_string(), expected_inr_fmt);
}

#[test]
fn money_fmt_places_symbols_correctly() {
    let money = Money::from_minor(0, iso::usd());
    let expected_fmt = "$0.00";
    assert_eq!(money.to_display_string(), expected_fmt);

    let money = Money::from_minor(0, iso::aed());
    let expected_fmt = "0.00د.إ";
    assert_eq!(money.to_display_string(), expected_fmt);
}

#[test]
fn money_fmt_uses_correct_separators() {
    let money = Money::from_minor(100_000, iso::eur());
    let expected_fmt = "€1.000,00";
    assert_eq!(money.to_display_string(), expected_fmt);
}

#[test]
fn money_precision_and_rounding() {
    // Dividing 20 by 3 rounds to 6.67 in USD and 6.667 in BHD.
    let expected_money = Money::from_minor(667, iso::usd());
    let mut money = Money::from_minor(2_000, iso::usd());
    money.div_assign(Decimal::new(3, 0));
    assert_eq!(money.round(2, RoundingStrategy::MidpointNearestEven), expected_money);

    let expected_money = Money::from_minor(6_667, iso::bhd());
    let mut money = Money::from_minor(20_000, iso::bhd());
    money.div_assign(Decimal::new(3, 0));
    assert_eq!(money.round(3, RoundingStrategy::MidpointNearestEven), expected_money);
}

#[test]
fn money_ops_uses_clone() {
    let money = Money::from_major(1, iso::usd());
    let _1st_derived_money = money.clone().mul(Decimal::new(3, 0));
    let _2nd_derived_money = money.mul(Decimal::new(3, 0));
}

#[test]
fn money_sum_iter_empty() {
    let monies: Vec<Money> = vec![];
    assert_eq!(Money::sum_iter(monies), Ok(None));
}

#[test]
fn money_sum_iter_single() {
    let monies = vec![Money::from_major(10, iso::usd())];
    assert_eq!(Money::sum_iter(monies), Ok(Some(Money::from_major(10, iso::usd()))));
}

#[test]
fn money_sum_iter_multiple_same_currency() {
    let monies = vec![
        Money::from_major(10, iso::eur()),
        Money::from_minor(550, iso::eur()),
        Money::from_major(-2, iso::eur()),
    ];
    // 10 + 5.50 - 2 = 13.50
    let expected = Money::from_decimal(Decimal::new(1350, 2), iso::eur());
    assert_eq!(Money::sum_iter(monies), Ok(Some(expected)));
}

#[test]
fn money_sum_iter_multiple_different_currencies() {
    let monies = vec![Money::from_major(10, iso::usd()), Money::from_major(5, iso::eur())];
    assert_eq!(Money::sum_iter(monies), Err(MoneyError::CurrencyMismatch));
}

#[test]
fn money_sum_iter_first_item_determines_currency() {
    let monies = vec![
        Money::from_major(10, iso::gbp()),
        Money::from_major(5, iso::gbp()),
        Money::from_major(2, iso::usd()),
    ];
    assert_eq!(Money::sum_iter(monies), Err(MoneyError::CurrencyMismatch));
}

#[test]
fn decimal_renders_with_trailing_zeros() {
    assert_eq!(dec_string(&Decimal::new(500, 2)), "5.00");
    assert_eq!(dec_string(&Decimal::new(5, 2)), "0.05");
    assert_eq!(dec_string(&Decimal::new(-5050, 2)), "-50.50");
    assert_eq!(dec_string(&Decimal::new(1000, 0)), "1000");
}

#[test]
fn decimal_parse_rejects_garbage() {
    assert!(Decimal::parse_chars(&"".chars().collect()).is_err());
    assert!(Decimal::parse_chars(&"-".chars().collect()).is_err());
    assert!(Decimal::parse_chars(&".".chars().collect()).is_err());
    assert!(Decimal::parse_chars(&"1.".chars().collect()).is_err());
    assert!(Decimal::parse_chars(&".5".chars().collect()).is_err());
    assert!(Decimal::parse_chars(&"1..2".chars().collect()).is_err());
    assert_eq!(dec("12.345"), Decimal::new(12345, 3));
    assert_eq!(dec("+7"), Decimal::new(7, 0));
}

#[test]
fn decimal_parse_rejects_out_of_range_values() {
    // More fractional digits than the representation carries.
    let r = Decimal::parse_chars(&"0.00000000000000000000000000001".chars().collect());
    assert_eq!(r.unwrap_err(), DecimalError::ScaleTooLarge);
    // A magnitude beyond the mantissa limit.
    let r = Decimal::parse_chars(&"99999999999999999999999999999".chars().collect());
    assert_eq!(r.unwrap_err(), DecimalError::Overflow);
    // The same failures through the money parser.
    let r = Money::from_str("99999999999999999999999999999 USD");
    assert!(matches!(r.unwrap_err(), MoneyError::InvalidAmountDecimal(_)));
}
