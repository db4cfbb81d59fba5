//! A library for exact monetary amounts.
//!
//! A [`money::Money`] pairs a fixed-point decimal amount with a currency
//! descriptor.  Arithmetic never goes through floating point: amounts are
//! held as an integer mantissa and a decimal scale, so addition,
//! subtraction, multiplication, division, rounding and allocation are exact
//! in the sense stated by their contracts.

pub mod currencies;
pub mod error;
pub mod exchange;
pub mod format;
pub mod money;
pub mod currency;
pub mod decimal;
pub mod locale;
pub mod text;

pub use crate::currency::{find_currency, Currency, FormattableCurrency};
pub use crate::decimal::{Decimal, RoundingStrategy};
pub use crate::error::MoneyError;
pub use crate::exchange::{Exchange, ExchangeRate};
pub use crate::format::{format_indian_style, format_with_separators, Formatter, Params, Position};
pub use crate::locale::Locale;
pub use crate::money::Money;
