//! Fixed-point decimal numbers.
//!
//! A [`Decimal`] is a signed integer mantissa together with a scale: the
//! represented value is `mantissa / 10^scale`.  The scale is at most
//! [`MAX_SCALE`] and the mantissa magnitude is at most [`MANTISSA_LIMIT`]
//! (the largest 96-bit value), so every decimal fits comfortably in an
//! `i128` and all arithmetic below is exact integer arithmetic.
//!
//! Contracts are stated over [`Decimal::units`]: the value measured in
//! units of `10^-MAX_SCALE`, which is an integer for every well-formed
//! decimal.

use vstd::prelude::*;
use vstd::arithmetic::power::{
    pow, lemma_pow_adds, lemma_pow_positive, lemma_pow_strictly_increases,
};
use vstd::arithmetic::div_mod::{lemma_fundamental_div_mod, lemma_fundamental_div_mod_converse};
use vstd::math::abs;
use vstd::arithmetic::mul::{
    lemma_mul_inequality, lemma_mul_is_commutative, lemma_mul_is_distributive_add_other_way,
    lemma_mul_strict_inequality,
};

verus! {

/// The largest allowed scale (number of fractional digits).
pub const MAX_SCALE: u32 = 28;

/// The largest allowed mantissa magnitude: `2^96 - 1`.
pub const MANTISSA_LIMIT: i128 = 79_228_162_514_264_337_593_543_950_335;

/// `10^e` as a mathematical integer.
pub open spec fn pow10(e: nat) -> int {
    pow(10, e)
}

/// A fixed-point decimal: the value `mantissa / 10^scale`.
#[derive(Debug, Clone, Copy)]
pub struct Decimal {
    pub mantissa: i128,
    pub scale: u32,
}

impl Decimal {
    /// Well-formedness: bounded scale and mantissa.
    pub open spec fn wf(self) -> bool {
        &&& self.scale <= MAX_SCALE
        &&& -MANTISSA_LIMIT <= self.mantissa <= MANTISSA_LIMIT
    }

    /// The value measured in units of `10^-MAX_SCALE`; an integer for
    /// every well-formed decimal, and the currency of all contracts here.
    pub open spec fn units(self) -> int {
        self.mantissa * pow10((MAX_SCALE - self.scale) as nat)
    }

    /// The mantissa, as a spec-level integer.
    pub open spec fn spec_mantissa(self) -> int {
        self.mantissa as int
    }

    /// The scale, as a spec-level integer.
    pub open spec fn spec_scale(self) -> int {
        self.scale as int
    }

    /// Builds the decimal `mantissa / 10^scale`.
    pub fn new(mantissa: i64, scale: u32) -> (r: Decimal)
        requires
            scale <= MAX_SCALE,
        ensures
            r.wf(),
            r.spec_mantissa() == mantissa,
            r.spec_scale() == scale,
    {
        proof {
            lemma_mantissa_limit_holds_i64(mantissa);
        }
        Decimal { mantissa: mantissa as i128, scale }
    }

    /// The zero decimal at scale 0.
    pub fn zero() -> (r: Decimal)
        ensures
            r.wf(),
            r.units() == 0,
            r.spec_mantissa() == 0,
            r.spec_scale() == 0,
    {
        Decimal { mantissa: 0, scale: 0 }
    }
}

impl Decimal {
    /// Compares two well-formed decimals by value.
    pub fn cmp_values(&self, other: &Decimal) -> (r: core::cmp::Ordering)
        requires
            self.wf(),
            other.wf(),
        ensures
            r == core::cmp::Ordering::Less <==> self.units() < other.units(),
            r == core::cmp::Ordering::Equal <==> self.units() == other.units(),
            r == core::cmp::Ordering::Greater <==> self.units() > other.units(),
    {
        if self.scale == other.scale {
            proof {
                lemma_units_at_common_scale(*self, *other);
                lemma_pow10_positive((MAX_SCALE - self.scale) as nat);
                lemma_pow10_zero();
                lemma_mul_cancel_order(
                    self.mantissa as int,
                    other.mantissa as int,
                    pow10((MAX_SCALE - self.scale) as nat),
                );
            }
            cmp_i128(self.mantissa, other.mantissa)
        } else if self.scale < other.scale {
            cmp_lower_scale_first(self, other)
        } else {
            match cmp_lower_scale_first(other, self) {
                core::cmp::Ordering::Less => core::cmp::Ordering::Greater,
                core::cmp::Ordering::Equal => core::cmp::Ordering::Equal,
                core::cmp::Ordering::Greater => core::cmp::Ordering::Less,
            }
        }
    }

    /// Negation; always representable.
    pub fn neg(&self) -> (r: Decimal)
        requires
            self.wf(),
        ensures
            r.wf(),
            r.units() == -self.units(),
            r.scale == self.scale,
            r.mantissa == -self.mantissa,
    {
        proof {
            lemma_pow10_positive((MAX_SCALE - self.scale) as nat);
            assert((-self.mantissa) * pow10((MAX_SCALE - self.scale) as nat) == -(
            self.mantissa * pow10((MAX_SCALE - self.scale) as nat))) by (nonlinear_arith);
        }
        Decimal { mantissa: -self.mantissa, scale: self.scale }
    }

    /// Whether the sum of two decimals at their common scale stays within
    /// the mantissa limit; exactly when [`Decimal::checked_add`] succeeds.
    pub open spec fn spec_add_ok(self, other: Decimal) -> bool {
        let s = if self.scale >= other.scale {
            self.scale
        } else {
            other.scale
        };
        let ma = self.mantissa * pow10((s - self.scale) as nat);
        let mb = other.mantissa * pow10((s - other.scale) as nat);
        &&& -MANTISSA_LIMIT <= ma <= MANTISSA_LIMIT
        &&& -MANTISSA_LIMIT <= mb <= MANTISSA_LIMIT
        &&& -MANTISSA_LIMIT <= ma + mb <= MANTISSA_LIMIT
    }

    /// The sum at the common scale, as a spec value; meaningful when
    /// `spec_add_ok` holds.
    pub open spec fn spec_add(self, other: Decimal) -> Decimal {
        let s = if self.scale >= other.scale {
            self.scale
        } else {
            other.scale
        };
        let ma = self.mantissa * pow10((s - self.scale) as nat);
        let mb = other.mantissa * pow10((s - other.scale) as nat);
        Decimal { mantissa: (ma + mb) as i128, scale: s }
    }

    /// Exact addition at the common scale.  Returns `None` exactly when
    /// the result cannot be represented there.
    pub fn checked_add(&self, other: &Decimal) -> (r: Option<Decimal>)
        requires
            self.wf(),
            other.wf(),
        ensures
            r is Some <==> self.spec_add_ok(*other),
            r matches Some(v) ==> {
                &&& v == self.spec_add(*other)
                &&& v.wf()
                &&& v.units() == self.units() + other.units()
                &&& v.scale == if self.scale >= other.scale {
                    self.scale
                } else {
                    other.scale
                }
            },
    {
        let (s, ma, mb) = if self.scale == other.scale {
            proof {
                lemma_pow10_zero();
            }
            (self.scale, self.mantissa, other.mantissa)
        } else if self.scale < other.scale {
            proof {
                lemma_pow10_zero();
            }
            match rescale_mantissa(self.mantissa, other.scale - self.scale) {
                Some(v) => (other.scale, v, other.mantissa),
                None => {
                    return None;
                },
            }
        } else {
            proof {
                lemma_pow10_zero();
            }
            match rescale_mantissa(other.mantissa, self.scale - other.scale) {
                Some(v) => (self.scale, self.mantissa, v),
                None => {
                    return None;
                },
            }
        };
        let sum = ma + mb;
        if sum > MANTISSA_LIMIT || sum < -MANTISSA_LIMIT {
            proof {
                let smax = if self.scale >= other.scale {
                    self.scale
                } else {
                    other.scale
                };
                lemma_pow10_zero();
                assert(self.mantissa * pow10(0) == self.mantissa) by (nonlinear_arith)
                    requires
                        pow10(0) == 1,
                ;
                assert(other.mantissa * pow10(0) == other.mantissa) by (nonlinear_arith)
                    requires
                        pow10(0) == 1,
                ;
                assert(ma == self.mantissa * pow10((smax - self.scale) as nat));
                assert(mb == other.mantissa * pow10((smax - other.scale) as nat));
                assert(!self.spec_add_ok(*other));
            }
            return None;
        }
        proof {
            let smax = if self.scale >= other.scale {
                self.scale
            } else {
                other.scale
            };
            let rest = (MAX_SCALE - smax) as nat;
            if self.scale <= other.scale {
                lemma_units_at_common_scale(*self, *other);
            } else {
                lemma_units_at_common_scale(*other, *self);
            }
            lemma_mul_is_distributive_add_other_way(pow10(rest), ma as int, mb as int);
        }
        Some(Decimal { mantissa: sum, scale: s })
    }

    /// Exact subtraction at the common scale; `None` exactly when the
    /// difference cannot be represented there.
    pub fn checked_sub(&self, other: &Decimal) -> (r: Option<Decimal>)
        requires
            self.wf(),
            other.wf(),
        ensures
            r is Some <==> self.spec_add_ok(other.neg_spec()),
            r matches Some(v) ==> {
                &&& v == self.spec_add(other.neg_spec())
                &&& v.wf()
                &&& v.units() == self.units() - other.units()
                &&& v.scale == if self.scale >= other.scale {
                    self.scale
                } else {
                    other.scale
                }
            },
    {
        self.checked_add(&other.neg())
    }

    /// The negation, as a spec-level value.
    pub open spec fn neg_spec(self) -> Decimal {
        Decimal { mantissa: -self.mantissa as i128, scale: self.scale }
    }
}

impl PartialEq for Decimal {
    /// Value equality: `2.0` equals `2.00`.  (Malformed values, which no
    /// constructor produces, fall back to field equality.)
    fn eq(&self, other: &Decimal) -> (r: bool) {
        let wf = self.scale <= MAX_SCALE && -MANTISSA_LIMIT <= self.mantissa && self.mantissa
            <= MANTISSA_LIMIT && other.scale <= MAX_SCALE && -MANTISSA_LIMIT <= other.mantissa
            && other.mantissa <= MANTISSA_LIMIT;
        if wf {
            match self.cmp_values(other) {
                core::cmp::Ordering::Equal => true,
                _ => false,
            }
        } else {
            self.mantissa == other.mantissa && self.scale == other.scale
        }
    }
}

impl vstd::std_specs::cmp::PartialEqSpecImpl for Decimal {
    open spec fn obeys_eq_spec() -> bool {
        true
    }

    open spec fn eq_spec(&self, other: &Decimal) -> bool {
        if self.wf() && other.wf() {
            self.units() == other.units()
        } else {
            self.mantissa == other.mantissa && self.scale == other.scale
        }
    }
}

impl Eq for Decimal {

}

/// The sign of the units is the sign of the mantissa.
pub proof fn lemma_units_sign(d: Decimal)
    requires
        d.wf(),
    ensures
        d.units() < 0 <==> d.mantissa < 0,
        d.units() == 0 <==> d.mantissa == 0,
        d.units() > 0 <==> d.mantissa > 0,
{
    let p = pow10((MAX_SCALE - d.scale) as nat);
    lemma_pow10_positive((MAX_SCALE - d.scale) as nat);
    assert((d.mantissa < 0 ==> d.mantissa * p < 0) && (d.mantissa == 0 ==> d.mantissa * p == 0)
        && (d.mantissa > 0 ==> d.mantissa * p > 0)) by (nonlinear_arith)
        requires
            p > 0,
    ;
}

/// Plain `i128` three-way comparison.
fn cmp_i128(a: i128, b: i128) -> (r: core::cmp::Ordering)
    ensures
        r == core::cmp::Ordering::Less <==> a < b,
        r == core::cmp::Ordering::Equal <==> a == b,
        r == core::cmp::Ordering::Greater <==> a > b,
{
    if a < b {
        core::cmp::Ordering::Less
    } else if a == b {
        core::cmp::Ordering::Equal
    } else {
        core::cmp::Ordering::Greater
    }
}

/// Compares two decimals where the first has the lower scale.
fn cmp_lower_scale_first(a: &Decimal, b: &Decimal) -> (r: core::cmp::Ordering)
    requires
        a.wf(),
        b.wf(),
        a.scale < b.scale,
    ensures
        r == core::cmp::Ordering::Less <==> a.units() < b.units(),
        r == core::cmp::Ordering::Equal <==> a.units() == b.units(),
        r == core::cmp::Ordering::Greater <==> a.units() > b.units(),
{
    let diff = b.scale - a.scale;
    proof {
        lemma_units_at_common_scale(*a, *b);
        lemma_pow10_positive((MAX_SCALE - b.scale) as nat);
        lemma_mul_cancel_order(
            a.mantissa * pow10(diff as nat),
            b.mantissa as int,
            pow10((MAX_SCALE - b.scale) as nat),
        );
    }
    match rescale_mantissa(a.mantissa, diff) {
        Some(v) => cmp_i128(v, b.mantissa),
        None => {
            // The raised mantissa overflows the limit, so it is farther
            // from zero than any representable mantissa, in particular
            // `b`'s; its sign decides the comparison.
            proof {
                lemma_pow10_positive(diff as nat);
                assert(a.mantissa != 0) by {
                    if a.mantissa == 0 {
                        assert(a.mantissa * pow10(diff as nat) == 0) by (nonlinear_arith)
                            requires
                                a.mantissa == 0,
                        ;
                    }
                }
                if a.mantissa > 0 {
                    assert(a.mantissa * pow10(diff as nat) > 0) by (nonlinear_arith)
                        requires
                            a.mantissa > 0,
                            pow10(diff as nat) > 0,
                    ;
                } else {
                    assert(a.mantissa * pow10(diff as nat) < 0) by (nonlinear_arith)
                        requires
                            a.mantissa < 0,
                            pow10(diff as nat) > 0,
                    ;
                }
            }
            if a.mantissa > 0 {
                core::cmp::Ordering::Greater
            } else {
                core::cmp::Ordering::Less
            }
        },
    }
}

/// A midpoint rounding rule: what happens to a value exactly between
/// two representable neighbours.
#[derive(Debug, Clone, Copy, PartialEq, Eq, Structural)]
pub enum RoundingStrategy {
    /// Commercial rounding: ties go away from zero.
    MidpointAwayFromZero,
    /// Banker's rounding: ties go to the even neighbour.
    MidpointNearestEven,
}

/// `n / d` rounded to the nearest integer, ties away from zero
/// (`d` must be positive; `/` is Euclidean division).
pub open spec fn round_half_away(n: int, d: int) -> int {
    if n >= 0 {
        (2 * n + d) / (2 * d)
    } else {
        -((2 * (-n) + d) / (2 * d))
    }
}

/// `n / d` rounded to the nearest integer, ties to the even neighbour
/// (`d` must be positive; `/` and `%` are Euclidean).
pub open spec fn round_half_even(n: int, d: int) -> int {
    let q = n / d;
    let r = n % d;
    if 2 * r < d {
        q
    } else if 2 * r > d {
        q + 1
    } else if q % 2 == 0 {
        q
    } else {
        q + 1
    }
}

impl Decimal {
    /// Whether the value is a whole number (an integer).
    pub open spec fn spec_is_integral(self) -> bool {
        self.mantissa as int % pow10(self.scale as nat) == 0
    }

    /// Whether the scaled product of two decimals stays representable;
    /// exactly when [`Decimal::checked_mul`] succeeds.
    pub open spec fn spec_mul_ok(self, other: Decimal) -> bool {
        &&& self.scale + other.scale <= MAX_SCALE
        &&& -MANTISSA_LIMIT <= self.mantissa * other.mantissa <= MANTISSA_LIMIT
    }

    /// Exact multiplication: mantissas multiply and scales add.  The
    /// product's value, in units, satisfies
    /// `r.units() * 10^MAX_SCALE == self.units() * other.units()`.
    pub fn checked_mul(&self, other: &Decimal) -> (r: Option<Decimal>)
        requires
            self.wf(),
            other.wf(),
        ensures
            r is Some <==> self.spec_mul_ok(*other),
            r matches Some(v) ==> {
                &&& v.wf()
                &&& v.scale == self.scale + other.scale
                &&& v.mantissa == self.mantissa * other.mantissa
                &&& v.units() * pow10(MAX_SCALE as nat) == self.units() * other.units()
            },
    {
        if self.scale + other.scale > MAX_SCALE {
            return None;
        }
        match self.mantissa.checked_mul(other.mantissa) {
            Some(p) => {
                if p > MANTISSA_LIMIT || p < -MANTISSA_LIMIT {
                    None
                } else {
                    proof {
                        lemma_mul_units_relation(*self, *other, p as int);
                    }
                    Some(Decimal { mantissa: p, scale: self.scale + other.scale })
                }
            },
            None => {
                proof {
                    // A product that overflows an `i128` is far outside the
                    // 96-bit mantissa limit.
                    assert(self.mantissa * other.mantissa > MANTISSA_LIMIT || self.mantissa
                        * other.mantissa < -MANTISSA_LIMIT);
                }
                None
            },
        }
    }

    /// The largest integer not above the value, as a decimal of scale 0.
    pub fn floor(&self) -> (r: Decimal)
        requires
            self.wf(),
        ensures
            r.wf(),
            r.scale == 0,
            r.mantissa == self.mantissa as int / pow10(self.scale as nat),
    {
        let pow = pow10_i128(self.scale);
        let (q, _rem) = divmod_mantissa(self.mantissa, pow);
        Decimal { mantissa: q, scale: 0 }
    }

    /// The rounded value, as a spec value.
    pub open spec fn spec_round(self, dp: u32, strategy: RoundingStrategy) -> Decimal {
        if dp >= self.scale {
            self
        } else {
            Decimal {
                mantissa: (match strategy {
                    RoundingStrategy::MidpointAwayFromZero => round_half_away(
                        self.mantissa as int,
                        pow10((self.scale - dp) as nat),
                    ),
                    RoundingStrategy::MidpointNearestEven => round_half_even(
                        self.mantissa as int,
                        pow10((self.scale - dp) as nat),
                    ),
                }) as i128,
                scale: dp,
            }
        }
    }

    /// Rounds to `dp` fractional digits with the chosen midpoint rule.
    /// A value that already has no more than `dp` digits is unchanged.
    pub fn round_dp_with_strategy(&self, dp: u32, strategy: RoundingStrategy) -> (r: Decimal)
        requires
            self.wf(),
        ensures
            r.wf(),
            r == self.spec_round(dp, strategy),
            dp >= self.scale ==> r == *self,
            dp < self.scale ==> {
                &&& r.scale == dp
                &&& r.mantissa == match strategy {
                    RoundingStrategy::MidpointAwayFromZero => round_half_away(
                        self.mantissa as int,
                        pow10((self.scale - dp) as nat),
                    ),
                    RoundingStrategy::MidpointNearestEven => round_half_even(
                        self.mantissa as int,
                        pow10((self.scale - dp) as nat),
                    ),
                }
            },
    {
        if dp >= self.scale {
            return *self;
        }
        let pow = pow10_i128(self.scale - dp);
        proof {
            lemma_pow10_at_least_ten((self.scale - dp) as nat);
        }
        let (q, rem) = divmod_mantissa(self.mantissa, pow);
        let ghost m = self.mantissa as int;
        let ghost d = pow as int;
        let rounded: i128 = match strategy {
            RoundingStrategy::MidpointAwayFromZero => {
                if self.mantissa >= 0 {
                    let up: bool = rem >= pow - rem;
                    proof {
                        lemma_round_half_away_from_divmod(m, d, q as int, rem as int);
                    }
                    if up {
                        q + 1
                    } else {
                        q
                    }
                } else {
                    // For a negative value the Euclidean remainder measures
                    // the distance up to the next integer: the magnitude of
                    // the result grows (ties included) iff `2 * rem <= d`.
                    proof {
                        lemma_round_half_away_from_divmod(m, d, q as int, rem as int);
                    }
                    if rem == 0 || rem <= pow - rem {
                        q
                    } else {
                        q + 1
                    }
                }
            },
            RoundingStrategy::MidpointNearestEven => {
                let two_rem_cmp: core::cmp::Ordering = cmp_i128(2 * rem, pow);
                proof {
                    lemma_q_bound_for_rounding(m, d, q as int, rem as int);
                }
                match two_rem_cmp {
                    core::cmp::Ordering::Less => q,
                    core::cmp::Ordering::Greater => q + 1,
                    core::cmp::Ordering::Equal => {
                        if is_even_i128(q) {
                            q
                        } else {
                            q + 1
                        }
                    },
                }
            },
        };
        proof {
            lemma_q_bound_for_rounding(m, d, q as int, rem as int);
        }
        Decimal { mantissa: rounded, scale: dp }
    }
}

impl Decimal {
    /// Holds when the quotient's magnitude comes within a hair of the
    /// mantissa limit; the only circumstance in which
    /// [`Decimal::checked_div`] may give up.
    pub open spec fn spec_div_near_limit(self, other: Decimal) -> bool {
        2 * abs(self.units()) > (2 * MANTISSA_LIMIT - 32) * abs(other.units())
    }

    /// What it means for `q` to be the correctly rounded quotient of
    /// `a` over `b`: well-formed, with the right sign, within half an
    /// ulp of the true quotient at its own scale (ties going up in
    /// magnitude), and inexact only when the scale or the mantissa left
    /// no room for another digit.
    pub open spec fn spec_is_quotient(q: Decimal, a: Decimal, b: Decimal) -> bool {
        &&& q.wf()
        &&& (q.mantissa == 0 || ((q.mantissa < 0) <==> ((a.mantissa < 0) != (b.mantissa < 0))))
        &&& 2 * (abs(a.units()) * pow10(q.scale as nat) - abs(q.mantissa as int) * abs(b.units()))
            < abs(b.units())
        &&& 2 * (abs(q.mantissa as int) * abs(b.units()) - abs(a.units()) * pow10(q.scale as nat))
            <= abs(b.units())
        &&& (abs(a.units()) * pow10(q.scale as nat) != abs(q.mantissa as int) * abs(b.units())
            ==> q.scale == MAX_SCALE || 10 * abs(q.mantissa as int) + 15 > MANTISSA_LIMIT)
    }

    /// Long division.  The result carries as many fractional digits as
    /// the exact quotient needs, up to [`MAX_SCALE`] digits and the
    /// mantissa capacity; an inexact quotient is rounded to nearest at
    /// its last digit, ties away from zero.  `None` only for quotients
    /// whose magnitude ends up within a hair of the mantissa limit.
    pub fn checked_div(&self, other: &Decimal) -> (r: Option<Decimal>)
        requires
            self.wf(),
            other.wf(),
            other.mantissa != 0,
        ensures
            r matches Some(v) ==> Decimal::spec_is_quotient(v, *self, *other),
            r is None ==> self.spec_div_near_limit(*other),
    {
        let sa = self.scale;
        let sb = other.scale;
        let n: u128 = if self.mantissa >= 0 {
            self.mantissa as u128
        } else {
            (-self.mantissa) as u128
        };
        let d: u128 = if other.mantissa >= 0 {
            other.mantissa as u128
        } else {
            (-other.mantissa) as u128
        };
        let negative: bool = (self.mantissa < 0) != (other.mantissa < 0);
        let mut m: u128 = n / d;
        let mut rem: u128 = n % d;
        let mut k: u32 = 0;
        proof {
            lemma_pow10_zero();
            lemma_fundamental_div_mod(n as int, d as int);
            assert(n as int * pow10(0) == (n / d) as int * d + (n % d) as int)
                by (nonlinear_arith)
                requires
                    pow10(0) == 1,
                    n as int == d as int * ((n as int) / (d as int)) + (n as int) % (d as int),
                    (n / d) as int == (n as int) / (d as int),
                    (n % d) as int == (n as int) % (d as int),
            ;
        }
        while rem != 0 && k + sa < MAX_SCALE + sb && m <= (MANTISSA_LIMIT as u128 - 10) / 10
            invariant
                self.wf(),
                other.wf(),
                sa == self.scale,
                sb == other.scale,
                n == abs(self.mantissa as int),
                d == abs(other.mantissa as int),
                1 <= d <= MANTISSA_LIMIT as u128,
                n <= MANTISSA_LIMIT as u128,
                0 <= rem < d,
                m <= MANTISSA_LIMIT as u128,
                k >= 1 ==> m <= MANTISSA_LIMIT as u128 - 1,
                n as int * pow10(k as nat) == m * d + rem,
                k + sa <= MAX_SCALE + sb,
            decreases MAX_SCALE + sb - sa - k,
        {
            let ten_rem: u128 = rem * 10;
            let digit: u128 = ten_rem / d;
            let new_rem: u128 = ten_rem % d;
            proof {
                lemma_fundamental_div_mod(ten_rem as int, d as int);
                // digit <= 9 because ten_rem < 10 * d
                assert(ten_rem < d * 10) by (nonlinear_arith)
                    requires
                        ten_rem == rem * 10,
                        rem < d,
                ;
                vstd::arithmetic::div_mod::lemma_multiply_divide_lt(
                    ten_rem as int,
                    d as int,
                    10,
                );
                // 10 * m stays clear of the limit
                lemma_fundamental_div_mod((MANTISSA_LIMIT - 10) as int, 10);
                lemma_pow10_unfold((k + 1) as nat);
                assert(n as int * pow10((k + 1) as nat) == (10 * m + digit) * d + new_rem)
                    by (nonlinear_arith)
                    requires
                        n as int * pow10(k as nat) == m * d + rem,
                        pow10((k + 1) as nat) == 10 * pow10(k as nat),
                        ten_rem == rem * 10,
                        ten_rem as int == d as int * (digit as int) + (new_rem as int),
                ;
            }
            m = m * 10 + digit;
            rem = new_rem;
            k = k + 1;
        }
        // Round the last generated digit to nearest, ties away from zero.
        let round_up: bool = rem != 0 && 2 * rem >= d;
        let m_rounded: u128 = if round_up {
            m + 1
        } else {
            m
        };
        let ghost raw_err: int = if round_up {
            rem as int - d as int
        } else {
            rem as int
        };
        let ghost stopped_full: bool = m > (MANTISSA_LIMIT as u128 - 10) / 10;
        proof {
            if round_up {
                if k == 0 {
                    // rem != 0 forces d >= 2, so m == n / d <= limit / 2.
                    assert(d >= 2);
                    lemma_pow10_zero();
                    assert(n as int == m * d + rem) by (nonlinear_arith)
                        requires
                            n as int * pow10(0) == m * d + rem,
                            pow10(0) == 1,
                    ;
                    assert(n < d * ((MANTISSA_LIMIT / 2 + 1) as int)) by (nonlinear_arith)
                        requires
                            d >= 2,
                            n <= MANTISSA_LIMIT as u128,
                            MANTISSA_LIMIT as int / 2 + 1 > MANTISSA_LIMIT as int / 2,
                            MANTISSA_LIMIT > 2,
                    ;
                    lemma_fundamental_div_mod(n as int, d as int);
                    vstd::arithmetic::div_mod::lemma_multiply_divide_lt(
                        n as int,
                        d as int,
                        (MANTISSA_LIMIT / 2 + 1) as int,
                    );
                    lemma_fundamental_div_mod_converse(n as int, d as int, m as int, rem as int);
                }
                assert(m_rounded <= MANTISSA_LIMIT as u128);
                assert((m + 1) * d == m * d + d) by (nonlinear_arith);
            }
            assert(n as int * pow10(k as nat) == m_rounded * d + raw_err);
            assert(-(d as int) <= 2 * raw_err < d as int);
        }
        if k + sa >= sb {
            let s_r: u32 = k + sa - sb;
            proof {
                lemma_div_final_scaled(*self, *other, m_rounded as int, raw_err, k as nat, s_r);
                if raw_err != 0 {
                    // The loop stopped short of an exact quotient: either the
                    // scale or the mantissa ran out.
                    if k + sa < MAX_SCALE + sb {
                        assert(stopped_full);
                        assert(10 * (m as int) >= MANTISSA_LIMIT - 5);
                    }
                }
            }
            Some(
                Decimal {
                    mantissa: if negative {
                        -(m_rounded as i128)
                    } else {
                        m_rounded as i128
                    },
                    scale: s_r,
                },
            )
        } else {
            // The quotient needs its decimal point moved further right
            // than the digits generated: only exact quotients can be
            // represented, by raising the mantissa.
            let j: u32 = sb - sa - k;
            if rem != 0 {
                proof {
                    lemma_div_overflow_inexact(*self, *other, m as int, rem as int, k as nat, j);
                }
                return None;
            }
            match rescale_mantissa(m_rounded as i128, j) {
                Some(v) => {
                    proof {
                        lemma_div_final_shifted(*self, *other, m_rounded as int, k as nat, j);
                        lemma_pow10_positive(j as nat);
                        assert(m_rounded as int * pow10(j as nat) >= 0) by (nonlinear_arith)
                            requires
                                m_rounded as int >= 0,
                                pow10(j as nat) > 0,
                        ;
                        lemma_pow10_zero();
                    }
                    Some(
                        Decimal {
                            mantissa: if negative {
                                -v
                            } else {
                                v
                            },
                            scale: 0,
                        },
                    )
                },
                None => {
                    proof {
                        lemma_div_overflow_exact(*self, *other, m_rounded as int, k as nat, j);
                    }
                    None
                },
            }
        }
    }
}

/// The magnitude of a well-formed decimal's units is its mantissa's
/// magnitude raised to full scale.
proof fn lemma_abs_units(x: Decimal)
    requires
        x.wf(),
    ensures
        abs(x.units()) == abs(x.mantissa as int) * pow10((MAX_SCALE - x.scale) as nat),
{
    let p = pow10((MAX_SCALE - x.scale) as nat);
    lemma_pow10_positive((MAX_SCALE - x.scale) as nat);
    if x.mantissa >= 0 {
        assert(x.mantissa * p >= 0) by (nonlinear_arith)
            requires
                x.mantissa >= 0,
                p > 0,
        ;
    } else {
        assert(x.mantissa * p < 0 && (-x.mantissa) * p == -(x.mantissa * p))
            by (nonlinear_arith)
            requires
                x.mantissa < 0,
                p > 0,
        ;
    }
}

/// Shared algebra of division: the raw digits at `k`, against the
/// divisor, measure the quotient at the result scale.  Concretely
/// `abs(a.units()) * 10^s_r == (n * 10^k) * 10^(MAX_SCALE - b.scale)`
/// whenever `s_r == k + a.scale - b.scale`.
proof fn lemma_div_scale_algebra(a: Decimal, b: Decimal, k: nat, s_r: nat)
    requires
        a.wf(),
        b.wf(),
        s_r == k + a.scale - b.scale,
        s_r <= MAX_SCALE,
    ensures
        abs(a.units()) * pow10(s_r) == (abs(a.mantissa as int) * pow10(k)) * pow10(
            (MAX_SCALE - b.scale) as nat,
        ),
        abs(b.units()) == abs(b.mantissa as int) * pow10((MAX_SCALE - b.scale) as nat),
        abs(b.mantissa as int) >= 1 ==> abs(b.units()) >= 1,
{
    lemma_abs_units(a);
    lemma_abs_units(b);
    let n = abs(a.mantissa as int);
    let pa = pow10((MAX_SCALE - a.scale) as nat);
    let pb = pow10((MAX_SCALE - b.scale) as nat);
    // (MAX_SCALE - a.scale) + s_r == k + (MAX_SCALE - b.scale)
    lemma_pow10_adds((MAX_SCALE - a.scale) as nat, s_r);
    lemma_pow10_adds(k, (MAX_SCALE - b.scale) as nat);
    assert(pa * pow10(s_r) == pow10(k) * pb);
    assert((n * pa) * pow10(s_r) == (n * pow10(k)) * pb) by (nonlinear_arith)
        requires
            pa * pow10(s_r) == pow10(k) * pb,
    ;
    lemma_pow10_positive((MAX_SCALE - b.scale) as nat);
    if abs(b.mantissa as int) >= 1 {
        assert(abs(b.mantissa as int) * pb >= 1) by (nonlinear_arith)
            requires
                abs(b.mantissa as int) >= 1,
                pb >= 1,
        ;
    }
}

/// The rounded raw quotient, rescaled to the result scale, is within
/// half an ulp of the true quotient, with ties going up in magnitude.
proof fn lemma_div_final_scaled(a: Decimal, b: Decimal, mq: int, err: int, k: nat, s_r: u32)
    requires
        a.wf(),
        b.wf(),
        b.mantissa != 0,
        s_r == k + a.scale - b.scale,
        s_r <= MAX_SCALE,
        abs(a.mantissa as int) * pow10(k) == mq * (abs(b.mantissa as int)) + err,
        -abs(b.mantissa as int) <= 2 * err < abs(b.mantissa as int),
        0 <= mq,
    ensures
        2 * (abs(a.units()) * pow10(s_r as nat) - mq * abs(b.units())) < abs(b.units()),
        2 * (mq * abs(b.units()) - abs(a.units()) * pow10(s_r as nat)) <= abs(b.units()),
        abs(a.units()) * pow10(s_r as nat) != mq * abs(b.units()) <==> err != 0,
{
    lemma_div_scale_algebra(a, b, k, s_r as nat);
    let n = abs(a.mantissa as int);
    let d = abs(b.mantissa as int);
    let pb = pow10((MAX_SCALE - b.scale) as nat);
    lemma_pow10_positive((MAX_SCALE - b.scale) as nat);
    assert(abs(a.units()) * pow10(s_r as nat) - mq * abs(b.units()) == err * pb)
        by (nonlinear_arith)
        requires
            abs(a.units()) * pow10(s_r as nat) == (n * pow10(k)) * pb,
            abs(b.units()) == d * pb,
            n * pow10(k) == mq * d + err,
    ;
    assert(2 * (err * pb) < d * pb && 2 * ((-err) * pb) <= d * pb && (-err) * pb == -(err
        * pb)) by (nonlinear_arith)
        requires
            pb > 0,
            -d <= 2 * err < d,
    ;
    assert(err != 0 ==> err * pb != 0) by (nonlinear_arith)
        requires
            pb > 0,
    ;
}

/// An exact raw quotient whose decimal point still has to move right:
/// raising the mantissa by `10^j` gives the exact quotient at scale 0.
proof fn lemma_div_final_shifted(a: Decimal, b: Decimal, mq: int, k: nat, j: u32)
    requires
        a.wf(),
        b.wf(),
        b.mantissa != 0,
        j == b.scale - a.scale - k,
        j >= 1,
        abs(a.mantissa as int) * pow10(k) == mq * (abs(b.mantissa as int)),
        0 <= mq,
    ensures
        abs(a.units()) * pow10(0) == (mq * pow10(j as nat)) * abs(b.units()),
        abs(b.units()) >= 1,
{
    lemma_abs_units(a);
    lemma_abs_units(b);
    let n = abs(a.mantissa as int);
    let d = abs(b.mantissa as int);
    let pa = pow10((MAX_SCALE - a.scale) as nat);
    let pb = pow10((MAX_SCALE - b.scale) as nat);
    lemma_pow10_zero();
    // MAX_SCALE - a.scale == k + j + (MAX_SCALE - b.scale)
    lemma_pow10_adds(k, (j + (MAX_SCALE - b.scale)) as nat);
    lemma_pow10_adds(j as nat, (MAX_SCALE - b.scale) as nat);
    assert(pa == pow10(k) * (pow10(j as nat) * pb));
    assert((n * pa) * 1 == (mq * pow10(j as nat)) * (d * pb)) by (nonlinear_arith)
        requires
            pa == pow10(k) * (pow10(j as nat) * pb),
            n * pow10(k) == mq * d,
    ;
    lemma_pow10_positive((MAX_SCALE - b.scale) as nat);
    assert(d * pb >= 1) by (nonlinear_arith)
        requires
            d >= 1,
            pb >= 1,
    ;
    assert(abs(a.units()) * pow10(0) == abs(a.units()));
}

/// Stopping with a remainder while the point still has to move right
/// means the mantissa ran out of room: the quotient is essentially at
/// the limit.
proof fn lemma_div_overflow_inexact(a: Decimal, b: Decimal, mq: int, rem: int, k: nat, j: u32)
    requires
        a.wf(),
        b.wf(),
        b.mantissa != 0,
        j == b.scale - a.scale - k,
        j >= 1,
        abs(a.mantissa as int) * pow10(k) == mq * (abs(b.mantissa as int)) + rem,
        0 <= rem,
        10 * mq > MANTISSA_LIMIT - 10,
    ensures
        a.spec_div_near_limit(b),
{
    lemma_abs_units(a);
    lemma_abs_units(b);
    let n = abs(a.mantissa as int);
    let d = abs(b.mantissa as int);
    let pa = pow10((MAX_SCALE - a.scale) as nat);
    let pb = pow10((MAX_SCALE - b.scale) as nat);
    lemma_pow10_adds(k, (j + (MAX_SCALE - b.scale)) as nat);
    lemma_pow10_adds(j as nat, (MAX_SCALE - b.scale) as nat);
    assert(pa == pow10(k) * (pow10(j as nat) * pb));
    lemma_pow10_at_least_ten(j as nat);
    lemma_pow10_positive((MAX_SCALE - b.scale) as nat);
    // abs(a.units()) == (mq d + rem) * 10^j * pb >= 10 mq * (d * pb)
    assert(n * pa >= (10 * mq) * (d * pb)) by (nonlinear_arith)
        requires
            pa == pow10(k) * (pow10(j as nat) * pb),
            n * pow10(k) == mq * d + rem,
            0 <= rem,
            pow10(j as nat) >= 10,
            pb >= 1,
            d >= 1,
            mq >= 0,
    ;
    assert(d * pb >= 1) by (nonlinear_arith)
        requires
            d >= 1,
            pb >= 1,
    ;
    assert(2 * (n * pa) > (2 * MANTISSA_LIMIT - 32) * (d * pb)) by (nonlinear_arith)
        requires
            n * pa >= (10 * mq) * (d * pb),
            10 * mq > MANTISSA_LIMIT - 10,
            d * pb >= 1,
            n * pa >= 0,
            MANTISSA_LIMIT > 32,
    ;
}

/// An exact quotient that cannot be raised to scale 0 within the
/// mantissa limit is beyond the limit.
proof fn lemma_div_overflow_exact(a: Decimal, b: Decimal, mq: int, k: nat, j: u32)
    requires
        a.wf(),
        b.wf(),
        b.mantissa != 0,
        j == b.scale - a.scale - k,
        j >= 1,
        abs(a.mantissa as int) * pow10(k) == mq * (abs(b.mantissa as int)),
        0 <= mq,
        mq * pow10(j as nat) > MANTISSA_LIMIT || mq * pow10(j as nat) < -MANTISSA_LIMIT,
    ensures
        a.spec_div_near_limit(b),
{
    lemma_pow10_positive(j as nat);
    assert(mq * pow10(j as nat) >= 0) by (nonlinear_arith)
        requires
            mq >= 0,
            pow10(j as nat) > 0,
    ;
    lemma_div_final_shifted(a, b, mq, k, j);
    lemma_pow10_zero();
    assert(2 * (abs(a.units()) * 1) > (2 * MANTISSA_LIMIT - 32) * abs(b.units()))
        by (nonlinear_arith)
        requires
            abs(a.units()) * pow10(0) == (mq * pow10(j as nat)) * abs(b.units()),
            pow10(0) == 1,
            mq * pow10(j as nat) > MANTISSA_LIMIT,
            abs(b.units()) >= 1,
            MANTISSA_LIMIT > 32,
    ;
}

/// Tests evenness of a possibly negative mantissa.
fn is_even_i128(q: i128) -> (r: bool)
    requires
        -MANTISSA_LIMIT - 1 <= q <= MANTISSA_LIMIT + 1,
    ensures
        r == (q as int % 2 == 0),
{
    let n: u128 = if q >= 0 {
        q as u128
    } else {
        (-q) as u128
    };
    proof {
        if q < 0 {
            // -n and n have the same parity.
            lemma_fundamental_div_mod(n as int, 2);
            if n as int % 2 == 0 {
                lemma_fundamental_div_mod_converse(q as int, 2, -((n as int) / 2), 0);
            } else {
                lemma_fundamental_div_mod_converse(q as int, 2, -((n as int) / 2) - 1, 1);
            }
        }
    }
    n % 2 == 0
}

/// Euclidean quotient and remainder of a bounded mantissa by a positive
/// bounded divisor.
pub(crate) fn divmod_mantissa(m: i128, d: i128) -> (qr: (i128, i128))
    requires
        -MANTISSA_LIMIT <= m <= MANTISSA_LIMIT,
        0 < d <= MANTISSA_LIMIT,
    ensures
        qr.0 == m as int / d as int,
        qr.1 == m as int % d as int,
        -MANTISSA_LIMIT <= qr.0 <= MANTISSA_LIMIT,
        0 <= qr.1 < d,
        m as int == qr.0 * d + qr.1,
{
    if m >= 0 {
        let n = m as u128;
        let du = d as u128;
        let q = n / du;
        let r = n % du;
        proof {
            assert(n as int == du as int * (n as int / du as int) + n as int % du as int) by {
                lemma_fundamental_div_mod(n as int, du as int);
            }
            lemma_fundamental_div_mod_converse(m as int, d as int, q as int, r as int);
        }
        (q as i128, r as i128)
    } else {
        let n = (-m) as u128;
        let du = d as u128;
        let q0 = n / du;
        let r0 = n % du;
        proof {
            lemma_fundamental_div_mod(n as int, du as int);
        }
        if r0 == 0 {
            proof {
                assert(m as int == (-(q0 as int)) * (d as int) + 0) by (nonlinear_arith)
                    requires
                        m as int == -(n as int),
                        n as int == du as int * (q0 as int) + r0 as int,
                        r0 == 0,
                        du as int == d as int,
                ;
                lemma_fundamental_div_mod_converse(m as int, d as int, -(q0 as int), 0);
            }
            (-(q0 as i128), 0)
        } else {
            proof {
                assert(m as int == (-(q0 as int) - 1) * (d as int) + (d as int - r0 as int))
                    by (nonlinear_arith)
                    requires
                        m as int == -(n as int),
                        n as int == du as int * (q0 as int) + r0 as int,
                        du as int == d as int,
                ;
                lemma_fundamental_div_mod_converse(
                    m as int,
                    d as int,
                    -(q0 as int) - 1,
                    d - r0 as int,
                );
                // q0 < MANTISSA_LIMIT because the divisor here is at least 2.
                assert(d >= 2);
                vstd::arithmetic::div_mod::lemma_div_is_ordered_by_denominator(n as int, 2, d as int);
                vstd::arithmetic::div_mod::lemma_div_is_ordered(
                    n as int,
                    MANTISSA_LIMIT as int,
                    2,
                );
                assert(MANTISSA_LIMIT as int / 2 < MANTISSA_LIMIT);
            }
            ((-(q0 as i128)) - 1, d - (r0 as i128))
        }
    }
}

/// Relates the away-from-zero rounding spec to the Euclidean quotient and
/// remainder of `m` by `d`.
proof fn lemma_round_half_away_from_divmod(m: int, d: int, q: int, r: int)
    requires
        d >= 2,
        m == q * d + r,
        0 <= r < d,
    ensures
        m >= 0 ==> round_half_away(m, d) == if 2 * r >= d {
            q + 1
        } else {
            q
        },
        m < 0 ==> round_half_away(m, d) == if r == 0 || 2 * r <= d {
            q
        } else {
            q + 1
        },
{
    lemma_fundamental_div_mod_converse(m, d, q, r);
    if m >= 0 {
        // 2m + d == q*(2d) + (2r + d)
        assert(2 * m + d == q * (2 * d) + (2 * r + d)) by (nonlinear_arith)
            requires
                m == q * d + r,
        ;
        if 2 * r < d {
            lemma_fundamental_div_mod_converse(2 * m + d, 2 * d, q, 2 * r + d);
        } else {
            assert(2 * m + d == (q + 1) * (2 * d) + (2 * r - d)) by (nonlinear_arith)
                requires
                    m == q * d + r,
            ;
            lemma_fundamental_div_mod_converse(2 * m + d, 2 * d, q + 1, 2 * r - d);
        }
    } else {
        // -m == (-q)*d - r == (-q - 1)*d + (d - r) when r != 0.
        let n = -m;
        if r == 0 {
            assert(2 * n + d == (-q) * (2 * d) + d) by (nonlinear_arith)
                requires
                    m == q * d + r,
                    r == 0,
                    n == -m,
            ;
            lemma_fundamental_div_mod_converse(2 * n + d, 2 * d, -q, d);
        } else {
            assert(2 * n + d == (-q - 1) * (2 * d) + (3 * d - 2 * r)) by (nonlinear_arith)
                requires
                    m == q * d + r,
                    n == -m,
            ;
            if 2 * r <= d {
                // 3d - 2r >= 2d: peel one more multiple of 2d.
                assert(2 * n + d == (-q) * (2 * d) + (d - 2 * r)) by (nonlinear_arith)
                    requires
                        m == q * d + r,
                        n == -m,
                ;
                lemma_fundamental_div_mod_converse(2 * n + d, 2 * d, -q, d - 2 * r);
            } else {
                lemma_fundamental_div_mod_converse(2 * n + d, 2 * d, -q - 1, 3 * d - 2 * r);
            }
        }
    }
}

/// The quotient of a bounded mantissa by a divisor of at least 10 leaves
/// room for the rounding increment.
proof fn lemma_q_bound_for_rounding(m: int, d: int, q: int, r: int)
    requires
        d >= 2,
        m == q * d + r,
        0 <= r < d,
        -MANTISSA_LIMIT <= m <= MANTISSA_LIMIT,
    ensures
        -MANTISSA_LIMIT <= q,
        q + 1 <= MANTISSA_LIMIT,
{
    if q + 1 > MANTISSA_LIMIT {
        assert(q * d >= MANTISSA_LIMIT * 2) by (nonlinear_arith)
            requires
                q >= MANTISSA_LIMIT,
                d >= 2,
                MANTISSA_LIMIT > 0,
        ;
        assert(false);
    }
    if q < -MANTISSA_LIMIT {
        assert((q + 1) * d <= (-MANTISSA_LIMIT) * 2) by (nonlinear_arith)
            requires
                q + 1 <= -MANTISSA_LIMIT,
                d >= 2,
                MANTISSA_LIMIT > 0,
        ;
        assert(m < (q + 1) * d) by (nonlinear_arith)
            requires
                m == q * d + r,
                r < d,
        ;
        assert(false);
    }
}

/// The units of an exact product relate to the factors' units through
/// one extra power of ten.
proof fn lemma_mul_units_relation(a: Decimal, b: Decimal, p: int)
    requires
        a.wf(),
        b.wf(),
        a.scale + b.scale <= MAX_SCALE,
        p == a.mantissa * b.mantissa,
    ensures
        (p * pow10((MAX_SCALE - a.scale - b.scale) as nat)) * pow10(MAX_SCALE as nat) == a.units()
            * b.units(),
{
    let t = pow10((MAX_SCALE - a.scale - b.scale) as nat);
    let r28 = pow10(MAX_SCALE as nat);
    let pa = pow10((MAX_SCALE - a.scale) as nat);
    let pb = pow10((MAX_SCALE - b.scale) as nat);
    lemma_pow10_adds((MAX_SCALE - a.scale - b.scale) as nat, MAX_SCALE as nat);
    lemma_pow10_adds((MAX_SCALE - a.scale) as nat, (MAX_SCALE - b.scale) as nat);
    assert(t * r28 == pa * pb);
    assert((p * t) * r28 == (a.mantissa * pa) * (b.mantissa * pb)) by (nonlinear_arith)
        requires
            p == a.mantissa * b.mantissa,
            t * r28 == pa * pb,
    ;
}

/// Every `i64` mantissa is within the 96-bit limit.
proof fn lemma_mantissa_limit_holds_i64(m: i64)
    ensures
        -MANTISSA_LIMIT <= m <= MANTISSA_LIMIT,
{
}

/// `10^0 == 1`.
pub proof fn lemma_pow10_zero()
    ensures
        pow10(0) == 1,
{
    reveal(pow);
}

/// One unfolding of `pow10`.
pub proof fn lemma_pow10_unfold(e: nat)
    requires
        e >= 1,
    ensures
        pow10(e) == 10 * pow10((e - 1) as nat),
{
    reveal(pow);
}

/// Multiplying by `10^0` changes nothing.
pub proof fn lemma_mul_pow10_zero(x: int)
    ensures
        x * pow10(0) == x,
{
    lemma_pow10_zero();
    assert(x * pow10(0) == x) by (nonlinear_arith)
        requires
            pow10(0) == 1,
    ;
}

/// `10^e >= 10` whenever `e >= 1`.
pub proof fn lemma_pow10_at_least_ten(e: nat)
    requires
        e >= 1,
    ensures
        pow10(e) >= 10,
{
    lemma_pow10_zero();
    lemma_pow10_unfold(1);
    if e > 1 {
        lemma_pow10_increases(1, e);
    }
}

/// The exact value of `10^MAX_SCALE`.
pub proof fn lemma_pow10_max_scale_value()
    ensures
        pow10(MAX_SCALE as nat) == 10_000_000_000_000_000_000_000_000_000int,
{
    reveal_with_fuel(pow, 30);
}

/// For every admissible scale, `10^e` stays within the mantissa limit.
pub proof fn lemma_pow10_le_limit(e: nat)
    requires
        e <= MAX_SCALE,
    ensures
        0 < pow10(e) <= MANTISSA_LIMIT,
{
    lemma_pow10_positive(e);
    lemma_pow10_max_scale_value();
    if e < MAX_SCALE as nat {
        lemma_pow10_increases(e, MAX_SCALE as nat);
    }
}

/// Multiplying by a positive factor preserves order and equality both ways.
pub proof fn lemma_mul_cancel_order(x: int, y: int, p: int)
    requires
        p > 0,
    ensures
        (x * p < y * p) <==> (x < y),
        (x * p == y * p) <==> (x == y),
{
    if x < y {
        lemma_mul_strict_inequality(x, y, p);
    }
    if y < x {
        lemma_mul_strict_inequality(y, x, p);
    }
}

/// Two well-formed decimals compare, in units, exactly as their mantissas
/// do once the lower-scale mantissa is raised to the common scale.
pub proof fn lemma_units_at_common_scale(a: Decimal, b: Decimal)
    requires
        a.wf(),
        b.wf(),
        a.scale <= b.scale,
    ensures
        a.units() == (a.mantissa * pow10((b.scale - a.scale) as nat)) * pow10(
            (MAX_SCALE - b.scale) as nat,
        ),
        b.units() == b.mantissa * pow10((MAX_SCALE - b.scale) as nat),
{
    let d = (b.scale - a.scale) as nat;
    let rest = (MAX_SCALE - b.scale) as nat;
    lemma_pow10_adds(d, rest);
    assert(a.units() == a.mantissa * (pow10(d) * pow10(rest)));
    vstd::arithmetic::mul::lemma_mul_is_associative(a.mantissa as int, pow10(d), pow10(rest));
}

/// `10^e` computed in an `i128`.
fn pow10_i128(e: u32) -> (r: i128)
    requires
        e <= MAX_SCALE,
    ensures
        r == pow10(e as nat),
        0 < r <= MANTISSA_LIMIT,
{
    let mut acc: i128 = 1;
    let mut i: u32 = 0;
    proof {
        lemma_pow10_zero();
    }
    while i < e
        invariant
            i <= e <= MAX_SCALE,
            acc == pow10(i as nat),
            0 < acc <= MANTISSA_LIMIT,
        decreases e - i,
    {
        proof {
            lemma_pow10_le_limit((i + 1) as nat);
            lemma_pow10_unfold((i + 1) as nat);
        }
        acc = acc * 10;
        i = i + 1;
    }
    acc
}

/// Raises a bounded mantissa to a higher scale: returns
/// `m * 10^diff` when that stays within the mantissa limit, and `None`
/// when it provably cannot.
fn rescale_mantissa(m: i128, diff: u32) -> (r: Option<i128>)
    requires
        -MANTISSA_LIMIT <= m <= MANTISSA_LIMIT,
        diff <= MAX_SCALE,
    ensures
        match r {
            Some(v) => v == m * pow10(diff as nat) && -MANTISSA_LIMIT <= v <= MANTISSA_LIMIT,
            None => m * pow10(diff as nat) > MANTISSA_LIMIT || m * pow10(
                diff as nat,
            ) < -MANTISSA_LIMIT,
        },
{
    let mut acc: i128 = m;
    let mut i: u32 = 0;
    proof {
        lemma_pow10_zero();
    }
    while i < diff
        invariant
            i <= diff <= MAX_SCALE,
            -MANTISSA_LIMIT <= m <= MANTISSA_LIMIT,
            acc == m * pow10(i as nat),
            -MANTISSA_LIMIT <= acc <= MANTISSA_LIMIT,
        decreases diff - i,
    {
        if acc > MANTISSA_LIMIT / 10 || acc < -(MANTISSA_LIMIT / 10) {
            proof {
                lemma_rescale_overflow(m, acc, i as nat, diff as nat);
            }
            return None;
        }
        proof {
            lemma_pow10_unfold((i + 1) as nat);
            assert(m * (10 * pow10(i as nat)) == 10 * (m * pow10(i as nat)))
                by (nonlinear_arith);
        }
        acc = acc * 10;
        i = i + 1;
    }
    Some(acc)
}

/// If the running product already exceeds a tenth of the limit, the full
/// product exceeds the limit itself.
proof fn lemma_rescale_overflow(m: i128, acc: i128, i: nat, diff: nat)
    requires
        acc == m * pow10(i),
        i < diff,
        acc > MANTISSA_LIMIT / 10 || acc < -(MANTISSA_LIMIT / 10),
    ensures
        m * pow10(diff) > MANTISSA_LIMIT || m * pow10(diff) < -MANTISSA_LIMIT,
{
    let rest = (diff - i) as nat;
    lemma_pow10_adds(i, rest);
    vstd::arithmetic::mul::lemma_mul_is_associative(m as int, pow10(i), pow10(rest));
    assert(m * pow10(diff) == acc * pow10(rest));
    assert(pow10(rest) >= 10) by {
        lemma_pow10_zero();
        lemma_pow10_unfold(1);
        if rest > 1 {
            lemma_pow10_increases(1, rest);
        }
    }
    if acc > MANTISSA_LIMIT / 10 {
        assert(acc * 10 <= acc * pow10(rest)) by {
            lemma_mul_left_inequality_signed(acc as int, 10, pow10(rest));
        }
        assert(acc * 10 > MANTISSA_LIMIT);
    } else {
        assert(acc * pow10(rest) <= acc * 10) by {
            lemma_mul_left_inequality_signed(acc as int, 10, pow10(rest));
        }
        assert(acc * 10 < -MANTISSA_LIMIT);
    }
}

/// Order of `x * y` versus `x * z` for `y <= z`, by the sign of `x`.
proof fn lemma_mul_left_inequality_signed(x: int, y: int, z: int)
    requires
        y <= z,
    ensures
        x >= 0 ==> x * y <= x * z,
        x <= 0 ==> x * z <= x * y,
{
    if x >= 0 {
        lemma_mul_is_commutative(x, y);
        lemma_mul_is_commutative(x, z);
        lemma_mul_inequality(y, z, x);
    } else {
        assert(x * z <= x * y) by (nonlinear_arith)
            requires
                x <= 0,
                y <= z,
        ;
    }
}

/// `10^e` is strictly positive.
pub proof fn lemma_pow10_positive(e: nat)
    ensures
        pow10(e) > 0,
{
    lemma_pow_positive(10, e);
}

/// `10^(e1 + e2) == 10^e1 * 10^e2`.
pub proof fn lemma_pow10_adds(e1: nat, e2: nat)
    ensures
        pow10((e1 + e2) as nat) == pow10(e1) * pow10(e2),
{
    lemma_pow_adds(10, e1, e2);
}

/// `10^e` grows strictly with `e`.
pub proof fn lemma_pow10_increases(e1: nat, e2: nat)
    requires
        e1 < e2,
    ensures
        pow10(e1) < pow10(e2),
{
    lemma_pow_strictly_increases(10, e1, e2);
}

} // verus!
