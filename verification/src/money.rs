//! An exact amount of a specific currency, with its arithmetic,
//! comparison, rounding and allocation.

use vstd::prelude::*;
use vstd::math::abs;
use crate::currency::Currency;
use crate::decimal::{
    Decimal, RoundingStrategy, MANTISSA_LIMIT, MAX_SCALE, pow10, round_half_away,
    round_half_even, lemma_units_sign, lemma_pow10_positive, lemma_pow10_zero,
};
use crate::error::MoneyError;

verus! {

/// An exact decimal amount bound to a currency descriptor.  Every
/// operation yields a new value; two values are equal when their
/// currencies share a code and their amounts denote one value.
#[derive(Debug, Clone, Copy)]
pub struct Money {
    /// The amount.
    pub amount: Decimal,
    /// The currency the amount is denominated in.
    pub currency: Currency,
}

impl Money {
    /// Well-formedness of the amount and the currency.
    pub open spec fn wf(self) -> bool {
        self.amount.wf() && self.currency.wf()
    }

    /// Two monetary values are in the same currency when the codes agree.
    pub open spec fn same_currency(self, other: Money) -> bool {
        self.currency.code@ == other.currency.code@
    }

    /// Creates a value from a count of minor units: `1000` minor units
    /// of a two-exponent currency are `10.00`.
    pub fn from_minor(amount: i64, currency: Currency) -> (r: Money)
        requires
            currency.wf(),
        ensures
            r.wf(),
            r.amount.mantissa == amount,
            r.amount.scale == currency.exponent,
            r.currency == currency,
    {
        Money { amount: Decimal::new(amount, currency.exponent), currency }
    }

    /// Creates a value from a count of major units: `1000` major units
    /// are `1000`.
    pub fn from_major(amount: i64, currency: Currency) -> (r: Money)
        requires
            currency.wf(),
        ensures
            r.wf(),
            r.amount.mantissa == amount,
            r.amount.scale == 0,
            r.currency == currency,
    {
        Money { amount: Decimal::new(amount, 0), currency }
    }

    /// Creates a value from a decimal amount.
    pub fn from_decimal(amount: Decimal, currency: Currency) -> (r: Money)
        requires
            amount.wf(),
            currency.wf(),
        ensures
            r.wf(),
            r.amount == amount,
            r.currency == currency,
    {
        Money { amount, currency }
    }

    /// The amount.
    pub fn amount(&self) -> (r: &Decimal)
        ensures
            *r == self.amount,
    {
        &self.amount
    }

    /// The currency.
    pub fn currency(&self) -> (r: &Currency)
        ensures
            *r == self.currency,
    {
        &self.currency
    }

    /// Whether the amount is zero.
    pub fn is_zero(&self) -> (r: bool)
        requires
            self.wf(),
        ensures
            r == (self.amount.units() == 0),
    {
        proof {
            lemma_units_sign(self.amount);
        }
        self.amount.mantissa == 0
    }

    /// Whether the amount is strictly positive.
    pub fn is_positive(&self) -> (r: bool)
        requires
            self.wf(),
        ensures
            r == (self.amount.units() > 0),
    {
        proof {
            lemma_units_sign(self.amount);
        }
        self.amount.mantissa > 0
    }

    /// Whether the amount is strictly negative.
    pub fn is_negative(&self) -> (r: bool)
        requires
            self.wf(),
        ensures
            r == (self.amount.units() < 0),
    {
        proof {
            lemma_units_sign(self.amount);
        }
        self.amount.mantissa < 0
    }

    /// Adds two values of one currency exactly; a currency mismatch is
    /// reported, never silently combined.
    pub fn add(self, other: Money) -> (r: Result<Money, MoneyError>)
        requires
            self.wf(),
            other.wf(),
            self.same_currency(other) ==> self.amount.spec_add_ok(other.amount),
        ensures
            self.same_currency(other) ==> (r matches Ok(m) && m.wf() && m.currency
                == self.currency && m.amount == self.amount.spec_add(other.amount)
                && m.amount.units() == self.amount.units() + other.amount.units()),
            !self.same_currency(other) ==> r == Err::<Money, MoneyError>(
                MoneyError::CurrencyMismatch,
            ),
    {
        if !(self.currency == other.currency) {
            return Err(MoneyError::CurrencyMismatch);
        }
        match self.amount.checked_add(&other.amount) {
            Some(sum) => Ok(Money { amount: sum, currency: self.currency }),
            None => vstd::pervasive::unreached(),
        }
    }

    /// Subtracts a value of the same currency exactly; a currency
    /// mismatch is reported.
    pub fn sub(self, other: Money) -> (r: Result<Money, MoneyError>)
        requires
            self.wf(),
            other.wf(),
            self.same_currency(other) ==> self.amount.spec_add_ok(other.amount.neg_spec()),
        ensures
            self.same_currency(other) ==> (r matches Ok(m) && m.wf() && m.currency
                == self.currency && m.amount.units() == self.amount.units()
                - other.amount.units() && m.amount == self.amount.spec_add(
                other.amount.neg_spec(),
            )),
            !self.same_currency(other) ==> r == Err::<Money, MoneyError>(
                MoneyError::CurrencyMismatch,
            ),
    {
        if !(self.currency == other.currency) {
            return Err(MoneyError::CurrencyMismatch);
        }
        match self.amount.checked_sub(&other.amount) {
            Some(diff) => Ok(Money { amount: diff, currency: self.currency }),
            None => vstd::pervasive::unreached(),
        }
    }

    /// In-place addition.  The caller must present the same currency:
    /// there is no failure value to return here.
    pub fn add_assign(&mut self, other: Money)
        requires
            old(self).wf(),
            other.wf(),
            old(self).same_currency(other),
            old(self).amount.spec_add_ok(other.amount),
        ensures
            final(self).wf(),
            final(self).currency == old(self).currency,
            final(self).amount.units() == old(self).amount.units() + other.amount.units(),
    {
        match self.amount.checked_add(&other.amount) {
            Some(sum) => {
                self.amount = sum;
            },
            None => vstd::pervasive::unreached(),
        }
    }

    /// In-place subtraction.  The caller must present the same currency.
    pub fn sub_assign(&mut self, other: Money)
        requires
            old(self).wf(),
            other.wf(),
            old(self).same_currency(other),
            old(self).amount.spec_add_ok(other.amount.neg_spec()),
        ensures
            final(self).wf(),
            final(self).currency == old(self).currency,
            final(self).amount.units() == old(self).amount.units() - other.amount.units(),
    {
        match self.amount.checked_sub(&other.amount) {
            Some(diff) => {
                self.amount = diff;
            },
            None => vstd::pervasive::unreached(),
        }
    }

    /// The negated value.
    pub fn neg(self) -> (r: Money)
        requires
            self.wf(),
        ensures
            r.wf(),
            r.currency == self.currency,
            r.amount.units() == -self.amount.units(),
    {
        Money { amount: self.amount.neg(), currency: self.currency }
    }

    /// Multiplies the amount by a decimal scalar; the currency is kept.
    pub fn mul(self, rhs: Decimal) -> (r: Money)
        requires
            self.wf(),
            rhs.wf(),
            self.amount.spec_mul_ok(rhs),
        ensures
            r.wf(),
            r.currency == self.currency,
            r.amount.units() * pow10(MAX_SCALE as nat) == self.amount.units() * rhs.units(),
    {
        match self.amount.checked_mul(&rhs) {
            Some(p) => Money { amount: p, currency: self.currency },
            None => vstd::pervasive::unreached(),
        }
    }

    /// In-place multiplication by a decimal scalar.
    pub fn mul_assign(&mut self, rhs: Decimal)
        requires
            old(self).wf(),
            rhs.wf(),
            old(self).amount.spec_mul_ok(rhs),
        ensures
            final(self).wf(),
            final(self).currency == old(self).currency,
            final(self).amount.units() * pow10(MAX_SCALE as nat) == old(self).amount.units()
                * rhs.units(),
    {
        match self.amount.checked_mul(&rhs) {
            Some(p) => {
                self.amount = p;
            },
            None => vstd::pervasive::unreached(),
        }
    }

    /// Divides the amount by a non-zero decimal scalar; the currency is
    /// kept.  The quotient is exact when representable, else correctly
    /// rounded at its last digit (see [`Decimal::checked_div`]).
    pub fn div(self, rhs: Decimal) -> (r: Money)
        requires
            self.wf(),
            rhs.wf(),
            rhs.mantissa != 0,
            !self.amount.spec_div_near_limit(rhs),
        ensures
            r.wf(),
            r.currency == self.currency,
            Decimal::spec_is_quotient(r.amount, self.amount, rhs),
    {
        match self.amount.checked_div(&rhs) {
            Some(q) => Money { amount: q, currency: self.currency },
            None => vstd::pervasive::unreached(),
        }
    }

    /// In-place division by a non-zero decimal scalar.
    pub fn div_assign(&mut self, rhs: Decimal)
        requires
            old(self).wf(),
            rhs.wf(),
            rhs.mantissa != 0,
            !old(self).amount.spec_div_near_limit(rhs),
        ensures
            final(self).wf(),
            final(self).currency == old(self).currency,
            Decimal::spec_is_quotient(final(self).amount, old(self).amount, rhs),
    {
        match self.amount.checked_div(&rhs) {
            Some(q) => {
                self.amount = q;
            },
            None => vstd::pervasive::unreached(),
        }
    }

    /// Divides a decimal scalar by this value's amount; the result keeps
    /// this value's currency.
    pub fn div_into(self, lhs: Decimal) -> (r: Money)
        requires
            self.wf(),
            lhs.wf(),
            self.amount.mantissa != 0,
            !lhs.spec_div_near_limit(self.amount),
        ensures
            r.wf(),
            r.currency == self.currency,
            Decimal::spec_is_quotient(r.amount, lhs, self.amount),
    {
        match lhs.checked_div(&self.amount) {
            Some(q) => Money { amount: q, currency: self.currency },
            None => vstd::pervasive::unreached(),
        }
    }

    /// Rounds the amount to `digits` fractional places with the chosen
    /// midpoint strategy; the currency is kept.
    pub fn round(&self, digits: u32, strategy: RoundingStrategy) -> (r: Money)
        requires
            self.wf(),
        ensures
            r.wf(),
            r.currency == self.currency,
            digits >= self.amount.scale ==> r.amount == self.amount,
            digits < self.amount.scale ==> r.amount.scale == digits
                && r.amount.mantissa == match strategy {
                RoundingStrategy::MidpointAwayFromZero => round_half_away(
                    self.amount.mantissa as int,
                    pow10((self.amount.scale - digits) as nat),
                ),
                RoundingStrategy::MidpointNearestEven => round_half_even(
                    self.amount.mantissa as int,
                    pow10((self.amount.scale - digits) as nat),
                ),
            },
    {
        Money {
            amount: self.amount.round_dp_with_strategy(digits, strategy),
            currency: self.currency,
        }
    }
}

/// The sum of a ratio list.
pub open spec fn spec_sum_ratios(rs: Seq<i32>) -> int
    decreases rs.len(),
{
    if rs.len() == 0 {
        0
    } else {
        spec_sum_ratios(rs.drop_last()) + rs.last()
    }
}

/// A usable ratio list: non-empty, every entry strictly positive.
pub open spec fn spec_ratios_ok(rs: Seq<i32>) -> bool {
    rs.len() >= 1 && (forall|i: int| 0 <= i < rs.len() ==> rs[i] > 0)
}

/// The floor share of `a` for ratio `r` out of total `t`
/// (`/` is Euclidean division).
pub open spec fn spec_floor_share(a: int, r: int, t: int) -> int {
    (a * r) / t
}

/// The sum of the floor shares of a ratio list.
pub open spec fn spec_share_sum(a: int, rs: Seq<i32>, t: int) -> int
    decreases rs.len(),
{
    if rs.len() == 0 {
        0
    } else {
        spec_share_sum(a, rs.drop_last(), t) + spec_floor_share(a, rs.last() as int, t)
    }
}

/// The sum of the mantissas of a list of monetary values.
pub open spec fn spec_mantissa_sum(s: Seq<Money>) -> int
    decreases s.len(),
{
    if s.len() == 0 {
        0
    } else {
        spec_mantissa_sum(s.drop_last()) + s.last().amount.mantissa
    }
}

/// Appending a value adds its mantissa to the sum.
proof fn lemma_mantissa_sum_push(s: Seq<Money>, m: Money)
    ensures
        spec_mantissa_sum(s.push(m)) == spec_mantissa_sum(s) + m.amount.mantissa,
{
    assert(s.push(m).drop_last() =~= s);
}

/// Replacing one value shifts the sum by the mantissa difference.
proof fn lemma_mantissa_sum_update(s: Seq<Money>, i: int, m: Money)
    requires
        0 <= i < s.len(),
    ensures
        spec_mantissa_sum(s.update(i, m)) == spec_mantissa_sum(s) - s[i].amount.mantissa
            + m.amount.mantissa,
    decreases s.len(),
{
    if i == s.len() - 1 {
        assert(s.update(i, m).drop_last() =~= s.drop_last());
        assert(s.update(i, m).last() == m);
    } else {
        assert(s.update(i, m).drop_last() =~= s.drop_last().update(i, m));
        assert(s.update(i, m).last() == s.last());
        lemma_mantissa_sum_update(s.drop_last(), i, m);
    }
}

/// Ratio sums of positive lists are monotone in the prefix, and each
/// entry is at most the total.
proof fn lemma_sum_ratios_facts(rs: Seq<i32>)
    requires
        forall|i: int| 0 <= i < rs.len() ==> rs[i] > 0,
    ensures
        spec_sum_ratios(rs) >= rs.len(),
        forall|i: int| 0 <= i < rs.len() ==> (#[trigger] rs[i]) <= spec_sum_ratios(rs),
        forall|i: int|
            0 <= i <= rs.len() ==> spec_sum_ratios(#[trigger] rs.take(i)) <= spec_sum_ratios(rs),
    decreases rs.len(),
{
    if rs.len() > 0 {
        let pre = rs.drop_last();
        lemma_sum_ratios_facts(pre);
        assert(forall|i: int| 0 <= i < pre.len() ==> pre[i] == rs[i]);
        assert forall|i: int|
            0 <= i <= rs.len() implies spec_sum_ratios(#[trigger] rs.take(i)) <= spec_sum_ratios(
            rs,
        ) by {
            if i == rs.len() {
                assert(rs.take(i) =~= rs);
            } else {
                assert(rs.take(i) =~= pre.take(i));
            }
        }
    }
}

/// Extending the prefix by one ratio adds that ratio to the sum.
proof fn lemma_sum_ratios_take_step(rs: Seq<i32>, i: int)
    requires
        0 <= i < rs.len(),
    ensures
        spec_sum_ratios(rs.take(i + 1)) == spec_sum_ratios(rs.take(i)) + rs[i],
{
    assert(rs.take(i + 1).drop_last() =~= rs.take(i));
    assert(rs.take(i + 1).last() == rs[i]);
}

/// Extending the prefix by one ratio adds that ratio's floor share.
proof fn lemma_share_sum_take_step(a: int, rs: Seq<i32>, t: int, i: int)
    requires
        0 <= i < rs.len(),
    ensures
        spec_share_sum(a, rs.take(i + 1), t) == spec_share_sum(a, rs.take(i), t)
            + spec_floor_share(a, rs[i] as int, t),
{
    assert(rs.take(i + 1).drop_last() =~= rs.take(i));
    assert(rs.take(i + 1).last() == rs[i]);
}

/// The floor shares undershoot the exact shares by less than one each:
/// `a * sum(rs) - |rs| * t < t * share_sum <= a * sum(rs)`.
proof fn lemma_share_sum_bounds(a: int, rs: Seq<i32>, t: int)
    requires
        t > 0,
        rs.len() >= 1,
        forall|i: int| 0 <= i < rs.len() ==> rs[i] > 0,
    ensures
        t * spec_share_sum(a, rs, t) <= a * spec_sum_ratios(rs),
        a * spec_sum_ratios(rs) < t * spec_share_sum(a, rs, t) + rs.len() * t,
    decreases rs.len(),
{
    {
        let pre = rs.drop_last();
        let r = rs.last() as int;
        assert(forall|i: int| 0 <= i < pre.len() ==> pre[i] == rs[i]);
        if pre.len() >= 1 {
            lemma_share_sum_bounds(a, pre, t);
        } else {
            assert(t * 0 == 0) by (nonlinear_arith);
            assert(a * 0 == 0) by (nonlinear_arith);
            assert(0int * t == 0) by (nonlinear_arith);
        }
        assert(a * spec_sum_ratios(pre) <= t * spec_share_sum(a, pre, t) + pre.len() * t);
        let q = (a * r) / t;
        vstd::arithmetic::div_mod::lemma_fundamental_div_mod(a * r, t);
        let rr = (a * r) % t;
        assert(0 <= rr < t) by {
            vstd::arithmetic::div_mod::lemma_mod_bound(a * r, t);
        }
        assert(a * r == t * q + rr);
        // Distribute over the sums.
        assert(t * (spec_share_sum(a, pre, t) + q) == t * spec_share_sum(a, pre, t) + t * q)
            by (nonlinear_arith);
        assert(a * (spec_sum_ratios(pre) + r) == a * spec_sum_ratios(pre) + a * r)
            by (nonlinear_arith);
        assert((pre.len() + 1) * t == pre.len() * t + t) by (nonlinear_arith);
        assert(spec_share_sum(a, rs, t) == spec_share_sum(a, pre, t) + q);
        assert(spec_sum_ratios(rs) == spec_sum_ratios(pre) + r);
        assert(a * spec_sum_ratios(rs) < t * spec_share_sum(a, rs, t) + rs.len() * t)
            by (nonlinear_arith)
            requires
                spec_sum_ratios(rs) == spec_sum_ratios(pre) + r,
                spec_share_sum(a, rs, t) == spec_share_sum(a, pre, t) + q,
                t * spec_share_sum(a, pre, t) <= a * spec_sum_ratios(pre),
                a * spec_sum_ratios(pre) <= t * spec_share_sum(a, pre, t) + pre.len() * t,
                a * r == t * q + rr,
                0 <= rr < t,
                rs.len() == pre.len() + 1,
        ;
    }
}

impl Money {
    /// The whole-number value of an integral amount.
    pub open spec fn spec_amount_int(self) -> int {
        self.amount.mantissa as int / pow10(self.amount.scale as nat)
    }

    /// Splits the value into shares proportional to `ratios`: each share
    /// is the floor of its exact proportion, in whole units, and the
    /// remaining whole units are handed out one each, first share first.
    /// The shares always sum exactly to the amount.
    pub fn allocate(&self, ratios: Vec<i32>) -> (r: Result<Vec<Money>, MoneyError>)
        requires
            self.wf(),
            spec_ratios_ok(ratios@) ==> self.amount.spec_is_integral() && abs(
                self.amount.mantissa as int,
            ) * spec_sum_ratios(ratios@) <= MANTISSA_LIMIT,
        ensures
            r is Ok <==> spec_ratios_ok(ratios@),
            r matches Err(e) ==> e == MoneyError::InvalidRatio,
            r matches Ok(shares) ==> {
                let a = self.spec_amount_int();
                let t = spec_sum_ratios(ratios@);
                let rem = a - spec_share_sum(a, ratios@, t);
                &&& shares@.len() == ratios@.len()
                &&& forall|i: int|
                    0 <= i < shares@.len() ==> {
                        let sh = #[trigger] shares@[i];
                        &&& sh.wf()
                        &&& sh.currency == self.currency
                        &&& sh.amount.scale == 0
                        &&& sh.amount.mantissa == spec_floor_share(a, ratios@[i] as int, t) + (
                        if i < rem {
                            1int
                        } else {
                            0int
                        })
                    }
                &&& spec_mantissa_sum(shares@) == a
            },
    {
        let n = ratios.len();
        if n == 0 {
            return Err(MoneyError::InvalidRatio);
        }
        let mut i: usize = 0;
        while i < n
            invariant
                n == ratios@.len(),
                i <= n,
                forall|j: int| 0 <= j < i ==> ratios@[j] > 0,
            decreases n - i,
        {
            if ratios[i] <= 0 {
                return Err(MoneyError::InvalidRatio);
            }
            i = i + 1;
        }
        proof {
            lemma_sum_ratios_facts(ratios@);
        }
        // Total of the ratios.
        let mut total: i128 = 0;
        i = 0;
        proof {
            assert(ratios@.take(0) =~= Seq::<i32>::empty());
        }
        while i < n
            invariant
                n == ratios@.len(),
                i <= n,
                forall|j: int| 0 <= j < n ==> ratios@[j] > 0,
                total == spec_sum_ratios(ratios@.take(i as int)),
                0 <= total <= i as int * 0x7fff_ffff,
            decreases n - i,
        {
            proof {
                lemma_sum_ratios_take_step(ratios@, i as int);
            }
            total = total + (ratios[i] as i128);
            i = i + 1;
        }
        proof {
            assert(ratios@.take(n as int) =~= ratios@);
        }
        let ghost t = spec_sum_ratios(ratios@);
        // The integral amount as a whole number.
        let af = self.amount.floor();
        let a = af.mantissa;
        let ghost av = self.spec_amount_int();
        proof {
            // Integrality bounds the whole-number value by the mantissa.
            lemma_pow10_positive(self.amount.scale as nat);
            vstd::arithmetic::div_mod::lemma_fundamental_div_mod(
                self.amount.mantissa as int,
                pow10(self.amount.scale as nat),
            );
            assert(self.amount.mantissa as int == pow10(self.amount.scale as nat) * av);
            lemma_abs_mul_le(av, pow10(self.amount.scale as nat));
            assert(abs(a as int) * t <= MANTISSA_LIMIT) by (nonlinear_arith)
                requires
                    abs(a as int) <= abs(self.amount.mantissa as int),
                    abs(self.amount.mantissa as int) * t <= MANTISSA_LIMIT,
                    t >= 1,
            ;
        }
        // Floor shares.
        let mut shares: Vec<Money> = Vec::new();
        let mut acc: i128 = 0;
        i = 0;
        proof {
            assert(shares@ =~= Seq::<Money>::empty());
        }
        while i < n
            invariant
                self.wf(),
                n == ratios@.len(),
                i <= n,
                forall|j: int| 0 <= j < n ==> ratios@[j] > 0,
                t == spec_sum_ratios(ratios@),
                1 <= t,
                t <= MANTISSA_LIMIT || a == 0,
                abs(a as int) * t <= MANTISSA_LIMIT,
                -MANTISSA_LIMIT <= a <= MANTISSA_LIMIT,
                total == t,
                shares@.len() == i,
                acc == spec_share_sum(a as int, ratios@.take(i as int), t),
                -MANTISSA_LIMIT - i <= acc <= MANTISSA_LIMIT + i,
                spec_mantissa_sum(shares@) == acc,
                forall|j: int|
                    0 <= j < i ==> {
                        let sh = #[trigger] shares@[j];
                        &&& sh.wf()
                        &&& sh.currency == self.currency
                        &&& sh.amount.scale == 0
                        &&& sh.amount.mantissa == spec_floor_share(a as int, ratios@[j] as int, t)
                        &&& (n >= 2 ==> sh.amount.mantissa <= MANTISSA_LIMIT - 1)
                    },
            decreases n - i,
        {
            let ri = ratios[i];
            let q: i128 = if a == 0 {
                proof {
                    vstd::arithmetic::div_mod::lemma_div_of0(t);
                    assert(0int * ri == 0) by (nonlinear_arith);
                }
                0
            } else {
                proof {
                    lemma_sum_ratios_facts(ratios@);
                    assert(abs(a as int) * (ri as int) <= abs(a as int) * t) by (nonlinear_arith)
                        requires
                            abs(a as int) >= 0,
                            0 < ri as int <= t,
                    ;
                    lemma_abs_mul(a as int, ri as int);
                }
                let prod: i128 = a * (ri as i128);
                let (q0, _r0) = crate::decimal::divmod_mantissa(prod, total);
                q0
            };
            proof {
                lemma_sum_ratios_facts(ratios@);
                lemma_share_sum_take_step(a as int, ratios@, t, i as int);
                assert forall|k: int|
                    0 <= k < i + 1 implies (#[trigger] ratios@.take(i as int + 1)[k]) > 0 by {
                    assert(ratios@.take(i as int + 1)[k] == ratios@[k]);
                }
                lemma_share_sum_bounds(a as int, ratios@.take(i as int + 1), t);
                lemma_sum_ratios_facts(ratios@.take(i as int + 1));
                assert(ratios@.take(i as int + 1).len() == i + 1);
                if n >= 2 {
                    if a == 0 {
                        assert(q == 0);
                    } else {
                        // A share of a proper sub-ratio leaves headroom of one.
                        assert(t >= 2);
                        assert((ri as int) < t) by {
                            let j = if i == 0 { 1int } else { 0int };
                            lemma_sum_ratios_remove_other(ratios@, i as int, j);
                        }
                        lemma_share_headroom(a as int, ri as int, t, q as int);
                    }
                }
                lemma_mantissa_sum_push(
                    shares@,
                    Money { amount: Decimal { mantissa: q, scale: 0 }, currency: self.currency },
                );
                // Bounds on the running sum.
                lemma_acc_bounds(a as int, ratios@.take(i as int + 1), t);
            }
            shares.push(
                Money { amount: Decimal { mantissa: q, scale: 0 }, currency: self.currency },
            );
            acc = acc + q;
            i = i + 1;
        }
        proof {
            assert(ratios@.take(n as int) =~= ratios@);
            lemma_share_sum_bounds(a as int, ratios@, t);
            // 0 <= remainder < n
            assert(a * t == t * a) by (nonlinear_arith);
            assert(((t * acc <= a * t) && (a * t < t * acc + (n as int) * t)) ==> ((a - (
            n as int) < acc) && (acc <= a))) by (nonlinear_arith)
                requires
                    t >= 1,
            ;
        }
        let mut rem: i128 = a - acc;
        let ghost rem0 = (a - acc) as int;
        let mut idx: usize = 0;
        while rem > 0
            invariant
                self.wf(),
                n == ratios@.len(),
                shares@.len() == n,
                t == spec_sum_ratios(ratios@),
                0 <= rem0 < n,
                rem == rem0 - idx,
                0 <= idx <= n,
                idx <= rem0,
                rem0 > 0 ==> n >= 2,
                spec_mantissa_sum(shares@) == a - rem,
                -MANTISSA_LIMIT <= a <= MANTISSA_LIMIT,
                forall|j: int|
                    0 <= j < n ==> {
                        let sh = #[trigger] shares@[j];
                        &&& sh.wf()
                        &&& sh.currency == self.currency
                        &&& sh.amount.scale == 0
                        &&& sh.amount.mantissa == spec_floor_share(a as int, ratios@[j] as int, t)
                            + (if j < idx {
                            1int
                        } else {
                            0int
                        })
                        &&& (n >= 2 && j >= idx ==> sh.amount.mantissa <= MANTISSA_LIMIT - 1)
                    },
            decreases rem,
        {
            let cur = shares[idx];
            let bumped = Money {
                amount: Decimal { mantissa: cur.amount.mantissa + 1, scale: 0 },
                currency: cur.currency,
            };
            proof {
                lemma_mantissa_sum_update(shares@, idx as int, bumped);
            }
            shares.set(idx, bumped);
            rem = rem - 1;
            idx = idx + 1;
        }
        proof {
            assert(spec_mantissa_sum(shares@) == a);
        }
        Ok(shares)
    }

    /// Splits the value into `number` equal shares: the special case of
    /// `number` ratios of one.  The quotient and remainder of the
    /// whole-number amount by `number` give the share values.
    pub fn allocate_to(&self, number: i32) -> (r: Result<Vec<Money>, MoneyError>)
        requires
            self.wf(),
            number > 0 ==> self.amount.spec_is_integral() && abs(self.amount.mantissa as int)
                * number <= MANTISSA_LIMIT,
        ensures
            r is Ok <==> number > 0,
            r matches Err(e) ==> e == MoneyError::InvalidRatio,
            r matches Ok(shares) ==> {
                let a = self.spec_amount_int();
                &&& shares@.len() == number
                &&& forall|i: int|
                    0 <= i < shares@.len() ==> {
                        let sh = #[trigger] shares@[i];
                        &&& sh.wf()
                        &&& sh.currency == self.currency
                        &&& sh.amount.scale == 0
                        &&& sh.amount.mantissa == a / (number as int) + (if i < a % (number as int) {
                            1int
                        } else {
                            0int
                        })
                    }
                &&& spec_mantissa_sum(shares@) == a
            },
    {
        if number <= 0 {
            return Err(MoneyError::InvalidRatio);
        }
        let mut ratios: Vec<i32> = Vec::new();
        let mut i: i32 = 0;
        while i < number
            invariant
                0 <= i <= number,
                ratios@.len() == i,
                forall|j: int| 0 <= j < i ==> ratios@[j] == 1i32,
            decreases number - i,
        {
            ratios.push(1);
            i = i + 1;
        }
        proof {
            lemma_sum_of_ones(ratios@);
            lemma_share_sum_ones(self.spec_amount_int(), ratios@, number as int);
            vstd::arithmetic::div_mod::lemma_fundamental_div_mod(
                self.spec_amount_int(),
                number as int,
            );
            assert(abs(self.amount.mantissa as int) * spec_sum_ratios(ratios@)
                <= MANTISSA_LIMIT);
            assert forall|k: int| 0 <= k < ratios@.len() implies (ratios@[k] as int) == 1 by {}
        }
        let r = self.allocate(ratios);
        proof {
            if spec_ratios_ok(ratios@) {
                let a = self.spec_amount_int();
                let t = spec_sum_ratios(ratios@);
                assert(t == number as int);
                assert(spec_share_sum(a, ratios@, t) == ratios@.len() * (a / t));
                assert(a - (number as int) * (a / (number as int)) == a % (number as int)) by {
                    vstd::arithmetic::div_mod::lemma_fundamental_div_mod(a, number as int);
                }
                assert(forall|i: int|
                    0 <= i < ratios@.len() ==> spec_floor_share(a, #[trigger] ratios@[i] as int, t)
                        == a / t) by {
                    assert forall|i: int| 0 <= i < ratios@.len() implies spec_floor_share(
                        a,
                        #[trigger] ratios@[i] as int,
                        t,
                    ) == a / t by {
                        assert(ratios@[i] == 1i32);
                        assert(a * 1 == a) by (nonlinear_arith);
                    }
                }
            }
        }
        r
    }
}

/// The left fold of checked additions over a list of amounts: `None`
/// marks an empty list or an unrepresentable intermediate sum.
pub open spec fn spec_checked_fold(s: Seq<Decimal>) -> Option<Decimal>
    decreases s.len(),
{
    if s.len() == 0 {
        None
    } else if s.len() == 1 {
        Some(s[0])
    } else {
        match spec_checked_fold(s.drop_last()) {
            None => None,
            Some(acc) => if acc.spec_add_ok(s.last()) {
                Some(acc.spec_add(s.last()))
            } else {
                None
            },
        }
    }
}

/// The mathematical sum, in units, of a list of amounts.
pub open spec fn spec_units_sum(s: Seq<Money>) -> int
    decreases s.len(),
{
    if s.len() == 0 {
        0
    } else {
        spec_units_sum(s.drop_last()) + s.last().amount.units()
    }
}

/// All values share the first value's currency.
pub open spec fn spec_all_same_currency(s: Seq<Money>) -> bool {
    forall|i: int| 0 <= i < s.len() ==> (#[trigger] s[i]).currency.code@ == s[0].currency.code@
}

/// The amounts of a list of monetary values.
pub open spec fn spec_amounts(s: Seq<Money>) -> Seq<Decimal> {
    s.map_values(|m: Money| m.amount)
}

impl Money {
    /// Sums a list of values: `Ok(None)` for an empty list,
    /// `Ok(Some(total))` when all values share the first one's currency,
    /// and a currency-mismatch failure otherwise.
    pub fn sum_iter(monies: Vec<Money>) -> (r: Result<Option<Money>, MoneyError>)
        requires
            forall|i: int| 0 <= i < monies@.len() ==> (#[trigger] monies@[i]).wf(),
            forall|k: int|
                0 < k <= monies@.len() && spec_all_same_currency(#[trigger] monies@.take(k))
                    ==> spec_checked_fold(spec_amounts(monies@.take(k))) is Some,
        ensures
            monies@.len() == 0 ==> r == Ok::<Option<Money>, MoneyError>(None),
            monies@.len() > 0 && spec_all_same_currency(monies@) ==> (r matches Ok(t)
                && t matches Some(m) && m.wf() && m.currency == monies@[0].currency
                && m.amount.units() == spec_units_sum(monies@)),
            !spec_all_same_currency(monies@) ==> r == Err::<Option<Money>, MoneyError>(
                MoneyError::CurrencyMismatch,
            ),
    {
        let n = monies.len();
        if n == 0 {
            return Ok(None);
        }
        let first = monies[0];
        let mut acc: Decimal = first.amount;
        let mut i: usize = 1;
        proof {
            assert(monies@.take(1int) =~= seq![monies@[0]]);
            assert(spec_amounts(monies@.take(1int)) =~= seq![monies@[0].amount]);
            assert(spec_units_sum(monies@.take(1int)) == monies@[0].amount.units()) by {
                assert(monies@.take(1int).drop_last() =~= Seq::<Money>::empty());
                assert(monies@.take(1int).last() == monies@[0]);
                assert(spec_units_sum(Seq::<Money>::empty()) == 0);
            }
        }
        while i < n
            invariant
                n == monies@.len(),
                1 <= i <= n,
                forall|j: int| 0 <= j < n ==> (#[trigger] monies@[j]).wf(),
                forall|k: int|
                    0 < k <= monies@.len() && spec_all_same_currency(#[trigger] monies@.take(k))
                        ==> spec_checked_fold(spec_amounts(monies@.take(k))) is Some,
                first == monies@[0],
                spec_all_same_currency(monies@.take(i as int)),
                spec_checked_fold(spec_amounts(monies@.take(i as int))) == Some(acc),
                acc.wf(),
                acc.units() == spec_units_sum(monies@.take(i as int)),
            decreases n - i,
        {
            let m = monies[i];
            if !(m.currency == first.currency) {
                proof {
                    assert(monies@[i as int].currency.code@ != monies@[0].currency.code@);
                }
                return Err(MoneyError::CurrencyMismatch);
            }
            proof {
                let pre = monies@.take(i as int);
                let cur = monies@.take(i as int + 1);
                assert(cur.drop_last() =~= pre);
                assert(cur.last() == monies@[i as int]);
                assert forall|j: int|
                    0 <= j < cur.len() implies (#[trigger] cur[j]).currency.code@
                    == cur[0].currency.code@ by {
                    if j < i {
                        assert(cur[j] == pre[j]);
                    }
                }
                assert(spec_all_same_currency(cur));
                assert(spec_amounts(cur).drop_last() =~= spec_amounts(pre));
                assert(spec_amounts(cur).last() == monies@[i as int].amount);
                assert(spec_checked_fold(spec_amounts(cur)) is Some);
                assert(acc.spec_add_ok(monies@[i as int].amount));
            }
            match acc.checked_add(&m.amount) {
                Some(s) => {
                    acc = s;
                },
                None => vstd::pervasive::unreached(),
            }
            i = i + 1;
        }
        proof {
            assert(monies@.take(n as int) =~= monies@);
        }
        Ok(Some(Money { amount: acc, currency: first.currency }))
    }
}

/// Addition of matching currencies is commutative: both orders are
/// defined together and give one value.
pub proof fn lemma_add_commutative(a: Money, b: Money)
    requires
        a.wf(),
        b.wf(),
        a.same_currency(b),
        a.amount.spec_add_ok(b.amount),
    ensures
        b.amount.spec_add_ok(a.amount),
        a.amount.spec_add(b.amount).units() == b.amount.spec_add(a.amount).units(),
{
    lemma_spec_add_units(a.amount, b.amount);
    lemma_spec_add_units(b.amount, a.amount);
}

/// Adding and then subtracting one value gives back the other, exactly:
/// `(a + b) - b == a`, with the subtraction defined whenever the
/// addition was.
pub proof fn lemma_add_sub_cancels(a: Money, b: Money)
    requires
        a.wf(),
        b.wf(),
        a.same_currency(b),
        a.amount.spec_add_ok(b.amount),
    ensures
        a.amount.spec_add(b.amount).spec_add_ok(b.amount.neg_spec()),
        a.amount.spec_add(b.amount).spec_add(b.amount.neg_spec()).units() == a.amount.units(),
{
    let s = a.amount.spec_add(b.amount);
    lemma_spec_add_units(a.amount, b.amount);
    assert(s.wf());
    let smax = s.scale;
    assert(smax == if a.amount.scale >= b.amount.scale {
        a.amount.scale
    } else {
        b.amount.scale
    });
    // At the common scale, the summand and its negation stay bounded,
    // and removing `b`'s mantissa leaves `a`'s raised mantissa.
    let mb = b.amount.mantissa * pow10((smax - b.amount.scale) as nat);
    let ma = a.amount.mantissa * pow10((smax - a.amount.scale) as nat);
    lemma_pow10_zero();
    assert(-MANTISSA_LIMIT <= ma + mb <= MANTISSA_LIMIT);
    assert(((ma + mb) as i128) as int == ma + mb);
    let sp = if a.amount.scale >= b.amount.scale {
        a.amount.scale
    } else {
        b.amount.scale
    };
    assert(s == Decimal {
        mantissa: ((a.amount.mantissa * pow10((sp - a.amount.scale) as nat)) + (b.amount.mantissa
            * pow10((sp - b.amount.scale) as nat))) as i128,
        scale: sp,
    });
    assert(s.mantissa == ma + mb);
    crate::decimal::lemma_mul_pow10_zero(s.mantissa as int);
    assert((-b.amount.mantissa) * pow10((smax - b.amount.scale) as nat) == -(b.amount.mantissa
        * pow10((smax - b.amount.scale) as nat))) by (nonlinear_arith);
    assert(b.amount.neg_spec().units() == -b.amount.units()) by {
        crate::decimal::lemma_pow10_positive((MAX_SCALE - b.amount.scale) as nat);
        assert((-b.amount.mantissa) * pow10((MAX_SCALE - b.amount.scale) as nat) == -(
        b.amount.mantissa * pow10((MAX_SCALE - b.amount.scale) as nat))) by (nonlinear_arith);
    }
    lemma_spec_add_units(s, b.amount.neg_spec());
}

/// The units of an exact sum are the sum of the units.
pub proof fn lemma_spec_add_units(a: Decimal, b: Decimal)
    requires
        a.wf(),
        b.wf(),
        a.spec_add_ok(b),
    ensures
        a.spec_add(b).wf(),
        a.spec_add(b).units() == a.units() + b.units(),
        a.spec_add(b).scale == if a.scale >= b.scale {
            a.scale
        } else {
            b.scale
        },
    decreases a.scale,
{
    let s = if a.scale >= b.scale {
        a.scale
    } else {
        b.scale
    };
    let rest = (MAX_SCALE - s) as nat;
    if a.scale <= b.scale {
        crate::decimal::lemma_units_at_common_scale(a, b);
    } else {
        crate::decimal::lemma_units_at_common_scale(b, a);
    }
    lemma_pow10_zero();
    let ma = a.mantissa * pow10((s - a.scale) as nat);
    let mb = b.mantissa * pow10((s - b.scale) as nat);
    assert(a.mantissa * pow10(0) == a.mantissa) by (nonlinear_arith)
        requires
            pow10(0) == 1,
    ;
    assert(b.mantissa * pow10(0) == b.mantissa) by (nonlinear_arith)
        requires
            pow10(0) == 1,
    ;
    vstd::arithmetic::mul::lemma_mul_is_distributive_add_other_way(
        pow10(rest),
        ma,
        mb,
    );
}

/// A value built from major units denotes the same amount as one built
/// from the corresponding count of minor units: the law behind
/// `from_major(n, c) == from_minor(n * 10^exponent(c), c)`.
pub proof fn lemma_major_minor_agree(major: Money, minor: Money, n: int)
    requires
        major.wf(),
        minor.wf(),
        major.currency.code@ == minor.currency.code@,
        major.amount.mantissa == n,
        major.amount.scale == 0,
        minor.amount.scale == minor.currency.exponent,
        minor.amount.mantissa == n * pow10(minor.currency.exponent as nat),
    ensures
        major.amount.units() == minor.amount.units(),
{
    let e = minor.currency.exponent as nat;
    crate::decimal::lemma_pow10_adds(e, (MAX_SCALE - minor.currency.exponent) as nat);
    vstd::arithmetic::mul::lemma_mul_is_associative(
        n,
        pow10(e),
        pow10((MAX_SCALE - minor.currency.exponent) as nat),
    );
}

/// `|x * y| == |x| * |y|` and related sign facts.
proof fn lemma_abs_mul(x: int, y: int)
    ensures
        abs(x * y) == abs(x) * abs(y),
{
    assert(abs(x * y) == abs(x) * abs(y)) by (nonlinear_arith);
}

/// `|x| <= |x * p|` for `p >= 1`.
proof fn lemma_abs_mul_le(x: int, p: int)
    requires
        p >= 1,
    ensures
        abs(x) <= abs(p * x),
{
    assert(abs(p * x) == p * abs(x)) by (nonlinear_arith)
        requires
            p >= 1,
    ;
    assert(abs(x) <= p * abs(x)) by (nonlinear_arith)
        requires
            p >= 1,
    ;
}

/// With at least two positive ratios, each floor share leaves one unit
/// of headroom below the mantissa limit.
proof fn lemma_share_headroom(a: int, r: int, t: int, q: int)
    requires
        0 < r < t,
        t <= MANTISSA_LIMIT,
        abs(a) * t <= MANTISSA_LIMIT,
        q == (a * r) / t,
    ensures
        q <= MANTISSA_LIMIT - 1,
{
    vstd::arithmetic::div_mod::lemma_fundamental_div_mod(a * r, t);
    vstd::arithmetic::div_mod::lemma_mod_bound(a * r, t);
    assert(a * r <= abs(a) * (t - 1)) by (nonlinear_arith)
        requires
            0 < r <= t - 1,
    ;
    assert(abs(a) * (t - 1) <= (MANTISSA_LIMIT - 1) * t) by (nonlinear_arith)
        requires
            abs(a) * t <= MANTISSA_LIMIT,
            abs(a) >= 0,
            t >= 1,
            t <= MANTISSA_LIMIT,
    ;
    assert(q * t <= a * r) by (nonlinear_arith)
        requires
            a * r == t * q + (a * r) % t,
            (a * r) % t >= 0,
    ;
    assert(q <= MANTISSA_LIMIT - 1) by (nonlinear_arith)
        requires
            q * t <= (MANTISSA_LIMIT - 1) * t,
            t >= 1,
    ;
}

/// Bounds on a partial sum of floor shares.
proof fn lemma_acc_bounds(a: int, rs: Seq<i32>, t: int)
    requires
        t > 0,
        rs.len() >= 1,
        forall|i: int| 0 <= i < rs.len() ==> rs[i] > 0,
        spec_sum_ratios(rs) <= t,
        -MANTISSA_LIMIT <= a <= MANTISSA_LIMIT,
    ensures
        -MANTISSA_LIMIT - rs.len() <= spec_share_sum(a, rs, t) <= MANTISSA_LIMIT + rs.len(),
{
    lemma_share_sum_bounds(a, rs, t);
    lemma_sum_ratios_facts(rs);
    let s = spec_share_sum(a, rs, t);
    let psum = spec_sum_ratios(rs);
    assert(0 <= psum);
    assert(a * psum <= abs(a) * t && -(abs(a) * t) <= a * psum) by (nonlinear_arith)
        requires
            0 <= psum <= t,
            -MANTISSA_LIMIT <= a <= MANTISSA_LIMIT,
    ;
    assert(s <= MANTISSA_LIMIT + rs.len() && -MANTISSA_LIMIT - rs.len() <= s)
        by (nonlinear_arith)
        requires
            t * s <= a * psum,
            a * psum < t * s + rs.len() * t,
            a * psum <= abs(a) * t,
            -(abs(a) * t) <= a * psum,
            abs(a) <= MANTISSA_LIMIT,
            t >= 1,
    ;
}

/// With a second positive entry present, one entry is strictly below
/// the total.
proof fn lemma_sum_ratios_remove_other(rs: Seq<i32>, i: int, j: int)
    requires
        0 <= i < rs.len(),
        0 <= j < rs.len(),
        i != j,
        forall|k: int| 0 <= k < rs.len() ==> rs[k] > 0,
    ensures
        (rs[i] as int) < spec_sum_ratios(rs),
    decreases rs.len(),
{
    lemma_sum_ratios_facts(rs);
    let pre = rs.drop_last();
    assert(forall|k: int| 0 <= k < pre.len() ==> pre[k] == rs[k]);
    if i == rs.len() - 1 {
        // rs[i] is the last entry; the prefix holds rs[j] > 0.
        lemma_sum_ratios_facts(pre);
        assert(spec_sum_ratios(pre) >= pre.len());
        assert(pre.len() >= 1);
    } else if j == rs.len() - 1 {
        // the last entry is positive and rs[i] sits in the prefix
        assert((rs[i] as int) <= spec_sum_ratios(pre)) by {
            lemma_entry_le_sum(pre, i);
        }
    } else {
        lemma_sum_ratios_remove_other(pre, i, j);
    }
}

/// Each entry of a positive list is at most the sum.
proof fn lemma_entry_le_sum(rs: Seq<i32>, i: int)
    requires
        0 <= i < rs.len(),
        forall|k: int| 0 <= k < rs.len() ==> rs[k] > 0,
    ensures
        (rs[i] as int) <= spec_sum_ratios(rs),
    decreases rs.len(),
{
    let pre = rs.drop_last();
    assert(forall|k: int| 0 <= k < pre.len() ==> pre[k] == rs[k]);
    if i == rs.len() - 1 {
        lemma_sum_ratios_facts(pre);
    } else {
        lemma_entry_le_sum(pre, i);
    }
}

/// A list of ones sums to its length.
proof fn lemma_sum_of_ones(rs: Seq<i32>)
    requires
        forall|j: int| 0 <= j < rs.len() ==> rs[j] == 1i32,
    ensures
        spec_sum_ratios(rs) == rs.len(),
    decreases rs.len(),
{
    if rs.len() > 0 {
        assert(forall|j: int| 0 <= j < rs.len() - 1 ==> rs.drop_last()[j] == 1i32);
        lemma_sum_of_ones(rs.drop_last());
    }
}

/// Equal ratios of one give equal floor shares.
proof fn lemma_share_sum_ones(a: int, rs: Seq<i32>, t: int)
    requires
        forall|j: int| 0 <= j < rs.len() ==> rs[j] == 1i32,
    ensures
        spec_share_sum(a, rs, t) == rs.len() * ((a * 1) / t),
    decreases rs.len(),
{
    if rs.len() == 0 {
        assert(0int * ((a * 1) / t) == 0) by (nonlinear_arith);
    } else {
        assert(forall|j: int| 0 <= j < rs.len() - 1 ==> rs.drop_last()[j] == 1i32);
        lemma_share_sum_ones(a, rs.drop_last(), t);
        assert(rs.len() * ((a * 1) / t) == (rs.len() - 1) * ((a * 1) / t) + (a * 1) / t)
            by (nonlinear_arith);
    }
}

/// An ASCII whitespace character.
pub open spec fn spec_is_ws(c: char) -> bool {
    c == ' ' || c == '\t' || c == '\n' || c == '\r'
}

/// The whitespace-separated tokens of a string.
pub open spec fn spec_split_ws(s: Seq<char>) -> Seq<Seq<char>>
    decreases s.len(),
{
    if s.len() == 0 {
        Seq::empty()
    } else if spec_is_ws(s.last()) {
        spec_split_ws(s.drop_last())
    } else {
        let r = spec_split_ws(s.drop_last());
        if s.len() >= 2 && !spec_is_ws(s[s.len() - 2]) && r.len() > 0 {
            r.update(r.len() - 1, r.last().push(s.last()))
        } else {
            r.push(seq![s.last()])
        }
    }
}

/// A character that may appear in an amount token: a digit, a point, a
/// comma, or a sign.
pub open spec fn spec_amount_char(c: char) -> bool {
    crate::text::spec_digit(c) is Some || c == '.' || c == ',' || c == '+' || c == '-'
}

/// Every character of an amount token is admissible.
pub open spec fn spec_amount_chars_ok(t: Seq<char>) -> bool {
    forall|i: int| 0 <= i < t.len() ==> spec_amount_char(#[trigger] t[i])
}

/// Splits characters into whitespace-separated tokens.
fn split_ws(chars: &Vec<char>) -> (r: Vec<Vec<char>>)
    ensures
        r@.map_values(|t: Vec<char>| t@) == spec_split_ws(chars@),
{
    let mut toks: Vec<Vec<char>> = Vec::new();
    let mut i: usize = 0;
    let n = chars.len();
    proof {
        assert(chars@.take(0) =~= Seq::<char>::empty());
        assert(toks@.map_values(|t: Vec<char>| t@) =~~= spec_split_ws(chars@.take(0)));
    }
    while i < n
        invariant
            n == chars@.len(),
            i <= n,
            toks@.map_values(|t: Vec<char>| t@) =~~= spec_split_ws(chars@.take(i as int)),
            i > 0 && !spec_is_ws(chars@[i - 1]) ==> toks@.len() > 0,
        decreases n - i,
    {
        let c = chars[i];
        let ws = c == ' ' || c == '\t' || c == '\n' || c == '\r';
        proof {
            assert(chars@.take(i as int + 1).drop_last() =~= chars@.take(i as int));
            assert(chars@.take(i as int + 1).last() == chars@[i as int]);
        }
        if !ws {
            if i > 0 && !(chars[i - 1] == ' ' || chars[i - 1] == '\t' || chars[i - 1] == '\n'
                || chars[i - 1] == '\r') {
                let mut last = match toks.pop() {
                    Some(t) => t,
                    None => vstd::pervasive::unreached(),
                };
                let ghost prev = toks@.push(last);
                last.push(c);
                toks.push(last);
                proof {
                    let f = |t: Vec<char>| t@;
                    let m0 = prev.map_values(f);
                    assert(toks@ =~= prev.update(prev.len() - 1, toks@.last()));
                    assert(toks@.map_values(f) =~~= m0.update(m0.len() - 1, m0.last().push(c)));
                    assert(chars@.take(i as int + 1)[i as int - 1] == chars@[i as int - 1]);
                }
            } else {
                let mut t: Vec<char> = Vec::new();
                t.push(c);
                toks.push(t);
                proof {
                    let f = |t: Vec<char>| t@;
                    assert(toks@.map_values(f) =~~= toks@.map_values(f).take(
                        toks@.len() - 1,
                    ).push(seq![c]));
                    if i > 0 {
                        assert(chars@.take(i as int + 1)[i as int - 1] == chars@[i as int - 1]);
                    }
                }
            }
        }
        i = i + 1;
    }
    proof {
        assert(chars@.take(n as int) =~= chars@);
    }
    toks
}

impl Money {
    /// Parses `"<amount> <currency-code>"`: a signed decimal amount and
    /// a known currency code, separated by whitespace.
    pub fn from_str(s: &str) -> (r: Result<Money, MoneyError>)
        ensures
            ({
                let toks = spec_split_ws(s@);
                &&& (toks.len() != 2 ==> r == Err::<Money, MoneyError>(
                    MoneyError::InvalidAmountFormat,
                ))
                &&& (toks.len() == 2 && !spec_amount_chars_ok(toks[0]) ==> r == Err::<
                    Money,
                    MoneyError,
                >(MoneyError::InvalidAmountFormat))
                &&& (toks.len() == 2 && spec_amount_chars_ok(toks[0])
                    && crate::text::spec_parse_decimal(toks[0]) is None ==> (r matches Err(x)
                    && x matches MoneyError::InvalidAmountDecimal(e) && (e
                    == crate::text::DecimalError::InvalidFormat
                    <==> !crate::text::spec_dec_grammar_ok(toks[0]))))
                &&& (toks.len() == 2 && spec_amount_chars_ok(toks[0])
                    && crate::text::spec_parse_decimal(toks[0]) is Some
                    && !crate::currency::is_known_currency_code(toks[1]) ==> r == Err::<
                    Money,
                    MoneyError,
                >(MoneyError::InvalidCurrency))
                &&& (toks.len() == 2 && spec_amount_chars_ok(toks[0])
                    && crate::text::spec_parse_decimal(toks[0]) is Some
                    && crate::currency::is_known_currency_code(toks[1]) ==> (r matches Ok(m)
                    && m.wf() && m.amount == crate::text::spec_parse_decimal(toks[0]).unwrap()
                    && m.currency.code@ == toks[1]))
            }),
    {
        let chars = crate::text::str_to_chars(s);
        let toks = split_ws(&chars);
        if toks.len() != 2 {
            return Err(MoneyError::InvalidAmountFormat);
        }
        let ghost tokviews = spec_split_ws(s@);
        proof {
            assert(toks@.map_values(|t: Vec<char>| t@).len() == 2);
            assert(toks@[0]@ == tokviews[0]);
            assert(toks@[1]@ == tokviews[1]);
        }
        let amount_tok = &toks[0];
        // Reject characters that can never appear in an amount.
        let mut i: usize = 0;
        while i < amount_tok.len()
            invariant
                amount_tok@ == toks@[0]@,
                spec_split_ws(s@).len() == 2,
                amount_tok@ == spec_split_ws(s@)[0],
                i <= amount_tok@.len(),
                forall|j: int| 0 <= j < i ==> spec_amount_char(#[trigger] amount_tok@[j]),
            decreases amount_tok@.len() - i,
        {
            let c = amount_tok[i];
            let good = match crate::text::digit_of_pub(c) {
                Some(_) => true,
                None => c == '.' || c == ',' || c == '+' || c == '-',
            };
            if !good {
                return Err(MoneyError::InvalidAmountFormat);
            }
            i = i + 1;
        }
        let amount = match Decimal::parse_chars(amount_tok) {
            Ok(d) => d,
            Err(e) => {
                return Err(MoneyError::InvalidAmountDecimal(e));
            },
        };
        let code_string = crate::text::chars_to_string(&toks[1]);
        match crate::currency::find_currency(code_string.as_str()) {
            Some(c) => Ok(Money { amount, currency: c }),
            None => Err(MoneyError::InvalidCurrency),
        }
    }
}

impl PartialEq for Money {
    /// Equal when the currencies share a code and the amounts denote one
    /// value.
    fn eq(&self, other: &Money) -> (r: bool) {
        self.currency == other.currency && self.amount == other.amount
    }
}

impl vstd::std_specs::cmp::PartialEqSpecImpl for Money {
    open spec fn obeys_eq_spec() -> bool {
        true
    }

    open spec fn eq_spec(&self, other: &Money) -> bool {
        self.currency.code@ == other.currency.code@ && (if self.amount.wf() && other.amount.wf() {
            self.amount.units() == other.amount.units()
        } else {
            self.amount.mantissa == other.amount.mantissa && self.amount.scale
                == other.amount.scale
        })
    }
}

impl Eq for Money {

}

impl PartialOrd for Money {
    /// Values of different currencies are incomparable; within one
    /// currency the amounts order the values.
    fn partial_cmp(&self, other: &Money) -> (r: Option<core::cmp::Ordering>) {
        if !(self.currency == other.currency) {
            return None;
        }
        let wf = self.amount.scale <= MAX_SCALE && -MANTISSA_LIMIT <= self.amount.mantissa
            && self.amount.mantissa <= MANTISSA_LIMIT && other.amount.scale <= MAX_SCALE
            && -MANTISSA_LIMIT <= other.amount.mantissa && other.amount.mantissa
            <= MANTISSA_LIMIT;
        if wf {
            Some(self.amount.cmp_values(&other.amount))
        } else {
            None
        }
    }
}

impl vstd::std_specs::cmp::PartialOrdSpecImpl for Money {
    open spec fn obeys_partial_cmp_spec() -> bool {
        true
    }

    open spec fn partial_cmp_spec(&self, other: &Money) -> Option<core::cmp::Ordering> {
        if self.currency.code@ != other.currency.code@ {
            None
        } else if self.amount.wf() && other.amount.wf() {
            if self.amount.units() < other.amount.units() {
                Some(core::cmp::Ordering::Less)
            } else if self.amount.units() == other.amount.units() {
                Some(core::cmp::Ordering::Equal)
            } else {
                Some(core::cmp::Ordering::Greater)
            }
        } else {
            None
        }
    }
}

} // verus!
