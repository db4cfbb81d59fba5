//! A registry of conversion rates between currency pairs.

use vstd::prelude::*;
use crate::currency::Currency;
use crate::decimal::{Decimal, MAX_SCALE, pow10};
use crate::error::MoneyError;
use crate::money::Money;

verus! {

/// A conversion rate from one currency into another.  Direction
/// matters: a rate from A to B says nothing about B to A.
#[derive(Debug, Clone, Copy)]
pub struct ExchangeRate {
    /// The currency a convertible value must be in.
    pub from: Currency,
    /// The currency of the converted value.
    pub to: Currency,
    /// The multiplier applied to the amount.
    pub rate: Decimal,
}

impl ExchangeRate {
    /// Well-formedness: both descriptors and the rate, with two
    /// distinct sides.
    pub open spec fn wf(self) -> bool {
        &&& self.from.wf()
        &&& self.to.wf()
        &&& self.rate.wf()
        &&& self.from.code@ != self.to.code@
    }

    /// Builds a rate; two equal sides are an invalid currency pair.
    pub fn new(from: Currency, to: Currency, rate: Decimal) -> (r: Result<
        ExchangeRate,
        MoneyError,
    >)
        requires
            from.wf(),
            to.wf(),
            rate.wf(),
        ensures
            from.code@ == to.code@ ==> r == Err::<ExchangeRate, MoneyError>(
                MoneyError::InvalidCurrency,
            ),
            from.code@ != to.code@ ==> (r matches Ok(er) && er.wf() && er.from == from && er.to
                == to && er.rate == rate),
    {
        if from == to {
            return Err(MoneyError::InvalidCurrency);
        }
        Ok(ExchangeRate { from, to, rate })
    }

    /// The multiplier.
    pub fn rate(&self) -> (r: Decimal)
        ensures
            r == self.rate,
    {
        self.rate
    }

    /// Converts a value of the `from` currency into the `to` currency
    /// by exact multiplication; any other currency is rejected.
    pub fn convert(&self, amount: &Money) -> (r: Result<Money, MoneyError>)
        requires
            self.wf(),
            amount.wf(),
            amount.currency.code@ == self.from.code@ ==> amount.amount.spec_mul_ok(self.rate),
        ensures
            amount.currency.code@ != self.from.code@ ==> r == Err::<Money, MoneyError>(
                MoneyError::InvalidCurrency,
            ),
            amount.currency.code@ == self.from.code@ ==> (r matches Ok(m) && m.wf() && m.currency
                == self.to && m.amount.units() * pow10(MAX_SCALE as nat)
                == amount.amount.units() * self.rate.units()),
    {
        if !(amount.currency == self.from) {
            return Err(MoneyError::InvalidCurrency);
        }
        match amount.amount.checked_mul(&self.rate) {
            Some(p) => Ok(Money { amount: p, currency: self.to }),
            None => vstd::pervasive::unreached(),
        }
    }
}

/// The rate stored for an ordered currency pair: the most recently set
/// entry wins.
pub open spec fn spec_lookup(rates: Seq<ExchangeRate>, f: Seq<char>, t: Seq<char>) -> Option<
    ExchangeRate,
>
    decreases rates.len(),
{
    if rates.len() == 0 {
        None
    } else if rates.last().from.code@ == f && rates.last().to.code@ == t {
        Some(rates.last())
    } else {
        spec_lookup(rates.drop_last(), f, t)
    }
}

/// A mutable registry of exchange rates, keyed by the ordered pair of
/// currency codes.  Setting a pair again overwrites its rate.
#[derive(Debug)]
pub struct Exchange {
    /// The stored rates; at most one entry per ordered pair.
    pub rates: Vec<ExchangeRate>,
}

impl Exchange {
    /// Well-formedness: every entry is well-formed and no ordered pair
    /// appears twice.
    pub open spec fn wf(self) -> bool {
        &&& forall|i: int| 0 <= i < self.rates@.len() ==> (#[trigger] self.rates@[i]).wf()
        &&& forall|i: int, j: int|
            0 <= i < j < self.rates@.len() ==> !(self.rates@[i].from.code@
                == self.rates@[j].from.code@ && self.rates@[i].to.code@
                == self.rates@[j].to.code@)
    }

    /// An empty registry.
    pub fn new() -> (r: Exchange)
        ensures
            r.wf(),
            r.rates@.len() == 0,
    {
        Exchange { rates: Vec::new() }
    }

    /// Stores a rate for its ordered pair, replacing any earlier entry.
    pub fn set_rate(&mut self, rate: &ExchangeRate)
        requires
            old(self).wf(),
            rate.wf(),
        ensures
            final(self).wf(),
            spec_lookup(final(self).rates@, rate.from.code@, rate.to.code@) == Some(*rate),
            forall|f: Seq<char>, t: Seq<char>|
                !(f == rate.from.code@ && t == rate.to.code@) ==> #[trigger] spec_lookup(
                    final(self).rates@,
                    f,
                    t,
                ) == spec_lookup(old(self).rates@, f, t),
    {
        let n = self.rates.len();
        let mut i: usize = 0;
        while i < n
            invariant
                n == self.rates@.len(),
                i <= n,
                *self == *old(self),
                old(self).wf(),
                rate.wf(),
                forall|j: int|
                    0 <= j < i ==> !((#[trigger] self.rates@[j]).from.code@ == rate.from.code@
                        && self.rates@[j].to.code@ == rate.to.code@),
            decreases n - i,
        {
            let e = self.rates[i];
            if e.from == rate.from && e.to == rate.to {
                self.rates.set(i, *rate);
                proof {
                    lemma_lookup_after_update(old(self).rates@, i as int, *rate);
                }
                return ;
            }
            i = i + 1;
        }
        self.rates.push(*rate);
        proof {
            assert(final(self).rates@.drop_last() =~= old(self).rates@);
            assert(final(self).rates@.last() == *rate);
        }
    }

    /// The rate stored for the ordered pair, if any.
    pub fn get_rate(&self, from: &Currency, to: &Currency) -> (r: Option<ExchangeRate>)
        ensures
            r == spec_lookup(self.rates@, from.code@, to.code@),
    {
        let mut i: usize = self.rates.len();
        proof {
            assert(self.rates@.take(self.rates@.len() as int) =~= self.rates@);
        }
        while i > 0
            invariant
                i <= self.rates@.len(),
                spec_lookup(self.rates@, from.code@, to.code@) == spec_lookup(
                    self.rates@.take(i as int),
                    from.code@,
                    to.code@,
                ),
            decreases i,
        {
            i = i - 1;
            let e = self.rates[i];
            proof {
                assert(self.rates@.take(i as int + 1).drop_last() =~= self.rates@.take(i as int));
                assert(self.rates@.take(i as int + 1).last() == self.rates@[i as int]);
            }
            if e.from == *from && e.to == *to {
                return Some(e);
            }
        }
        proof {
            assert(self.rates@.take(0) =~= Seq::<ExchangeRate>::empty());
        }
        None
    }
}

/// Replacing the unique entry of a pair makes lookups of that pair see
/// the new entry and leaves every other pair alone.
proof fn lemma_lookup_after_update(rates: Seq<ExchangeRate>, i: int, new: ExchangeRate)
    requires
        0 <= i < rates.len(),
        rates[i].from.code@ == new.from.code@,
        rates[i].to.code@ == new.to.code@,
        forall|a: int, b: int|
            0 <= a < b < rates.len() ==> !(rates[a].from.code@ == rates[b].from.code@
                && rates[a].to.code@ == rates[b].to.code@),
    ensures
        spec_lookup(rates.update(i, new), new.from.code@, new.to.code@) == Some(new),
        forall|f: Seq<char>, t: Seq<char>|
            !(f == new.from.code@ && t == new.to.code@) ==> #[trigger] spec_lookup(
                rates.update(i, new),
                f,
                t,
            ) == spec_lookup(rates, f, t),
        forall|a: int, b: int|
            0 <= a < b < rates.update(i, new).len() ==> !(rates.update(i, new)[a].from.code@
                == rates.update(i, new)[b].from.code@ && rates.update(i, new)[a].to.code@
                == rates.update(i, new)[b].to.code@),
    decreases rates.len(),
{
    let u = rates.update(i, new);
    assert forall|a: int, b: int|
        0 <= a < b < u.len() implies !(u[a].from.code@ == u[b].from.code@ && u[a].to.code@
        == u[b].to.code@) by {
        assert(u[a].from.code@ == rates[a].from.code@ && u[a].to.code@ == rates[a].to.code@);
        assert(u[b].from.code@ == rates[b].from.code@ && u[b].to.code@ == rates[b].to.code@);
    }
    if i == rates.len() - 1 {
        assert(u.last() == new);
        assert(u.drop_last() =~= rates.drop_last());
        assert forall|f: Seq<char>, t: Seq<char>|
            !(f == new.from.code@ && t == new.to.code@) implies #[trigger] spec_lookup(u, f, t)
            == spec_lookup(rates, f, t) by {
            assert(rates.last() == rates[i]);
        }
    } else {
        assert(u.last() == rates.last());
        assert(u.drop_last() =~= rates.drop_last().update(i, new));
        assert(forall|a: int, b: int|
            0 <= a < b < rates.drop_last().len() ==> !((#[trigger] rates.drop_last()[a]).from.code@
                == (#[trigger] rates.drop_last()[b]).from.code@ && rates.drop_last()[a].to.code@
                == rates.drop_last()[b].to.code@));
        lemma_lookup_after_update(rates.drop_last(), i, new);
        // The last entry is not the updated pair.
        assert(!(rates.last().from.code@ == new.from.code@ && rates.last().to.code@
            == new.to.code@)) by {
            assert(rates[i].from.code@ == new.from.code@);
            assert(rates[rates.len() - 1] == rates.last());
        }
        assert(spec_lookup(u, new.from.code@, new.to.code@) == Some(new)) by {
            assert(spec_lookup(u.drop_last(), new.from.code@, new.to.code@) == Some(new));
        }
        assert forall|f: Seq<char>, t: Seq<char>|
            !(f == new.from.code@ && t == new.to.code@) implies #[trigger] spec_lookup(u, f, t)
            == spec_lookup(rates, f, t) by {
            if rates.last().from.code@ == f && rates.last().to.code@ == t {
            } else {
                assert(spec_lookup(rates.drop_last().update(i, new), f, t) == spec_lookup(
                    rates.drop_last(),
                    f,
                    t,
                ));
            }
        }
    }
}

} // verus!
