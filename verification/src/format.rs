//! Rendering monetary values as display strings.

use vstd::prelude::*;
use crate::decimal::{Decimal, RoundingStrategy};
use crate::money::Money;
use crate::text::{
    chars_to_string, first_dot, spec_dec_chars, str_to_chars,
};

verus! {

/// An element of a rendered money string, in the order requested.
#[derive(Debug, Clone, Copy, PartialEq, Eq, Structural)]
pub enum Position {
    /// A literal space.
    Space,
    /// The grouped amount.
    Amount,
    /// The currency code, when configured.
    Code,
    /// The currency symbol, when configured.
    Symbol,
    /// A minus sign for negative values, nothing otherwise.
    Sign,
}

/// The formatting parameters: separators, grouping, element order,
/// optional rounding, and the optional symbol and code texts.
#[derive(Debug, Clone)]
pub struct Params {
    /// The character between digit groups.
    pub digit_separator: char,
    /// The character between the integer and fractional digits.
    pub exponent_separator: char,
    /// Group sizes, least significant first.  A zero entry inserts a
    /// separator without consuming digits.
    pub separator_pattern: Vec<usize>,
    /// The order of the rendered elements.
    pub positions: Vec<Position>,
    /// Fractional digits to round to (half to even); `None` keeps every
    /// digit.
    pub rounding: Option<u32>,
    /// The symbol text, rendered only where a `Symbol` position asks.
    pub symbol: Option<&'static str>,
    /// The code text, rendered only where a `Code` position asks.
    pub code: Option<&'static str>,
}

impl Default for Params {
    /// Comma groups of three, a dot before the fraction, sign before
    /// symbol before amount, no rounding, no texts.
    fn default() -> (r: Params)
        ensures
            r.digit_separator == ',',
            r.exponent_separator == '.',
            r.separator_pattern@ == seq![3usize, 3usize, 3usize],
            r.positions@ == seq![Position::Sign, Position::Symbol, Position::Amount],
            r.rounding is None,
            r.symbol is None,
            r.code is None,
    {
        let mut pattern: Vec<usize> = Vec::new();
        pattern.push(3);
        pattern.push(3);
        pattern.push(3);
        let mut positions: Vec<Position> = Vec::new();
        positions.push(Position::Sign);
        positions.push(Position::Symbol);
        positions.push(Position::Amount);
        proof {
            assert(pattern@ =~= seq![3usize, 3usize, 3usize]);
            assert(positions@ =~= seq![Position::Sign, Position::Symbol, Position::Amount]);
        }
        Params {
            digit_separator: ',',
            exponent_separator: '.',
            separator_pattern: pattern,
            positions,
            rounding: None,
            symbol: None,
            code: None,
        }
    }
}

/// The digits with separators inserted by walking the pattern from the
/// least significant digit: each entry consumes that many characters
/// before one separator goes in; an entry that reaches past the start
/// inserts nothing more.
pub open spec fn spec_group_step(
    digits: Seq<char>,
    sep: char,
    pattern: Seq<usize>,
    cur: int,
) -> Seq<char>
    decreases pattern.len(),
{
    if pattern.len() == 0 {
        digits
    } else {
        let cur2 = cur + pattern[0];
        if digits.len() > cur2 {
            spec_group_step(
                digits.insert(digits.len() - cur2, sep),
                sep,
                pattern.skip(1),
                cur2 + 1,
            )
        } else {
            spec_group_step(digits, sep, pattern.skip(1), cur2)
        }
    }
}

/// The grouped form of a digit string under a pattern.
pub open spec fn spec_group_digits(digits: Seq<char>, sep: char, pattern: Seq<usize>) -> Seq<
    char,
> {
    spec_group_step(digits, sep, pattern, 0)
}

/// The sum of a grouping pattern.
pub open spec fn spec_pattern_sum(pattern: Seq<usize>) -> int
    decreases pattern.len(),
{
    if pattern.len() == 0 {
        0
    } else {
        spec_pattern_sum(pattern.drop_last()) + pattern.last()
    }
}

/// The characters with every minus sign removed.
pub open spec fn spec_strip_minus(s: Seq<char>) -> Seq<char>
    decreases s.len(),
{
    if s.len() == 0 {
        Seq::empty()
    } else if s.last() == '-' {
        spec_strip_minus(s.drop_last())
    } else {
        spec_strip_minus(s.drop_last()).push(s.last())
    }
}

/// The integer part of an amount string: everything before the first
/// point.
pub open spec fn spec_int_part(s: Seq<char>) -> Seq<char> {
    let i = first_dot(s);
    if i == -1 {
        s
    } else {
        s.take(i)
    }
}

/// The fractional part: what follows the first point, when one exists.
pub open spec fn spec_frac_part(s: Seq<char>) -> Option<Seq<char>> {
    let i = first_dot(s);
    if i == -1 {
        None
    } else {
        Some(s.skip(i + 1))
    }
}

/// The formatted amount: the integer digits, sign stripped and grouped,
/// then the exponent separator and the fraction when one exists.
pub open spec fn spec_format_amount(s: Seq<char>, p: Params) -> Seq<char> {
    let grouped = spec_group_digits(
        spec_strip_minus(spec_int_part(s)),
        p.digit_separator,
        p.separator_pattern@,
    );
    match spec_frac_part(s) {
        None => grouped,
        Some(frac) => grouped + seq![p.exponent_separator] + frac,
    }
}

/// The view of an optional text; nothing when absent.
pub open spec fn spec_opt_text(t: Option<&str>) -> Seq<char> {
    match t {
        Some(s) => s@,
        None => Seq::empty(),
    }
}

/// The final assembly: each position contributes its element's text.
pub open spec fn spec_positions_render(
    positions: Seq<Position>,
    amount: Seq<char>,
    negative: bool,
    symbol: Seq<char>,
    code: Seq<char>,
) -> Seq<char>
    decreases positions.len(),
{
    if positions.len() == 0 {
        Seq::empty()
    } else {
        spec_positions_render(positions.drop_last(), amount, negative, symbol, code)
            + match positions.last() {
            Position::Space => seq![' '],
            Position::Amount => amount,
            Position::Code => code,
            Position::Symbol => symbol,
            Position::Sign => if negative {
                seq!['-']
            } else {
                Seq::empty()
            },
        }
    }
}

/// The amount the formatter renders: rounded half-to-even when a digit
/// count is configured, untouched otherwise.
pub open spec fn spec_formatted_decimal(m: Money, p: Params) -> Decimal {
    match p.rounding {
        Some(x) => m.amount.spec_round(x, RoundingStrategy::MidpointNearestEven),
        None => m.amount,
    }
}

/// The full rendering of a monetary value under the parameters.
pub open spec fn spec_format_money(m: Money, p: Params) -> Seq<char> {
    let d = spec_formatted_decimal(m, p);
    let amount = spec_format_amount(spec_dec_chars(d.mantissa as int, d.scale as nat), p);
    spec_positions_render(
        p.positions@,
        amount,
        m.amount.units() < 0,
        spec_opt_text(p.symbol),
        spec_opt_text(p.code),
    )
}

/// Converts monetary values into display strings.
#[derive(Debug)]
pub struct Formatter;

impl Formatter {
    /// Renders the digits of `raw_digits` with `separator` inserted
    /// after the group sizes of `pattern`, least significant first.
    pub fn digits(raw_digits: &str, separator: char, pattern: &[usize]) -> (r: String)
        requires
            spec_pattern_sum(pattern@) + pattern@.len() + raw_digits@.len() < usize::MAX,
        ensures
            r@ == spec_group_digits(raw_digits@, separator, pattern@),
    {
        let mut digits = str_to_chars(raw_digits);
        let mut cur: usize = 0;
        let mut i: usize = 0;
        let n = pattern.len();
        proof {
            assert(pattern@.skip(0) =~= pattern@);
            lemma_pattern_sum_skip_bounds(pattern@, 0);
        }
        while i < n
            invariant
                n == pattern@.len(),
                i <= n,
                cur + spec_pattern_sum(pattern@.skip(i as int)) + (n - i)
                    + raw_digits@.len() < usize::MAX,
                digits@.len() <= raw_digits@.len() + i,
                spec_group_digits(raw_digits@, separator, pattern@) == spec_group_step(
                    digits@,
                    separator,
                    pattern@.skip(i as int),
                    cur as int,
                ),
            decreases n - i,
        {
            proof {
                lemma_pattern_sum_skip_step(pattern@, i as int);
                lemma_pattern_sum_nonneg(pattern@.skip(i as int + 1));
            }
            let p = pattern[i];
            let cur2 = cur + p;
            if digits.len() > cur2 {
                let at = digits.len() - cur2;
                digits.insert(at, separator);
                cur = cur2 + 1;
            } else {
                cur = cur2;
            }
            proof {
                assert(pattern@.skip(i as int).skip(1) =~= pattern@.skip(i as int + 1));
            }
            i = i + 1;
        }
        proof {
            assert(pattern@.skip(n as int) =~= Seq::<usize>::empty());
        }
        chars_to_string(&digits)
    }

    /// Renders an amount string: strips the sign from the integer part,
    /// groups it, and re-appends the fraction behind the configured
    /// exponent separator.  The input carries at most one point.
    pub fn amount(raw_amount: &str, params: &Params) -> (r: String)
        requires
            spec_pattern_sum(params.separator_pattern@) + params.separator_pattern@.len()
                + raw_amount@.len() < usize::MAX,
        ensures
            r@ == spec_format_amount(raw_amount@, *params),
    {
        let chars = str_to_chars(raw_amount);
        // Locate the first point.
        let mut dot: usize = 0;
        let mut has_dot = false;
        let mut i: usize = 0;
        let n = chars.len();
        while i < n
            invariant
                n == chars@.len(),
                i <= n,
                !has_dot ==> forall|j: int| 0 <= j < i ==> chars@[j] != '.',
                has_dot ==> dot < i && chars@[dot as int] == '.' && (forall|j: int|
                    0 <= j < dot ==> chars@[j] != '.'),
            decreases n - i,
        {
            if !has_dot && chars[i] == '.' {
                dot = i;
                has_dot = true;
            }
            i = i + 1;
        }
        proof {
            if has_dot {
                crate::text::lemma_first_dot_at(chars@, dot as int);
            } else {
                crate::text::lemma_first_dot_none(chars@);
            }
        }
        let int_len = if has_dot {
            dot
        } else {
            n
        };
        // Strip minus signs from the integer part.
        let mut int_digits: Vec<char> = Vec::new();
        i = 0;
        proof {
            assert(spec_int_part(chars@).take(0) =~= Seq::<char>::empty());
            assert(spec_strip_minus(Seq::<char>::empty()) =~= Seq::<char>::empty());
            assert(int_digits@ =~= Seq::<char>::empty());
        }
        while i < int_len
            invariant
                n == chars@.len(),
                int_len <= n,
                i <= int_len,
                int_len == spec_int_part(chars@).len(),
                forall|j: int| 0 <= j < int_len ==> spec_int_part(chars@)[j] == chars@[j],
                int_digits@ == spec_strip_minus(spec_int_part(chars@).take(i as int)),
                int_digits@.len() <= i,
            decreases int_len - i,
        {
            let c = chars[i];
            proof {
                let part = spec_int_part(chars@);
                assert(part.take(i as int + 1).drop_last() =~= part.take(i as int));
                assert(part.take(i as int + 1).last() == chars@[i as int]);
            }
            if c != '-' {
                int_digits.push(c);
            }
            i = i + 1;
        }
        proof {
            assert(spec_int_part(chars@).take(int_len as int) =~= spec_int_part(chars@));
        }
        let grouped = Formatter::digits(
            chars_to_string(&int_digits).as_str(),
            params.digit_separator,
            params.separator_pattern.as_slice(),
        );
        let mut out = str_to_chars(grouped.as_str());
        if has_dot {
            out.push(params.exponent_separator);
            let mut j = dot + 1;
            proof {
                assert(chars@.subrange(dot as int + 1, dot as int + 1) =~= Seq::<char>::empty());
                assert(out@ =~= spec_group_digits(
                    spec_strip_minus(spec_int_part(chars@)),
                    params.digit_separator,
                    params.separator_pattern@,
                ) + seq![params.exponent_separator] + chars@.subrange(
                    dot as int + 1,
                    dot as int + 1,
                ));
            }
            while j < n
                invariant
                    n == chars@.len(),
                    dot < j <= n,
                    out@ =~= spec_group_digits(
                        spec_strip_minus(spec_int_part(chars@)),
                        params.digit_separator,
                        params.separator_pattern@,
                    ) + seq![params.exponent_separator] + chars@.subrange(
                        dot as int + 1,
                        j as int,
                    ),
                decreases n - j,
            {
                proof {
                    assert(chars@.subrange(dot as int + 1, j as int + 1) =~= chars@.subrange(
                        dot as int + 1,
                        j as int,
                    ).push(chars@[j as int]));
                }
                out.push(chars[j]);
                j = j + 1;
            }
            proof {
                assert(chars@.subrange(dot as int + 1, n as int) =~= chars@.skip(dot as int + 1));
            }
        }
        chars_to_string(&out)
    }

    /// Renders a monetary value under the given parameters: optionally
    /// rounds half-to-even, formats the amount, and assembles the
    /// requested elements in order.
    pub fn money(money: &Money, params: Params) -> (r: String)
        requires
            money.wf(),
            spec_pattern_sum(params.separator_pattern@) + params.separator_pattern@.len() + 70
                < usize::MAX,
        ensures
            r@ == spec_format_money(*money, params),
    {
        let negative = money.is_negative();
        let decimal = match params.rounding {
            Some(x) => money.amount.round_dp_with_strategy(
                x,
                RoundingStrategy::MidpointNearestEven,
            ),
            None => money.amount,
        };
        let rendered = decimal.to_chars();
        proof {
            crate::text::lemma_dec_chars_len(decimal.mantissa as int, decimal.scale as nat);
        }
        let amount = Formatter::amount(chars_to_string(&rendered).as_str(), &params);
        let amount_chars = str_to_chars(amount.as_str());
        let mut out: Vec<char> = Vec::new();
        let mut i: usize = 0;
        let n = params.positions.len();
        proof {
            assert(params.positions@.take(0) =~= Seq::<Position>::empty());
            assert(out@ =~= spec_positions_render(
                params.positions@.take(0),
                amount_chars@,
                negative,
                spec_opt_text(params.symbol),
                spec_opt_text(params.code),
            ));
        }
        while i < n
            invariant
                n == params.positions@.len(),
                i <= n,
                amount_chars@ == spec_format_amount(
                    spec_dec_chars(
                        spec_formatted_decimal(*money, params).mantissa as int,
                        spec_formatted_decimal(*money, params).scale as nat,
                    ),
                    params,
                ),
                negative == (money.amount.units() < 0),
                out@ == spec_positions_render(
                    params.positions@.take(i as int),
                    amount_chars@,
                    negative,
                    spec_opt_text(params.symbol),
                    spec_opt_text(params.code),
                ),
            decreases n - i,
        {
            proof {
                assert(params.positions@.take(i as int + 1).drop_last() =~= params.positions@.take(
                    i as int,
                ));
                assert(params.positions@.take(i as int + 1).last() == params.positions@[i as int]);
            }
            match params.positions[i] {
                Position::Space => {
                    out.push(' ');
                },
                Position::Amount => {
                    let mut k: usize = 0;
                    let ghost base = out@;
                    while k < amount_chars.len()
                        invariant
                            k <= amount_chars@.len(),
                            out@ =~= base + amount_chars@.take(k as int),
                        decreases amount_chars@.len() - k,
                    {
                        proof {
                            assert(amount_chars@.take(k as int + 1) =~= amount_chars@.take(
                                k as int,
                            ).push(amount_chars@[k as int]));
                        }
                        out.push(amount_chars[k]);
                        k = k + 1;
                    }
                    proof {
                        assert(amount_chars@.take(amount_chars@.len() as int) =~= amount_chars@);
                    }
                },
                Position::Code => {
                    match params.code {
                        Some(c) => {
                            let cv = str_to_chars(c);
                            let mut k: usize = 0;
                            let ghost base = out@;
                            while k < cv.len()
                                invariant
                                    k <= cv@.len(),
                                    out@ =~= base + cv@.take(k as int),
                                decreases cv@.len() - k,
                            {
                                proof {
                                    assert(cv@.take(k as int + 1) =~= cv@.take(k as int).push(
                                        cv@[k as int],
                                    ));
                                }
                                out.push(cv[k]);
                                k = k + 1;
                            }
                            proof {
                                assert(cv@.take(cv@.len() as int) =~= cv@);
                            }
                        },
                        None => {
                        },
                    }
                },
                Position::Symbol => {
                    match params.symbol {
                        Some(sy) => {
                            let sv = str_to_chars(sy);
                            let mut k: usize = 0;
                            let ghost base = out@;
                            while k < sv.len()
                                invariant
                                    k <= sv@.len(),
                                    out@ =~= base + sv@.take(k as int),
                                decreases sv@.len() - k,
                            {
                                proof {
                                    assert(sv@.take(k as int + 1) =~= sv@.take(k as int).push(
                                        sv@[k as int],
                                    ));
                                }
                                out.push(sv[k]);
                                k = k + 1;
                            }
                            proof {
                                assert(sv@.take(sv@.len() as int) =~= sv@);
                            }
                        },
                        None => {
                        },
                    }
                },
                Position::Sign => {
                    if negative {
                        out.push('-');
                    }
                },
            }
            proof {
                assert(out@ =~= spec_positions_render(
                    params.positions@.take(i as int + 1),
                    amount_chars@,
                    negative,
                    spec_opt_text(params.symbol),
                    spec_opt_text(params.code),
                ));
            }
            i = i + 1;
        }
        proof {
            assert(params.positions@.take(n as int) =~= params.positions@);
        }
        chars_to_string(&out)
    }
}

/// Digit grouping with a fixed group size, inserted from the right.
pub open spec fn spec_group_every(s: Seq<char>, sep: char, k: int) -> Seq<char>
    decreases s.len(),
{
    if k <= 0 || s.len() <= k {
        s
    } else {
        spec_group_every(s.take(s.len() - k), sep, k) + seq![sep] + s.skip(s.len() - k)
    }
}

/// Indian-style grouping: one group of three on the right, then groups
/// of two.
pub open spec fn spec_group_indian(s: Seq<char>) -> Seq<char> {
    if s.len() <= 3 {
        s
    } else {
        spec_group_every(s.take(s.len() - 3), ',', 2) + seq![','] + s.skip(s.len() - 3)
    }
}

/// The fraction that `format_with_separators` keeps: the text between
/// the first point and the next, if any.
pub open spec fn spec_sep_frac(s: Seq<char>) -> Seq<char> {
    match spec_frac_part(s) {
        None => Seq::empty(),
        Some(rest) => spec_int_part(rest),
    }
}

/// A thousands-grouped amount: the integer part in groups of three,
/// then the decimal separator and fraction when the fraction is
/// non-empty.
pub open spec fn spec_with_separators(s: Seq<char>, ts: char, ds: char) -> Seq<char> {
    let grouped = spec_group_every(spec_int_part(s), ts, 3);
    let frac = spec_sep_frac(s);
    if frac.len() > 0 {
        grouped + seq![ds] + frac
    } else {
        grouped
    }
}

/// An Indian-style grouped amount.
pub open spec fn spec_indian_style(s: Seq<char>) -> Seq<char> {
    let grouped = spec_group_indian(spec_int_part(s));
    let frac = spec_sep_frac(s);
    if frac.len() > 0 {
        grouped + seq!['.'] + frac
    } else {
        grouped
    }
}

/// Copies the characters of a range.
fn subvec(v: &Vec<char>, from: usize, to: usize) -> (r: Vec<char>)
    requires
        from <= to <= v@.len(),
    ensures
        r@ == v@.subrange(from as int, to as int),
{
    let mut r: Vec<char> = Vec::new();
    let mut i = from;
    proof {
        assert(v@.subrange(from as int, from as int) =~= Seq::<char>::empty());
        assert(r@ =~= v@.subrange(from as int, from as int));
    }
    while i < to
        invariant
            from <= i <= to <= v@.len(),
            r@ =~= v@.subrange(from as int, i as int),
        decreases to - i,
    {
        proof {
            assert(v@.subrange(from as int, i as int + 1) =~= v@.subrange(
                from as int,
                i as int,
            ).push(v@[i as int]));
        }
        r.push(v[i]);
        i = i + 1;
    }
    r
}

/// Appends all characters of `t` to `v`.
fn extend_chars(v: &mut Vec<char>, t: &Vec<char>)
    ensures
        final(v)@ == old(v)@ + t@,
{
    let mut i: usize = 0;
    proof {
        assert(v@ =~= old(v)@ + t@.take(0));
    }
    while i < t.len()
        invariant
            i <= t@.len(),
            v@ =~= old(v)@ + t@.take(i as int),
        decreases t@.len() - i,
    {
        proof {
            assert(old(v)@ + t@.take(i as int + 1) =~= (old(v)@ + t@.take(i as int)).push(
                t@[i as int],
            ));
        }
        v.push(t[i]);
        i = i + 1;
    }
    proof {
        assert(t@.take(t@.len() as int) =~= t@);
    }
}

/// Groups characters from the right in blocks of `k`.
fn group_every_chars(v: Vec<char>, sep: char, k: usize) -> (r: Vec<char>)
    requires
        k >= 1,
    ensures
        r@ == spec_group_every(v@, sep, k as int),
    decreases v@.len(),
{
    if v.len() <= k {
        return v;
    }
    let cut = v.len() - k;
    let head = subvec(&v, 0, cut);
    let tail = subvec(&v, cut, v.len());
    proof {
        assert(head@ =~= v@.take(cut as int));
        assert(tail@ =~= v@.skip(cut as int));
    }
    let mut r = group_every_chars(head, sep, k);
    r.push(sep);
    extend_chars(&mut r, &tail);
    proof {
        assert(r@ =~= spec_group_every(v@.take(cut as int), sep, k as int) + seq![sep]
            + v@.skip(cut as int));
    }
    r
}

/// Splits an amount string at its first point: the integer part, and
/// the fraction running to the next point if any.
fn split_amount(chars: &Vec<char>) -> (r: (Vec<char>, Vec<char>))
    ensures
        r.0@ == spec_int_part(chars@),
        r.1@ == spec_sep_frac(chars@),
{
    let n = chars.len();
    let mut dot: usize = n;
    let mut has_dot = false;
    let mut i: usize = 0;
    while i < n
        invariant
            n == chars@.len(),
            i <= n,
            !has_dot ==> forall|j: int| 0 <= j < i ==> chars@[j] != '.',
            has_dot ==> dot < i && chars@[dot as int] == '.' && (forall|j: int|
                0 <= j < dot ==> chars@[j] != '.'),
        decreases n - i,
    {
        if !has_dot && chars[i] == '.' {
            dot = i;
            has_dot = true;
        }
        i = i + 1;
    }
    if !has_dot {
        proof {
            crate::text::lemma_first_dot_none(chars@);
        }
        let int_part = subvec(chars, 0, n);
        proof {
            assert(int_part@ =~= chars@);
        }
        return (int_part, Vec::new());
    }
    proof {
        crate::text::lemma_first_dot_at(chars@, dot as int);
    }
    let int_part = subvec(chars, 0, dot);
    proof {
        assert(int_part@ =~= spec_int_part(chars@));
    }
    // The fraction runs to the next point, if any.
    let ghost rest = chars@.skip(dot as int + 1);
    let mut j = dot + 1;
    let mut frac_end = n;
    let mut frac_has_dot = false;
    while j < n
        invariant
            n == chars@.len(),
            dot < j <= n,
            rest == chars@.skip(dot as int + 1),
            !frac_has_dot ==> frac_end == n && (forall|l: int|
                dot < l < j ==> chars@[l] != '.'),
            frac_has_dot ==> dot < frac_end < j && chars@[frac_end as int] == '.' && (forall|
                l: int,
            |
                dot < l < frac_end ==> chars@[l] != '.'),
        decreases n - j,
    {
        if !frac_has_dot && chars[j] == '.' {
            frac_end = j;
            frac_has_dot = true;
        }
        j = j + 1;
    }
    proof {
        if frac_has_dot {
            assert forall|l: int| 0 <= l < frac_end - dot - 1 implies rest[l] != '.' by {
                assert(rest[l] == chars@[l + dot + 1]);
            }
            assert(rest[frac_end - dot - 1] == '.');
            crate::text::lemma_first_dot_at(rest, frac_end as int - dot as int - 1);
        } else {
            assert forall|l: int| 0 <= l < rest.len() implies rest[l] != '.' by {
                assert(rest[l] == chars@[l + dot + 1]);
            }
            crate::text::lemma_first_dot_none(rest);
        }
    }
    let frac = subvec(chars, dot + 1, frac_end);
    proof {
        if frac_has_dot {
            assert(frac@ =~= rest.take(frac_end as int - dot as int - 1));
        } else {
            assert(frac@ =~= rest);
        }
        assert(frac@ =~= spec_sep_frac(chars@));
    }
    (int_part, frac)
}

/// Indian-style grouping of a digit vector.
fn group_indian_chars(v: Vec<char>) -> (r: Vec<char>)
    ensures
        r@ == spec_group_indian(v@),
{
    if v.len() <= 3 {
        return v;
    }
    let cut = v.len() - 3;
    let head = subvec(&v, 0, cut);
    let tail = subvec(&v, cut, v.len());
    proof {
        assert(head@ =~= v@.take(cut as int));
        assert(tail@ =~= v@.skip(cut as int));
    }
    let mut r = group_every_chars(head, ',', 2);
    r.push(',');
    extend_chars(&mut r, &tail);
    proof {
        assert(r@ =~= spec_group_indian(v@));
    }
    r
}

/// The digit characters of `mag` at `have` fractional digits, extended
/// with zeros to `want` fractional digits and padded in front so the
/// point has a digit on each side.
pub open spec fn spec_scaled_digits(mag: nat, have: nat, want: nat) -> Seq<char> {
    let ds = crate::text::spec_digits(mag) + crate::text::spec_zeros((want - have) as nat);
    if ds.len() >= want + 1 {
        ds
    } else {
        crate::text::spec_zeros((want + 1 - ds.len()) as nat) + ds
    }
}

/// Builds the scaled digit characters.
fn scaled_digit_chars(mag: u128, have: u32, want: u32) -> (r: Vec<char>)
    requires
        have <= want <= 40,
    ensures
        r@ == spec_scaled_digits(mag as nat, have as nat, want as nat),
        r@.len() >= want + 1,
{
    let mut digs = crate::text::digit_chars(mag);
    let ghost raw = crate::text::spec_digits(mag as nat);
    let mut j: u32 = 0;
    proof {
        assert(digs@ =~= raw + crate::text::spec_zeros(0));
    }
    while j < want - have
        invariant
            j <= want - have,
            raw == crate::text::spec_digits(mag as nat),
            raw.len() >= 1,
            digs@ =~= raw + crate::text::spec_zeros(j as nat),
            digs@.len() == raw.len() + j,
        decreases want - have - j,
    {
        proof {
            assert((raw + crate::text::spec_zeros(j as nat)).push('0') =~= raw
                + crate::text::spec_zeros((j + 1) as nat));
        }
        digs.push('0');
        j = j + 1;
    }
    let ghost ext = raw + crate::text::spec_zeros((want - have) as nat);
    while digs.len() < (want + 1) as usize
        invariant
            want <= 40,
            ext == raw + crate::text::spec_zeros((want - have) as nat),
            ext.len() >= 1,
            digs@.len() >= ext.len(),
            digs@.len() <= ext.len() || digs@.len() <= want + 1,
            digs@ =~= crate::text::spec_zeros((digs@.len() - ext.len()) as nat) + ext,
        decreases (want + 1) as int - digs@.len(),
    {
        proof {
            assert(seq!['0'] + (crate::text::spec_zeros((digs@.len() - ext.len()) as nat) + ext)
                =~= crate::text::spec_zeros((digs@.len() + 1 - ext.len()) as nat) + ext);
        }
        digs.insert(0, '0');
    }
    proof {
        if ext.len() >= want + 1 {
            assert(digs@.len() == ext.len());
            assert(crate::text::spec_zeros(0) + ext =~= ext);
            assert(digs@ =~= spec_scaled_digits(mag as nat, have as nat, want as nat));
        } else {
            assert(digs@.len() == want + 1);
            assert(digs@ =~= spec_scaled_digits(mag as nat, have as nat, want as nat));
        }
    }
    digs
}

impl Money {
    /// The characters of the standard rendering: the amount rounded
    /// commercially to the currency's exponent, grouped by the locale,
    /// with the symbol on the currency's side and a leading minus for
    /// negative amounts.
    pub open spec fn spec_display_chars(self) -> Seq<char> {
        let exp = self.currency.exponent;
        let rd = self.amount.spec_round(exp, RoundingStrategy::MidpointAwayFromZero);
        let mag = vstd::math::abs(rd.mantissa as int);
        let padded = spec_scaled_digits(mag, rd.scale as nat, exp as nat);
        let cut = padded.len() - exp;
        let intp = padded.take(cut as int);
        let frac = padded.skip(cut as int);
        let grouped = match self.currency.locale {
            crate::locale::Locale::EnIn => spec_group_indian(intp),
            crate::locale::Locale::EnEu => spec_group_every(intp, '.', 3),
            crate::locale::Locale::EnBy => spec_group_every(intp, ' ', 3),
            crate::locale::Locale::EnUs => spec_group_every(intp, ',', 3),
        };
        let amt = if exp > 0 {
            grouped + seq![self.currency.locale.spec_exponent_separator()] + frac
        } else {
            grouped
        };
        let sign: Seq<char> = if rd.mantissa < 0 {
            seq!['-']
        } else {
            Seq::empty()
        };
        if self.currency.symbol_first {
            sign + self.currency.symbol@ + amt
        } else {
            sign + amt + self.currency.symbol@
        }
    }

    /// Renders the value in its currency's standard style.
    #[verifier::rlimit(60)]
    pub fn to_display_string(&self) -> (r: String)
        requires
            self.wf(),
        ensures
            r@ == self.spec_display_chars(),
    {
        let exp = self.currency.exponent;
        let rd = self.amount.round_dp_with_strategy(
            exp,
            RoundingStrategy::MidpointAwayFromZero,
        );
        let negative = rd.mantissa < 0;
        let mag: u128 = if rd.mantissa >= 0 {
            rd.mantissa as u128
        } else {
            (-rd.mantissa) as u128
        };
        let padded = scaled_digit_chars(mag, rd.scale, exp);
        let cut = padded.len() - (exp as usize);
        let intp = subvec(&padded, 0, cut);
        let frac = subvec(&padded, cut, padded.len());
        proof {
            assert(intp@ =~= padded@.take(cut as int));
            assert(frac@ =~= padded@.skip(cut as int));
        }
        let grouped = match self.currency.locale {
            crate::locale::Locale::EnIn => group_indian_chars(intp),
            crate::locale::Locale::EnEu => group_every_chars(intp, '.', 3),
            crate::locale::Locale::EnBy => group_every_chars(intp, ' ', 3),
            crate::locale::Locale::EnUs => group_every_chars(intp, ',', 3),
        };
        let mut amt = grouped;
        if exp > 0 {
            amt.push(self.currency.locale.exponent_separator());
            extend_chars(&mut amt, &frac);
        }
        let mut out: Vec<char> = Vec::new();
        if negative {
            out.push('-');
        }
        let sym = str_to_chars(self.currency.symbol);
        if self.currency.symbol_first {
            extend_chars(&mut out, &sym);
            extend_chars(&mut out, &amt);
        } else {
            extend_chars(&mut out, &amt);
            extend_chars(&mut out, &sym);
        }
        proof {
            assert(out@ =~= self.spec_display_chars());
        }
        chars_to_string(&out)
    }
}

/// Renders an amount string with a thousands separator every three
/// digits and the given decimal separator before any fraction.
pub fn format_with_separators(amount_str: &str, thousands_sep: char, decimal_sep: char) -> (r:
    String)
    ensures
        r@ == spec_with_separators(amount_str@, thousands_sep, decimal_sep),
{
    let chars = str_to_chars(amount_str);
    let (int_part, frac) = split_amount(&chars);
    let mut out = group_every_chars(int_part, thousands_sep, 3);
    if frac.len() > 0 {
        out.push(decimal_sep);
        extend_chars(&mut out, &frac);
    }
    chars_to_string(&out)
}

/// Renders an amount string with Indian-style grouping: a group of
/// three, then groups of two.
pub fn format_indian_style(amount_str: &str) -> (r: String)
    ensures
        r@ == spec_indian_style(amount_str@),
{
    let chars = str_to_chars(amount_str);
    let (int_part, frac) = split_amount(&chars);
    let mut out: Vec<char>;
    if int_part.len() <= 3 {
        out = int_part;
    } else {
        let cut = int_part.len() - 3;
        let head = subvec(&int_part, 0, cut);
        let tail = subvec(&int_part, cut, int_part.len());
        proof {
            assert(head@ =~= int_part@.take(cut as int));
            assert(tail@ =~= int_part@.skip(cut as int));
        }
        out = group_every_chars(head, ',', 2);
        out.push(',');
        extend_chars(&mut out, &tail);
        proof {
            assert(out@ =~= spec_group_indian(int_part@));
        }
    }
    if frac.len() > 0 {
        out.push('.');
        extend_chars(&mut out, &frac);
    }
    chars_to_string(&out)
}

/// Stripping distributes over concatenation.
proof fn lemma_strip_minus_append(a: Seq<char>, b: Seq<char>)
    ensures
        spec_strip_minus(a + b) == spec_strip_minus(a) + spec_strip_minus(b),
    decreases b.len(),
{
    if b.len() == 0 {
        assert(a + b =~= a);
        assert(spec_strip_minus(a) + spec_strip_minus(b) =~= spec_strip_minus(a));
    } else {
        lemma_strip_minus_append(a, b.drop_last());
        assert((a + b).drop_last() =~= a + b.drop_last());
        assert((a + b).last() == b.last());
    }
}

/// A string without minus signs is unchanged by stripping.
proof fn lemma_strip_minus_id(t: Seq<char>)
    requires
        forall|i: int| 0 <= i < t.len() ==> t[i] != '-',
    ensures
        spec_strip_minus(t) == t,
    decreases t.len(),
{
    if t.len() > 0 {
        lemma_strip_minus_id(t.drop_last());
        assert(spec_strip_minus(t.drop_last()).push(t.last()) =~= t);
    }
}

/// The pieces of a rendered decimal, as the amount formatter sees them:
/// the sign-stripped integer part is the padded digit block before the
/// point, the fraction is the block after it, and every character is a
/// digit, a minus sign or a point.
proof fn lemma_dec_chars_parts(m: int, sc: nat)
    requires
        sc <= crate::decimal::MAX_SCALE,
    ensures
        ({
            let dec = spec_dec_chars(m, sc);
            let mag = vstd::math::abs(m);
            let padded = crate::text::spec_padded_digits(mag, sc);
            let cut = padded.len() - sc;
            &&& (sc == 0 ==> spec_strip_minus(spec_int_part(dec)) == padded && spec_frac_part(
                dec,
            ) is None)
            &&& (sc > 0 ==> spec_strip_minus(spec_int_part(dec)) == padded.take(cut as int)
                && spec_frac_part(dec) == Some(padded.skip(cut as int)))
            &&& (forall|i: int|
                0 <= i < dec.len() ==> crate::text::spec_digit(#[trigger] dec[i]) is Some
                    || dec[i] == '-' || dec[i] == '.')
            &&& dec.len() >= 1
        }),
{
    let dec = spec_dec_chars(m, sc);
    let mag = vstd::math::abs(m);
    let padded = crate::text::spec_padded_digits(mag, sc);
    let cut = padded.len() - sc;
    crate::text::lemma_padded_facts(mag, sc);
    let inner: Seq<char> = if sc > 0 {
        padded.take(cut as int) + seq!['.'] + padded.skip(cut as int)
    } else {
        padded
    };
    let sign: Seq<char> = if m < 0 {
        seq!['-']
    } else {
        Seq::empty()
    };
    assert(dec =~= sign + inner);
    assert(crate::text::spec_digit('-') is None);
    assert(crate::text::spec_digit('.') is None);
    // Classification of every character.
    assert forall|i: int|
        0 <= i < dec.len() implies crate::text::spec_digit(#[trigger] dec[i]) is Some || dec[i]
        == '-' || dec[i] == '.' by {
        let j = i - sign.len();
        if i < sign.len() {
        } else if sc > 0 {
            if j < cut {
                assert(dec[i] == padded[j]);
            } else if j == cut {
                assert(dec[i] == '.');
            } else {
                assert(dec[i] == padded[j - 1]);
            }
        } else {
            assert(dec[i] == padded[j]);
        }
    }
    if sc == 0 {
        assert forall|j: int| 0 <= j < dec.len() implies dec[j] != '.' by {
            if j >= sign.len() {
                assert(crate::text::spec_digit(padded[j - sign.len()]) is Some);
            }
        }
        crate::text::lemma_first_dot_none(dec);
        assert(spec_int_part(dec) == dec);
        lemma_strip_minus_append(sign, padded);
        assert(spec_strip_minus(Seq::<char>::empty()) =~= Seq::<char>::empty());
        assert(spec_strip_minus(sign) =~= Seq::<char>::empty()) by {
            if m < 0 {
                assert(sign.last() == '-');
                assert(sign.drop_last() =~= Seq::<char>::empty());
            }
        }
        lemma_strip_minus_id(padded);
        assert(spec_strip_minus(dec) =~= padded);
    } else {
        let dotpos = sign.len() + cut;
        assert(dec[dotpos as int] == '.');
        assert forall|j: int| 0 <= j < dotpos implies dec[j] != '.' by {
            if j >= sign.len() {
                assert(dec[j] == padded[j - sign.len()]);
                assert(crate::text::spec_digit(padded[j - sign.len()]) is Some);
            }
        }
        crate::text::lemma_first_dot_at(dec, dotpos as int);
        assert(spec_int_part(dec) =~= sign + padded.take(cut as int));
        assert(spec_frac_part(dec) == Some(dec.skip(dotpos as int + 1)));
        assert(dec.skip(dotpos as int + 1) =~= padded.skip(cut as int));
        lemma_strip_minus_append(sign, padded.take(cut as int));
        assert(spec_strip_minus(Seq::<char>::empty()) =~= Seq::<char>::empty());
        assert(spec_strip_minus(sign) =~= Seq::<char>::empty()) by {
            if m < 0 {
                assert(sign.last() == '-');
                assert(sign.drop_last() =~= Seq::<char>::empty());
            }
        }
        lemma_strip_minus_id(padded.take(cut as int));
        assert(spec_strip_minus(sign + padded.take(cut as int)) =~= padded.take(cut as int));
    }
}

/// A whitespace-free non-empty string is one whole token.
proof fn lemma_split_single(a: Seq<char>)
    requires
        a.len() >= 1,
        forall|i: int| 0 <= i < a.len() ==> !crate::money::spec_is_ws(#[trigger] a[i]),
    ensures
        crate::money::spec_split_ws(a) == seq![a],
    decreases a.len(),
{
    if a.len() == 1 {
        assert(crate::money::spec_split_ws(a.drop_last()) =~= Seq::<Seq<char>>::empty());
        assert(crate::money::spec_split_ws(a) =~= seq![a]) by {
            assert(seq![a.last()] =~= a);
        }
    } else {
        lemma_split_single(a.drop_last());
        assert(!crate::money::spec_is_ws(a[a.len() - 2]));
        let r = crate::money::spec_split_ws(a.drop_last());
        assert(r == seq![a.drop_last()]);
        assert(r.update(0, a.drop_last().push(a.last())) =~= seq![a]) by {
            assert(a.drop_last().push(a.last()) =~= a);
        }
    }
}

/// Two whitespace-free tokens around one space split into exactly those
/// tokens.
proof fn lemma_split_two_tokens(a: Seq<char>, b: Seq<char>)
    requires
        a.len() >= 1,
        b.len() >= 1,
        forall|i: int| 0 <= i < a.len() ==> !crate::money::spec_is_ws(#[trigger] a[i]),
        forall|i: int| 0 <= i < b.len() ==> !crate::money::spec_is_ws(#[trigger] b[i]),
    ensures
        crate::money::spec_split_ws(a + seq![' '] + b) == seq![a, b],
    decreases b.len(),
{
    let s = a + seq![' '] + b;
    assert(s.last() == b.last());
    assert(!crate::money::spec_is_ws(b.last()));
    if b.len() == 1 {
        assert(s.drop_last() =~= a + seq![' ']);
        assert((a + seq![' ']).last() == ' ');
        assert((a + seq![' ']).drop_last() =~= a);
        lemma_split_single(a);
        assert(crate::money::spec_split_ws(a + seq![' ']) == seq![a]);
        assert(s[s.len() - 2] == ' ');
        assert(crate::money::spec_is_ws(' '));
        assert(crate::money::spec_split_ws(s) =~= seq![a].push(seq![b.last()]));
        assert(seq![b.last()] =~= b);
        assert(seq![a].push(b) =~= seq![a, b]);
    } else {
        lemma_split_two_tokens(a, b.drop_last());
        assert(s.drop_last() =~= a + seq![' '] + b.drop_last());
        assert(s[s.len() - 2] == b[b.len() - 2]);
        assert(!crate::money::spec_is_ws(b[b.len() - 2]));
        let r = crate::money::spec_split_ws(s.drop_last());
        assert(r == seq![a, b.drop_last()]);
        assert(r.update(1, b.drop_last().push(b.last())) =~= seq![a, b]) by {
            assert(b.drop_last().push(b.last()) =~= b);
        }
    }
}

/// Formatting with the canonical parameters — no grouping, a point
/// before the fraction, and the order sign, amount, space, code —
/// yields text that parses back to the same value: the round trip
/// behind `parse(format(v)) == v`.
pub proof fn lemma_format_parse_roundtrip(v: Money, p: Params)
    requires
        v.wf(),
        p.separator_pattern@.len() == 0,
        p.exponent_separator == '.',
        p.rounding is None,
        p.positions@ == seq![
            Position::Sign,
            Position::Amount,
            Position::Space,
            Position::Code,
        ],
        p.code matches Some(c) && c@ == v.currency.code@,
        v.currency.code@.len() >= 1,
        forall|i: int|
            0 <= i < v.currency.code@.len() ==> !crate::money::spec_is_ws(
                #[trigger] v.currency.code@[i],
            ),
        crate::currency::is_known_currency_code(v.currency.code@),
    ensures
        ({
            let toks = crate::money::spec_split_ws(spec_format_money(v, p));
            &&& toks.len() == 2
            &&& crate::money::spec_amount_chars_ok(toks[0])
            &&& crate::text::spec_parse_decimal(toks[0]) == Some(v.amount)
            &&& toks[1] == v.currency.code@
        }),
{
    let d = v.amount;
    let dec = spec_dec_chars(d.mantissa as int, d.scale as nat);
    let mag = vstd::math::abs(d.mantissa as int);
    let padded = crate::text::spec_padded_digits(mag, d.scale as nat);
    let cut = padded.len() - d.scale;
    lemma_dec_chars_parts(d.mantissa as int, d.scale as nat);
    assert(spec_formatted_decimal(v, p) == d);
    // With no grouping pattern the amount text is the decimal body.
    let stripped = spec_strip_minus(spec_int_part(dec));
    assert(spec_group_digits(stripped, p.digit_separator, p.separator_pattern@) == stripped);
    let amount = spec_format_amount(dec, p);
    let body: Seq<char> = if d.scale > 0 {
        padded.take(cut as int) + seq!['.'] + padded.skip(cut as int)
    } else {
        padded
    };
    assert(amount =~= body);
    // The sign position reproduces the rendering's sign.
    crate::decimal::lemma_units_sign(d);
    let sign: Seq<char> = if d.mantissa < 0 {
        seq!['-']
    } else {
        Seq::empty()
    };
    let code = v.currency.code@;
    let s = spec_format_money(v, p);
    assert(s =~= sign + amount + seq![' '] + code) by {
        let ps = p.positions@;
        let negb = v.amount.units() < 0;
        let sym = spec_opt_text(p.symbol);
        let cd = spec_opt_text(p.code);
        assert(cd == code);
        let p0: Seq<Position> = Seq::empty();
        let p1 = seq![Position::Sign];
        let p2 = seq![Position::Sign, Position::Amount];
        let p3 = seq![Position::Sign, Position::Amount, Position::Space];
        assert(ps.drop_last() =~= p3);
        assert(p3.drop_last() =~= p2);
        assert(p2.drop_last() =~= p1);
        assert(p1.drop_last() =~= p0);
        assert(spec_positions_render(p0, amount, negb, sym, cd) =~= Seq::<char>::empty());
        assert(spec_positions_render(p1, amount, negb, sym, cd) =~= sign) by {
            assert(p1.last() == Position::Sign);
        }
        assert(spec_positions_render(p2, amount, negb, sym, cd) =~= sign + amount) by {
            assert(p2.last() == Position::Amount);
        }
        assert(spec_positions_render(p3, amount, negb, sym, cd) =~= sign + amount + seq![' '])
            by {
            assert(p3.last() == Position::Space);
        }
        assert(spec_positions_render(ps, amount, negb, sym, cd) =~= sign + amount + seq![' ']
            + code) by {
            assert(ps.last() == Position::Code);
        }
    }
    assert(sign + amount =~= dec);
    assert(s =~= dec + seq![' '] + code);
    // The rendering is whitespace-free, so the string splits into the
    // amount text and the code.
    assert forall|i: int|
        0 <= i < dec.len() implies !crate::money::spec_is_ws(#[trigger] dec[i]) by {
        assert(crate::text::spec_digit(dec[i]) is Some || dec[i] == '-' || dec[i] == '.');
        if crate::text::spec_digit(dec[i]) is Some {
            assert(crate::text::spec_digit(' ') is None);
            assert(crate::text::spec_digit('\t') is None);
            assert(crate::text::spec_digit('\n') is None);
            assert(crate::text::spec_digit('\r') is None);
        }
    }
    lemma_split_two_tokens(dec, code);
    let toks = crate::money::spec_split_ws(s);
    assert(toks == seq![dec, code]);
    assert(toks[0] == dec && toks[1] == code);
    // Every rendered character may appear in an amount.
    assert forall|i: int|
        0 <= i < dec.len() implies crate::money::spec_amount_char(#[trigger] dec[i]) by {
        assert(crate::text::spec_digit(dec[i]) is Some || dec[i] == '-' || dec[i] == '.');
    }
    // The rendered amount parses back to the same decimal.
    crate::text::lemma_render_parse_roundtrip(d);
}

/// A pattern's sum splits at any point into the prefix and suffix sums.
proof fn lemma_pattern_sum_split(pattern: Seq<usize>, i: int)
    requires
        0 <= i <= pattern.len(),
    ensures
        spec_pattern_sum(pattern) == spec_pattern_sum(pattern.take(i)) + spec_pattern_sum(
            pattern.skip(i),
        ),
    decreases i,
{
    if i == 0 {
        assert(pattern.take(0) =~= Seq::<usize>::empty());
        assert(pattern.skip(0) =~= pattern);
    } else {
        lemma_pattern_sum_split(pattern, i - 1);
        lemma_pattern_sum_skip_step(pattern, i - 1);
        assert(pattern.take(i).drop_last() =~= pattern.take(i - 1));
        assert(pattern.take(i).last() == pattern[i - 1]);
    }
}

/// A pattern's partial sums never exceed the whole.
proof fn lemma_pattern_sum_skip_bounds(pattern: Seq<usize>, i: int)
    requires
        0 <= i <= pattern.len(),
    ensures
        0 <= spec_pattern_sum(pattern.skip(i)) <= spec_pattern_sum(pattern),
{
    lemma_pattern_sum_split(pattern, i);
    lemma_pattern_sum_nonneg(pattern.skip(i));
    lemma_pattern_sum_nonneg(pattern.take(i));
}

/// Pattern sums are non-negative.
proof fn lemma_pattern_sum_nonneg(pattern: Seq<usize>)
    ensures
        spec_pattern_sum(pattern) >= 0,
    decreases pattern.len(),
{
    if pattern.len() > 0 {
        lemma_pattern_sum_nonneg(pattern.drop_last());
    }
}

/// One step of a pattern-suffix sum.
proof fn lemma_pattern_sum_skip_step(pattern: Seq<usize>, i: int)
    requires
        0 <= i < pattern.len(),
    ensures
        spec_pattern_sum(pattern.skip(i)) == pattern[i] + spec_pattern_sum(pattern.skip(i + 1)),
    decreases pattern.len() - i,
{
    lemma_pattern_head_sum(pattern.skip(i));
    assert(pattern.skip(i).skip(1) =~= pattern.skip(i + 1));
    assert(pattern.skip(i)[0] == pattern[i]);
}

/// A non-empty pattern's sum is its head plus the rest.
proof fn lemma_pattern_head_sum(pattern: Seq<usize>)
    requires
        pattern.len() >= 1,
    ensures
        spec_pattern_sum(pattern) == pattern[0] + spec_pattern_sum(pattern.skip(1)),
    decreases pattern.len(),
{
    if pattern.len() == 1 {
        assert(pattern.drop_last() =~= Seq::<usize>::empty());
        assert(pattern.skip(1) =~= Seq::<usize>::empty());
    } else {
        lemma_pattern_head_sum(pattern.drop_last());
        assert(pattern.drop_last().skip(1) =~= pattern.skip(1).drop_last());
        assert(pattern.drop_last()[0] == pattern[0]);
        assert(pattern.skip(1).last() == pattern.last());
    }
}

} // verus!
