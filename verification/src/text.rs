//! Decimal text: rendering a [`Decimal`] as characters and parsing it
//! back, plus the character-level string helpers the rest of the crate
//! builds on.
//!
//! The rendering spec [`spec_dec_chars`] and the parsing spec
//! [`spec_parse_decimal`] are exact: rendering always parses back to the
//! same decimal (see [`lemma_render_parse_roundtrip`]).

use vstd::prelude::*;
use crate::decimal::{
    Decimal, MANTISSA_LIMIT, MAX_SCALE, pow10, lemma_pow10_zero, lemma_pow10_unfold,
    lemma_pow10_positive,
};

verus! {

/// The digit value of a character, if it is an ASCII digit.
pub open spec fn spec_digit(c: char) -> Option<int> {
    if c == '0' {
        Some(0int)
    } else if c == '1' {
        Some(1int)
    } else if c == '2' {
        Some(2int)
    } else if c == '3' {
        Some(3int)
    } else if c == '4' {
        Some(4int)
    } else if c == '5' {
        Some(5int)
    } else if c == '6' {
        Some(6int)
    } else if c == '7' {
        Some(7int)
    } else if c == '8' {
        Some(8int)
    } else if c == '9' {
        Some(9int)
    } else {
        None
    }
}

/// The character for a digit value below ten.
pub open spec fn spec_digit_char(d: int) -> char {
    if d == 0 {
        '0'
    } else if d == 1 {
        '1'
    } else if d == 2 {
        '2'
    } else if d == 3 {
        '3'
    } else if d == 4 {
        '4'
    } else if d == 5 {
        '5'
    } else if d == 6 {
        '6'
    } else if d == 7 {
        '7'
    } else if d == 8 {
        '8'
    } else {
        '9'
    }
}

/// Every character of the sequence is an ASCII digit.
pub open spec fn all_digits(t: Seq<char>) -> bool {
    forall|i: int| 0 <= i < t.len() ==> (#[trigger] spec_digit(t[i])) is Some
}

/// The number denoted by a sequence of digits, most significant first.
pub open spec fn digits_val(t: Seq<char>) -> int
    decreases t.len(),
{
    if t.len() == 0 {
        0
    } else {
        digits_val(t.drop_last()) * 10 + match spec_digit(t.last()) {
            Some(d) => d,
            None => 0,
        }
    }
}

/// The decimal digits of `n`, most significant first, no leading zeros.
pub open spec fn spec_digits(n: nat) -> Seq<char>
    decreases n,
{
    if n < 10 {
        seq![spec_digit_char(n as int)]
    } else {
        spec_digits(n / 10).push(spec_digit_char(n as int % 10))
    }
}

/// `k` zero characters.
pub open spec fn spec_zeros(k: nat) -> Seq<char> {
    Seq::new(k, |i: int| '0')
}

/// The digit string of `n` padded with leading zeros to at least
/// `scale + 1` characters.
pub open spec fn spec_padded_digits(n: nat, scale: nat) -> Seq<char> {
    let digs = spec_digits(n);
    if digs.len() >= scale + 1 {
        digs
    } else {
        spec_zeros((scale + 1 - digs.len()) as nat) + digs
    }
}

/// The canonical character rendering of `mantissa / 10^scale`: optional
/// minus sign, integer digits, and exactly `scale` fractional digits
/// after a point when `scale > 0`.
pub open spec fn spec_dec_chars(mantissa: int, scale: nat) -> Seq<char> {
    let mag = vstd::math::abs(mantissa);
    let padded = spec_padded_digits(mag, scale);
    let cut = padded.len() - scale;
    let body = if scale > 0 {
        padded.take(cut as int) + seq!['.'] + padded.skip(cut as int)
    } else {
        padded
    };
    if mantissa < 0 {
        seq!['-'] + body
    } else {
        body
    }
}

/// The index of the first `'.'`, or `-1` if there is none.
pub open spec fn first_dot(t: Seq<char>) -> int
    decreases t.len(),
{
    if t.len() == 0 {
        -1
    } else if t[0] == '.' {
        0
    } else {
        let r = first_dot(t.skip(1));
        if r == -1 {
            -1
        } else {
            r + 1
        }
    }
}

/// A well-formed unsigned decimal body: digits with at most one point,
/// at least one digit on each side of it.
pub open spec fn valid_dec_body(t: Seq<char>) -> bool {
    let i = first_dot(t);
    if i == -1 {
        t.len() >= 1 && all_digits(t)
    } else {
        &&& i >= 1
        &&& i + 1 < t.len()
        &&& all_digits(t.take(i))
        &&& all_digits(t.skip(i + 1))
    }
}

/// The digits of a body with its point removed.
pub open spec fn body_digits(t: Seq<char>) -> Seq<char> {
    let i = first_dot(t);
    if i == -1 {
        t
    } else {
        t.take(i) + t.skip(i + 1)
    }
}

/// The scale a body denotes: its count of fractional digits.
pub open spec fn body_scale(t: Seq<char>) -> int {
    let i = first_dot(t);
    if i == -1 {
        0
    } else {
        t.len() - i - 1
    }
}

/// The body of a decimal string, after any sign.
pub open spec fn spec_dec_body(s: Seq<char>) -> Seq<char> {
    if s.len() > 0 && (s[0] == '-' || s[0] == '+') {
        s.skip(1)
    } else {
        s
    }
}

/// Whether the string carries a minus sign.
pub open spec fn spec_dec_negative(s: Seq<char>) -> bool {
    s.len() > 0 && s[0] == '-'
}

/// The decimal grammar: an optional sign, then a valid body.
pub open spec fn spec_dec_grammar_ok(s: Seq<char>) -> bool {
    valid_dec_body(spec_dec_body(s))
}

/// What a decimal string parses to, when the grammar holds and the
/// value fits the representation.
pub open spec fn spec_parse_decimal(s: Seq<char>) -> Option<Decimal> {
    if spec_dec_grammar_ok(s) {
        let body = spec_dec_body(s);
        let mag = digits_val(body_digits(body));
        let sc = body_scale(body);
        if sc <= MAX_SCALE && mag <= MANTISSA_LIMIT {
            Some(
                Decimal {
                    mantissa: if spec_dec_negative(s) {
                        (-mag) as i128
                    } else {
                        mag as i128
                    },
                    scale: sc as u32,
                },
            )
        } else {
            None
        }
    } else {
        None
    }
}

/// Why a decimal string was rejected.
#[derive(Debug, Clone, Copy, PartialEq, Eq, Structural)]
pub enum DecimalError {
    /// The text does not match the decimal grammar.
    InvalidFormat,
    /// More fractional digits than the representation carries.
    ScaleTooLarge,
    /// A magnitude beyond the mantissa limit.
    Overflow,
}

/// The digit value of a character, executable form.
pub fn digit_of_pub(c: char) -> (r: Option<u8>)
    ensures
        match r {
            Some(d) => spec_digit(c) == Some(d as int) && d < 10,
            None => spec_digit(c) is None,
        },
{
    digit_of(c)
}

/// The digit value of a character, executable form.
fn digit_of(c: char) -> (r: Option<u8>)
    ensures
        match r {
            Some(d) => spec_digit(c) == Some(d as int) && d < 10,
            None => spec_digit(c) is None,
        },
{
    if c == '0' {
        Some(0)
    } else if c == '1' {
        Some(1)
    } else if c == '2' {
        Some(2)
    } else if c == '3' {
        Some(3)
    } else if c == '4' {
        Some(4)
    } else if c == '5' {
        Some(5)
    } else if c == '6' {
        Some(6)
    } else if c == '7' {
        Some(7)
    } else if c == '8' {
        Some(8)
    } else if c == '9' {
        Some(9)
    } else {
        None
    }
}

/// The character of a digit value, executable form.
fn char_of_digit(d: u128) -> (r: char)
    requires
        d < 10,
    ensures
        r == spec_digit_char(d as int),
{
    if d == 0 {
        '0'
    } else if d == 1 {
        '1'
    } else if d == 2 {
        '2'
    } else if d == 3 {
        '3'
    } else if d == 4 {
        '4'
    } else if d == 5 {
        '5'
    } else if d == 6 {
        '6'
    } else if d == 7 {
        '7'
    } else if d == 8 {
        '8'
    } else {
        '9'
    }
}

/// Appending one digit multiplies the value by ten and adds it.
proof fn lemma_digits_val_push(t: Seq<char>, c: char)
    ensures
        digits_val(t.push(c)) == digits_val(t) * 10 + match spec_digit(c) {
            Some(d) => d,
            None => 0,
        },
{
    assert(t.push(c).drop_last() =~= t);
    assert(t.push(c).last() == c);
}

/// The value of concatenated digit strings.
proof fn lemma_digits_val_append(t: Seq<char>, u: Seq<char>)
    ensures
        digits_val(t + u) == digits_val(t) * pow10(u.len()) + digits_val(u),
    decreases u.len(),
{
    if u.len() == 0 {
        assert(t + u =~= t);
        lemma_pow10_zero();
    } else {
        let u0 = u.drop_last();
        lemma_digits_val_append(t, u0);
        assert((t + u).drop_last() =~= t + u0);
        lemma_pow10_unfold(u.len());
        let dv = match spec_digit(u.last()) {
            Some(d) => d,
            None => 0int,
        };
        assert((t + u).last() == u.last());
        assert(digits_val(t + u) == digits_val(t + u0) * 10 + dv);
        assert((digits_val(t) * pow10(u0.len()) + digits_val(u0)) * 10 == digits_val(t) * (10
            * pow10(u0.len())) + digits_val(u0) * 10) by (nonlinear_arith);
    }
}

/// Digit strings denote non-negative values.
proof fn lemma_digits_val_nonneg(t: Seq<char>)
    ensures
        digits_val(t) >= 0,
    decreases t.len(),
{
    if t.len() > 0 {
        lemma_digits_val_nonneg(t.drop_last());
        let dv = match spec_digit(t.last()) {
            Some(d) => d,
            None => 0int,
        };
        assert(dv >= 0);
        assert(digits_val(t.drop_last()) * 10 >= 0) by (nonlinear_arith)
            requires
                digits_val(t.drop_last()) >= 0,
        ;
    }
}

/// The digit string of `n` denotes `n`, consists of digits, and is
/// non-empty.
proof fn lemma_spec_digits_correct(n: nat)
    ensures
        digits_val(spec_digits(n)) == n,
        all_digits(spec_digits(n)),
        spec_digits(n).len() >= 1,
    decreases n,
{
    if n < 10 {
        let t = spec_digits(n);
        assert(t.len() == 1);
        assert(t.drop_last() =~= Seq::<char>::empty());
        assert(digits_val(Seq::<char>::empty()) == 0);
        assert(t.last() == spec_digit_char(n as int));
        assert(t[0] == spec_digit_char(n as int));
        assert(spec_digit(spec_digit_char(n as int)) == Some(n as int));
        assert(forall|i: int| 0 <= i < t.len() ==> (#[trigger] spec_digit(t[i])) is Some);
    } else {
        lemma_spec_digits_correct(n / 10);
        lemma_digits_val_push(spec_digits(n / 10), spec_digit_char(n as int % 10));
        vstd::arithmetic::div_mod::lemma_fundamental_div_mod(n as int, 10);
        assert(spec_digit(spec_digit_char(n as int % 10)) == Some(n as int % 10));
        let t = spec_digits(n);
        assert(t =~= spec_digits(n / 10).push(spec_digit_char(n as int % 10)));
        assert(forall|i: int| 0 <= i < t.len() ==> (#[trigger] spec_digit(t[i])) is Some) by {
            assert(forall|i: int|
                0 <= i < t.len() - 1 ==> t[i] == #[trigger] spec_digits(n / 10)[i]);
            assert(t[t.len() - 1] == spec_digit_char(n as int % 10));
            assert(spec_digit(spec_digit_char(n as int % 10)) == Some(n as int % 10));
        }
    }
}

/// Builds the digit characters of `n`, most significant first.
pub(crate) fn digit_chars(n: u128) -> (v: Vec<char>)
    ensures
        v@ == spec_digits(n as nat),
        v@.len() >= 1,
{
    let mut v: Vec<char> = Vec::new();
    let mut cur: u128 = n;
    let d0 = cur % 10;
    v.insert(0, char_of_digit(d0));
    cur = cur / 10;
    proof {
        if n < 10 {
            assert(n % 10 == n as nat);
            assert(v@ =~= spec_digits(n as nat));
        } else {
            assert(spec_digits(n as nat) == spec_digits((n as nat) / 10).push(
                spec_digit_char(n as int % 10),
            ));
            assert(spec_digits(n as nat) =~= spec_digits(cur as nat) + v@);
        }
    }
    while cur != 0
        invariant
            cur == 0 ==> v@ == spec_digits(n as nat),
            cur > 0 ==> spec_digits(n as nat) == spec_digits(cur as nat) + v@,
            v@.len() >= 1,
        decreases cur,
    {
        let d = cur % 10;
        let next = cur / 10;
        proof {
            if next == 0 {
                assert(cur < 10);
                assert(spec_digits(cur as nat) =~= seq![spec_digit_char(cur as int)]);
                assert(cur % 10 == cur as nat);
                assert(spec_digits(n as nat) =~= spec_digits(cur as nat) + v@);
                assert((seq![spec_digit_char(d as int)] + v@) =~= spec_digits(cur as nat) + v@);
            } else {
                assert(spec_digits(cur as nat) == spec_digits((cur as nat) / 10).push(
                    spec_digit_char(cur as int % 10),
                ));
                assert(spec_digits((cur as nat) / 10).push(spec_digit_char(cur as int % 10)) + v@
                    =~= spec_digits(next as nat) + (seq![spec_digit_char(d as int)] + v@));
            }
        }
        v.insert(0, char_of_digit(d));
        cur = next;
    }
    proof {
        lemma_spec_digits_correct(n as nat);
    }
    v
}

/// `first_dot` yields `-1` or a valid index.
pub proof fn lemma_first_dot_bounds(t: Seq<char>)
    ensures
        -1 <= first_dot(t) < t.len(),
        first_dot(t) >= 0 ==> t[first_dot(t)] == '.',
    decreases t.len(),
{
    if t.len() > 0 && t[0] != '.' {
        lemma_first_dot_bounds(t.skip(1));
    }
}

/// A sequence without dots up to `k` has its first dot, if any, at `k`
/// or beyond.
pub proof fn lemma_first_dot_lower(t: Seq<char>, k: int)
    requires
        0 <= k <= t.len(),
        forall|j: int| 0 <= j < k ==> t[j] != '.',
    ensures
        first_dot(t) == -1 || first_dot(t) >= k,
    decreases t.len(),
{
    lemma_first_dot_bounds(t);
    if t.len() > 0 && k > 0 {
        assert(t[0] != '.');
        assert(forall|j: int| 0 <= j < k - 1 ==> t.skip(1)[j] != '.');
        lemma_first_dot_lower(t.skip(1), k - 1);
        lemma_first_dot_bounds(t.skip(1));
    }
}

/// A dot at `p` with no dot before it is the first dot.
pub proof fn lemma_first_dot_at(t: Seq<char>, p: int)
    requires
        0 <= p < t.len(),
        t[p] == '.',
        forall|j: int| 0 <= j < p ==> t[j] != '.',
    ensures
        first_dot(t) == p,
    decreases t.len(),
{
    if p == 0 {
    } else {
        assert(t[0] != '.');
        assert(forall|j: int| 0 <= j < p - 1 ==> t.skip(1)[j] != '.');
        assert(t.skip(1)[p - 1] == '.');
        lemma_first_dot_at(t.skip(1), p - 1);
    }
}

/// A sequence with no dot at all has none.
pub proof fn lemma_first_dot_none(t: Seq<char>)
    requires
        forall|j: int| 0 <= j < t.len() ==> t[j] != '.',
    ensures
        first_dot(t) == -1,
    decreases t.len(),
{
    if t.len() > 0 {
        assert(t[0] != '.');
        assert(forall|j: int| 0 <= j < t.skip(1).len() ==> t.skip(1)[j] != '.');
        lemma_first_dot_none(t.skip(1));
    }
}

impl Decimal {
    /// Parses an optional sign followed by digits with at most one
    /// point: the inverse of [`Decimal::to_chars`] on canonical text.
    pub fn parse_chars(v: &Vec<char>) -> (r: Result<Decimal, DecimalError>)
        ensures
            match r {
                Ok(d) => spec_parse_decimal(v@) == Some(d) && d.wf(),
                Err(e) => spec_parse_decimal(v@) is None && (e == DecimalError::InvalidFormat
                    <==> !spec_dec_grammar_ok(v@)),
            },
    {
        let len = v.len();
        let mut start: usize = 0;
        let mut neg = false;
        if len > 0 && (v[0] == '-' || v[0] == '+') {
            neg = v[0] == '-';
            start = 1;
        }
        let ghost body = v@.skip(start as int);
        proof {
            assert(body =~= spec_dec_body(v@));
            assert(forall|j: int| 0 <= j < body.len() ==> body[j] == v@[j + start as int]);
        }
        // First pass: the characters must be digits around at most one
        // point.
        let mut dot: usize = 0;
        let mut has_dot = false;
        let mut i = start;
        while i < len
            invariant
                len == v@.len(),
                start <= i <= len,
                start <= 1,
                body == v@.skip(start as int),
                body == spec_dec_body(v@),
                has_dot ==> start <= dot < i && v@[dot as int] == '.',
                has_dot ==> forall|j: int|
                    start <= j < i && j != dot ==> (#[trigger] spec_digit(v@[j])) is Some,
                !has_dot ==> forall|j: int|
                    start <= j < i ==> (#[trigger] spec_digit(v@[j])) is Some,
            decreases len - i,
        {
            let c = v[i];
            if c == '.' {
                if has_dot {
                    proof {
                        lemma_parse_reject_second_dot(v@, start as int, dot as int, i as int);
                    }
                    return Err(DecimalError::InvalidFormat);
                }
                dot = i;
                has_dot = true;
            } else {
                match digit_of(c) {
                    Some(_) => {
                    },
                    None => {
                        proof {
                            if has_dot {
                                lemma_parse_reject_bad_char_after_dot(
                                    v@,
                                    start as int,
                                    dot as int,
                                    i as int,
                                );
                            } else {
                                lemma_parse_reject_bad_char_before_dot(
                                    v@,
                                    start as int,
                                    i as int,
                                );
                            }
                        }
                        return Err(DecimalError::InvalidFormat);
                    },
                }
            }
            i = i + 1;
        }
        proof {
            lemma_digit_is_not_dot(v@);
        }
        if start >= len {
            // Empty body: at most a bare sign.
            proof {
                assert(body.len() == 0);
                assert(first_dot(body) == -1);
            }
            return Err(DecimalError::InvalidFormat);
        }
        let ghost p = dot as int - start as int;
        if has_dot {
            proof {
                assert forall|j: int| 0 <= j < p implies body[j] != '.' by {
                    assert(body[j] == v@[j + start as int]);
                    assert(spec_digit(v@[j + start as int]) is Some);
                }
                lemma_first_dot_at(body, p);
            }
            if dot == start {
                return Err(DecimalError::InvalidFormat);
            }
            if dot == len - 1 {
                return Err(DecimalError::InvalidFormat);
            }
        } else {
            proof {
                assert forall|j: int| 0 <= j < body.len() implies body[j] != '.' by {
                    assert(body[j] == v@[j + start as int]);
                    assert(spec_digit(v@[j + start as int]) is Some);
                }
                lemma_first_dot_none(body);
            }
        }
        proof {
            if has_dot {
                assert forall|j: int|
                    0 <= j < p implies (#[trigger] spec_digit(body.take(p)[j])) is Some by {
                    assert(body.take(p)[j] == v@[j + start as int]);
                }
                assert forall|j: int|
                    0 <= j < body.len() - p - 1 implies (#[trigger] spec_digit(
                        body.skip(p + 1)[j],
                    )) is Some by {
                    assert(body.skip(p + 1)[j] == v@[j + p + 1 + start as int]);
                }
            } else {
                assert forall|j: int|
                    0 <= j < body.len() implies (#[trigger] spec_digit(body[j])) is Some by {
                    assert(body[j] == v@[j + start as int]);
                }
            }
            assert(valid_dec_body(body));
        }
        // Second pass: accumulate the magnitude.
        let mut mant: u128 = 0;
        let mut idx = start;
        proof {
            assert(parsed_digits(v@, start as int, has_dot, dot as int, start as int)
                =~= Seq::<char>::empty());
        }
        while idx < len
            invariant
                len == v@.len(),
                start <= idx <= len,
                start <= 1,
                body == v@.skip(start as int),
                body == spec_dec_body(v@),
                valid_dec_body(body),
                has_dot ==> start <= dot < len && v@[dot as int] == '.' && first_dot(body)
                    == dot - start,
                !has_dot ==> first_dot(body) == -1,
                has_dot ==> dot > start && dot < len - 1,
                has_dot ==> forall|j: int|
                    start <= j < len && j != dot ==> (#[trigger] spec_digit(v@[j])) is Some,
                !has_dot ==> forall|j: int|
                    start <= j < len ==> (#[trigger] spec_digit(v@[j])) is Some,
                mant <= MANTISSA_LIMIT as u128,
                mant == digits_val(parsed_digits(v@, start as int, has_dot, dot as int, idx as int)),
            decreases len - idx,
        {
            let ghost pref = parsed_digits(v@, start as int, has_dot, dot as int, idx as int);
            if has_dot && idx == dot {
                proof {
                    assert(parsed_digits(v@, start as int, has_dot, dot as int, idx as int + 1)
                        =~= pref);
                }
                idx = idx + 1;
                continue ;
            }
            let c = v[idx];
            let d = match digit_of(c) {
                Some(d) => d,
                None => {
                    proof {
                        assert(spec_digit(v@[idx as int]) is Some);
                    }
                    return Err(DecimalError::InvalidFormat);
                },
            };
            let new_mant: u128 = mant * 10 + (d as u128);
            proof {
                lemma_digits_val_push(pref, c);
                assert(parsed_digits(v@, start as int, has_dot, dot as int, idx as int + 1)
                    =~= pref.push(c));
            }
            if new_mant > MANTISSA_LIMIT as u128 {
                proof {
                    lemma_parse_overflow(v@, start as int, has_dot, dot as int, idx as int + 1);
                }
                return Err(DecimalError::Overflow);
            }
            mant = new_mant;
            idx = idx + 1;
        }
        let scale: usize = if has_dot {
            len - dot - 1
        } else {
            0
        };
        proof {
            assert(parsed_digits(v@, start as int, has_dot, dot as int, len as int)
                =~= body_digits(body));
        }
        if scale > MAX_SCALE as usize {
            return Err(DecimalError::ScaleTooLarge);
        }
        let mantissa: i128 = if neg {
            -(mant as i128)
        } else {
            mant as i128
        };
        Ok(Decimal { mantissa, scale: scale as u32 })
    }
}

/// The digits the parser has accumulated after looking at `v[..idx]`.
spec fn parsed_digits(v: Seq<char>, start: int, has_dot: bool, dot: int, idx: int) -> Seq<char> {
    if has_dot && idx > dot {
        v.subrange(start, dot) + v.subrange(dot + 1, idx)
    } else {
        v.subrange(start, idx)
    }
}

/// Digits are never dots.
proof fn lemma_digit_is_not_dot(v: Seq<char>)
    ensures
        forall|j: int|
            0 <= j < v.len() && (#[trigger] spec_digit(v[j])) is Some ==> v[j] != '.',
{
}

/// A second dot breaks the grammar.
proof fn lemma_parse_reject_second_dot(v: Seq<char>, start: int, dot: int, i: int)
    requires
        0 <= start <= 1,
        start <= dot < i < v.len(),
        v[dot] == '.',
        v[i] == '.',
        forall|j: int| start <= j < i && j != dot ==> (#[trigger] spec_digit(v[j])) is Some,
    ensures
        !valid_dec_body(v.skip(start)),
{
    let body = v.skip(start);
    let p = dot - start;
    lemma_digit_is_not_dot(v);
    assert forall|j: int| 0 <= j < p implies body[j] != '.' by {
        assert(body[j] == v[j + start]);
        assert(spec_digit(v[j + start]) is Some);
    }
    lemma_first_dot_at(body, p);
    if valid_dec_body(body) {
        let tail = body.skip(p + 1);
        assert(tail[i - start - p - 1] == body[i - start]);
        assert(body[i - start] == v[i]);
        assert(tail[i - start - p - 1] == '.');
        assert(spec_digit('.') is None);
        assert(!all_digits(tail));
    }
}

/// A character that is neither digit nor dot breaks the grammar when no
/// dot was seen yet.
proof fn lemma_parse_reject_bad_char_before_dot(v: Seq<char>, start: int, i: int)
    requires
        0 <= start <= 1,
        start <= i < v.len(),
        spec_digit(v[i]) is None,
        v[i] != '.',
        forall|j: int| start <= j < i ==> (#[trigger] spec_digit(v[j])) is Some,
    ensures
        !valid_dec_body(v.skip(start)),
{
    let body = v.skip(start);
    let q = first_dot(body);
    lemma_digit_is_not_dot(v);
    assert forall|j: int| 0 <= j < i - start implies body[j] != '.' by {
        assert(body[j] == v[j + start]);
        assert(spec_digit(v[j + start]) is Some);
    }
    assert(body[i - start] == v[i]);
    assert(body[i - start] != '.');
    lemma_first_dot_lower(body, i - start + 1);
    lemma_first_dot_bounds(body);
    if valid_dec_body(body) {
        if q == -1 {
            assert(!all_digits(body)) by {
                assert(spec_digit(body[i - start]) is None);
            }
        } else {
            assert(q >= i - start + 1);
            assert(body.take(q)[i - start] == body[i - start]);
            assert(!all_digits(body.take(q))) by {
                assert(spec_digit(body.take(q)[i - start]) is None);
            }
        }
    }
}

/// A character that is neither digit nor dot breaks the grammar when it
/// stands after the dot.
proof fn lemma_parse_reject_bad_char_after_dot(v: Seq<char>, start: int, dot: int, i: int)
    requires
        0 <= start <= 1,
        start <= dot < i < v.len(),
        v[dot] == '.',
        spec_digit(v[i]) is None,
        v[i] != '.',
        forall|j: int| start <= j < i && j != dot ==> (#[trigger] spec_digit(v[j])) is Some,
    ensures
        !valid_dec_body(v.skip(start)),
{
    let body = v.skip(start);
    let p = dot - start;
    lemma_digit_is_not_dot(v);
    assert forall|j: int| 0 <= j < p implies body[j] != '.' by {
        assert(body[j] == v[j + start]);
        assert(spec_digit(v[j + start]) is Some);
    }
    lemma_first_dot_at(body, p);
    if valid_dec_body(body) {
        let tail = body.skip(p + 1);
        assert(tail[i - start - p - 1] == body[i - start]);
        assert(body[i - start] == v[i]);
        assert(!all_digits(tail)) by {
            assert(spec_digit(tail[i - start - p - 1]) is None);
        }
    }
}

/// A prefix of the digits already beyond the limit keeps the whole
/// magnitude beyond the limit.
proof fn lemma_parse_overflow(v: Seq<char>, start: int, has_dot: bool, dot: int, idx: int)
    requires
        0 <= start <= 1,
        start <= idx <= v.len(),
        has_dot ==> start <= dot < v.len(),
        valid_dec_body(v.skip(start)),
        has_dot ==> first_dot(v.skip(start)) == dot - start,
        !has_dot ==> first_dot(v.skip(start)) == -1,
    ensures
        digits_val(body_digits(v.skip(start))) >= digits_val(
            parsed_digits(v, start, has_dot, dot, idx),
        ),
{
    let body = v.skip(start);
    let pref = parsed_digits(v, start, has_dot, dot, idx);
    let full = body_digits(body);
    let rest: Seq<char> = if has_dot && idx <= dot {
        v.subrange(idx, dot) + v.subrange(dot + 1, v.len() as int)
    } else {
        v.subrange(idx, v.len() as int)
    };
    assert(full =~= pref + rest);
    lemma_digits_val_append(pref, rest);
    lemma_digits_val_nonneg(rest);
    lemma_digits_val_nonneg(pref);
    lemma_pow10_positive(rest.len());
    assert(digits_val(pref) * pow10(rest.len()) >= digits_val(pref)) by (nonlinear_arith)
        requires
            digits_val(pref) >= 0,
            pow10(rest.len()) >= 1,
    ;
}

/// Zero characters are digits of value zero.
proof fn lemma_zeros_val(k: nat)
    ensures
        digits_val(spec_zeros(k)) == 0,
        all_digits(spec_zeros(k)),
    decreases k,
{
    if k > 0 {
        lemma_zeros_val((k - 1) as nat);
        assert(spec_zeros(k).drop_last() =~= spec_zeros((k - 1) as nat));
        assert(spec_zeros(k).last() == '0');
    }
}

/// The padded digit string keeps the value and consists of digits.
pub proof fn lemma_padded_facts(mag: nat, sc: nat)
    ensures
        all_digits(spec_padded_digits(mag, sc)),
        spec_padded_digits(mag, sc).len() >= sc + 1,
        spec_padded_digits(mag, sc).len() >= 1,
        digits_val(spec_padded_digits(mag, sc)) == mag,
{
    lemma_spec_digits_correct(mag);
    let digs = spec_digits(mag);
    let padded = spec_padded_digits(mag, sc);
    if digs.len() >= sc + 1 {
    } else {
        let k = (sc + 1 - digs.len()) as nat;
        lemma_zeros_val(k);
        lemma_digits_val_append(spec_zeros(k), digs);
        assert(0 * pow10(digs.len()) == 0) by (nonlinear_arith);
        assert forall|i: int| 0 <= i < padded.len() implies (#[trigger] spec_digit(
            padded[i],
        )) is Some by {
            if i < k {
                assert(padded[i] == '0');
            } else {
                assert(padded[i] == digs[i - k]);
            }
        }
    }
}

/// Rendering a well-formed decimal and parsing the text back yields the
/// same decimal: the formatting grammar is exactly the parsing grammar.
pub proof fn lemma_render_parse_roundtrip(d: Decimal)
    requires
        d.wf(),
    ensures
        spec_parse_decimal(spec_dec_chars(d.mantissa as int, d.scale as nat)) == Some(d),
{
    let mag = vstd::math::abs(d.mantissa as int);
    let sc = d.scale as nat;
    let padded = spec_padded_digits(mag, sc);
    lemma_padded_facts(mag, sc);
    let cut = padded.len() - sc;
    let s = spec_dec_chars(d.mantissa as int, sc);
    let neg = d.mantissa < 0;
    let inner: Seq<char> = if sc > 0 {
        padded.take(cut as int) + seq!['.'] + padded.skip(cut as int)
    } else {
        padded
    };
    let body = spec_dec_body(s);
    assert(spec_digit('-') is None);
    assert(spec_digit('+') is None);
    assert(spec_digit('.') is None);
    if sc > 0 {
        assert(inner[cut as int] == '.');
        assert(inner[0] == padded[0]);
    } else {
        assert(inner[0] == padded[0]);
    }
    // The body of the rendered string is `inner`.
    if neg {
        assert(s == seq!['-'] + inner);
        assert(s[0] == '-');
        assert(body =~= inner);
        assert(spec_dec_negative(s));
    } else {
        assert(s == inner);
        assert(spec_digit(s[0]) is Some);
        assert(s[0] != '-' && s[0] != '+');
        assert(body =~= inner);
        assert(!spec_dec_negative(s));
    }
    if sc == 0 {
        assert forall|j: int| 0 <= j < inner.len() implies inner[j] != '.' by {
            assert(spec_digit(inner[j]) is Some);
        }
        lemma_first_dot_none(inner);
        assert(valid_dec_body(inner));
        assert(body_digits(inner) == inner);
        assert(body_scale(inner) == 0);
    } else {
        assert forall|j: int| 0 <= j < cut implies inner[j] != '.' by {
            assert(inner[j] == padded[j]);
            assert(spec_digit(padded[j]) is Some);
        }
        lemma_first_dot_at(inner, cut as int);
        assert(cut >= 1);
        assert(cut + 1 < inner.len());
        assert forall|j: int| 0 <= j < cut implies (#[trigger] spec_digit(
            inner.take(cut as int)[j],
        )) is Some by {
            assert(inner.take(cut as int)[j] == padded[j]);
        }
        assert forall|j: int| 0 <= j < inner.len() - cut - 1 implies (#[trigger] spec_digit(
            inner.skip(cut as int + 1)[j],
        )) is Some by {
            assert(inner.skip(cut as int + 1)[j] == padded[cut + j]);
        }
        assert(valid_dec_body(inner));
        assert(body_digits(inner) =~= padded) by {
            assert(inner.take(cut as int) =~= padded.take(cut as int));
            assert(inner.skip(cut as int + 1) =~= padded.skip(cut as int));
            assert(padded.take(cut as int) + padded.skip(cut as int) =~= padded);
        }
        assert(body_scale(inner) == sc);
    }
    assert(digits_val(body_digits(body)) == mag);
    assert(mag <= MANTISSA_LIMIT);
    let parsed = spec_parse_decimal(s);
    assert(parsed is Some);
    assert(parsed.unwrap().scale == d.scale);
    if neg {
        assert(parsed.unwrap().mantissa == (-mag) as i128);
        assert((-mag) as i128 == d.mantissa);
    } else {
        assert(parsed.unwrap().mantissa == mag as i128);
        assert(mag as i128 == d.mantissa);
    }
}

/// Character-for-character string equality, via the vstd-specified
/// `str` accessors.
pub fn str_eq(a: &str, b: &str) -> (r: bool)
    ensures
        r <==> a@ == b@,
{
    let na = a.unicode_len();
    let nb = b.unicode_len();
    if na != nb {
        return false;
    }
    let mut i: usize = 0;
    while i < na
        invariant
            na == a@.len(),
            na == b@.len(),
            i <= na,
            forall|j: int| 0 <= j < i ==> a@[j] == b@[j],
        decreases na - i,
    {
        if a.get_char(i) != b.get_char(i) {
            return false;
        }
        i = i + 1;
    }
    proof {
        assert(a@ =~= b@);
    }
    true
}

/// Digit strings of bounded numbers are short: below `10^k` there are
/// at most `k` digits.
proof fn lemma_digits_len(n: nat, k: nat)
    requires
        k >= 1,
        n < pow10(k),
    ensures
        spec_digits(n).len() <= k,
    decreases n,
{
    if n < 10 {
    } else {
        lemma_pow10_unfold(k);
        assert(k >= 2) by {
            if k == 1 {
                lemma_pow10_zero();
                lemma_pow10_unfold(1nat);
            }
        }
        vstd::arithmetic::div_mod::lemma_fundamental_div_mod(n as int, 10);
        assert(n / 10 < pow10((k - 1) as nat)) by {
            lemma_pow10_unfold(k);
            vstd::arithmetic::div_mod::lemma_multiply_divide_lt(
                n as int,
                10,
                pow10((k - 1) as nat),
            );
        }
        lemma_digits_len(n / 10, (k - 1) as nat);
    }
}

/// A rendered decimal is a short string: at most 70 characters.
pub proof fn lemma_dec_chars_len(mantissa: int, scale: nat)
    requires
        -MANTISSA_LIMIT <= mantissa <= MANTISSA_LIMIT,
        scale <= MAX_SCALE,
    ensures
        spec_dec_chars(mantissa, scale).len() <= 70,
{
    let mag = vstd::math::abs(mantissa);
    assert(mag < pow10(29)) by {
        crate::decimal::lemma_pow10_max_scale_value();
        lemma_pow10_unfold(29);
    }
    lemma_digits_len(mag, 29);
    let digs = spec_digits(mag);
    let padded = spec_padded_digits(mag, scale);
    assert(padded.len() <= 30);
}

/// Relies on `String::from_iter`: collecting characters yields the
/// string of exactly those characters, in order.
#[verifier::external_body]
pub fn chars_to_string(v: &Vec<char>) -> (r: String)
    ensures
        r@ == v@,
{
    v.iter().collect()
}

/// The characters of a string, via the vstd-specified `str` accessors.
pub fn str_to_chars(s: &str) -> (r: Vec<char>)
    ensures
        r@ == s@,
{
    let n = s.unicode_len();
    let mut v: Vec<char> = Vec::new();
    let mut i: usize = 0;
    while i < n
        invariant
            n == s@.len(),
            i <= n,
            v@ =~= s@.take(i as int),
        decreases n - i,
    {
        let c = s.get_char(i);
        proof {
            assert(s@.take(i as int + 1) =~= s@.take(i as int).push(c));
        }
        v.push(c);
        i = i + 1;
    }
    proof {
        assert(s@.take(n as int) =~= s@);
    }
    v
}

impl Decimal {
    /// Renders the decimal canonically: sign, integer digits, and, for a
    /// positive scale, a point followed by exactly `scale` digits.
    pub fn to_chars(&self) -> (v: Vec<char>)
        requires
            self.wf(),
        ensures
            v@ == spec_dec_chars(self.mantissa as int, self.scale as nat),
    {
        let mag: u128 = if self.mantissa >= 0 {
            self.mantissa as u128
        } else {
            (-self.mantissa) as u128
        };
        let mut digs = digit_chars(mag);
        proof {
            lemma_spec_digits_correct(mag as nat);
        }
        let ghost raw = spec_digits(mag as nat);
        // Pad with leading zeros so the point has a digit on each side.
        while digs.len() < (self.scale + 1) as usize
            invariant
                raw == spec_digits(mag as nat),
                raw.len() >= 1,
                digs@.len() >= raw.len(),
                digs@.len() <= raw.len() || digs@.len() <= self.scale + 1,
                digs@ =~= spec_zeros((digs@.len() - raw.len()) as nat) + raw,
                self.scale <= MAX_SCALE,
            decreases (self.scale + 1) as int - digs@.len(),
        {
            proof {
                assert(seq!['0'] + (spec_zeros((digs@.len() - raw.len()) as nat) + raw)
                    =~= spec_zeros((digs@.len() + 1 - raw.len()) as nat) + raw);
            }
            digs.insert(0, '0');
        }
        proof {
            if raw.len() >= self.scale + 1 {
                assert(digs@.len() == raw.len());
                assert(spec_zeros(0) + raw =~= raw);
                assert(digs@ =~= spec_padded_digits(mag as nat, self.scale as nat));
            } else {
                assert(digs@.len() == self.scale + 1);
                assert(digs@ =~= spec_padded_digits(mag as nat, self.scale as nat));
            }
        }
        let cut = digs.len() - (self.scale as usize);
        let mut v: Vec<char> = Vec::new();
        if self.mantissa < 0 {
            v.push('-');
        }
        let ghost sign: Seq<char> = if self.mantissa < 0 {
            seq!['-']
        } else {
            Seq::empty()
        };
        let mut i: usize = 0;
        while i < cut
            invariant
                cut <= digs@.len(),
                i <= cut,
                v@ =~= sign + digs@.take(i as int),
            decreases cut - i,
        {
            let c = digs[i];
            proof {
                assert(sign + digs@.take(i as int + 1) =~= (sign + digs@.take(i as int)).push(c));
            }
            v.push(c);
            i = i + 1;
        }
        if self.scale > 0 {
            proof {
                assert((sign + digs@.take(cut as int)).push('.') =~= sign + digs@.take(cut as int)
                    + seq!['.']);
            }
            v.push('.');
            while i < digs.len()
                invariant
                    cut <= digs@.len(),
                    cut <= i <= digs@.len(),
                    v@ =~= sign + digs@.take(cut as int) + seq!['.'] + digs@.subrange(
                        cut as int,
                        i as int,
                    ),
                decreases digs@.len() - i,
            {
                let c = digs[i];
                proof {
                    assert(sign + digs@.take(cut as int) + seq!['.'] + digs@.subrange(
                        cut as int,
                        i as int + 1,
                    ) =~= (sign + digs@.take(cut as int) + seq!['.'] + digs@.subrange(
                        cut as int,
                        i as int,
                    )).push(c));
                }
                v.push(c);
                i = i + 1;
            }
            proof {
                assert(digs@.subrange(cut as int, digs@.len() as int) =~= digs@.skip(cut as int));
                assert(v@ =~= spec_dec_chars(self.mantissa as int, self.scale as nat));
            }
        } else {
            proof {
                assert(digs@.take(cut as int) =~= digs@);
                assert(v@ =~= spec_dec_chars(self.mantissa as int, self.scale as nat));
            }
        }
        v
    }
}

} // verus!
