//! Spans of time with nanosecond resolution, and the parser for the
//! human-friendly duration strings (`"30s"`, `"5m"`, `"200ms"`) that the
//! window and poll-interval settings are written in.
use vstd::prelude::*;

use crate::text::{
    ascii_lowercase, chars_of, copy_range, is_space, lemma_lowercase_idempotent, lemma_trim_at,
    lemma_trim_lowercase_commute, lemma_trimmed_somewhere, lower_char, lowercase_range, trim,
    trim_bounds, trimmed_at,
};
use vstd::arithmetic::div_mod::{lemma_div_denominator, lemma_div_plus_one};

verus! {

/// The largest span a [`Duration`] can hold: `u64::MAX` seconds and
/// 999,999,999 nanoseconds.
pub const MAX_NANOS: u128 = 18_446_744_073_709_551_615_999_999_999u128;

pub const NANOS_PER_SEC: u128 = 1_000_000_000u128;

/// A span of time, counted in whole nanoseconds.
#[derive(Clone, Copy, Debug, PartialEq, Eq, Structural, Hash)]
pub struct Duration {
    nanos: u128,
}

impl View for Duration {
    type V = nat;

    closed spec fn view(&self) -> nat {
        self.nanos as nat
    }
}

impl Duration {
    #[verifier::type_invariant]
    spec fn fits(self) -> bool {
        self.nanos <= MAX_NANOS
    }

    /// The span of `secs` whole seconds.
    pub fn from_secs(secs: u64) -> (d: Duration)
        ensures
            d@ == secs * 1_000_000_000,
    {
        Duration { nanos: secs as u128 * NANOS_PER_SEC }
    }

    /// The span of `millis` milliseconds.
    pub fn from_millis(millis: u64) -> (d: Duration)
        ensures
            d@ == millis * 1_000_000,
    {
        Duration { nanos: millis as u128 * 1_000_000u128 }
    }

    /// The span of `nanos` nanoseconds.
    pub fn from_nanos(nanos: u64) -> (d: Duration)
        ensures
            d@ == nanos,
    {
        Duration { nanos: nanos as u128 }
    }

    /// The span of `secs` seconds and `nanos` nanoseconds; `nanos` may exceed a
    /// second, as long as the total stays within [`MAX_NANOS`].
    pub fn new(secs: u64, nanos: u32) -> (d: Duration)
        requires
            secs * 1_000_000_000 + nanos <= MAX_NANOS,
        ensures
            d@ == secs * 1_000_000_000 + nanos,
    {
        Duration { nanos: secs as u128 * NANOS_PER_SEC + nanos as u128 }
    }

    /// Builds a span from a total number of nanoseconds, if it is not larger
    /// than [`MAX_NANOS`].
    pub fn try_from_nanos(nanos: u128) -> (d: Option<Duration>)
        ensures
            d is Some <==> nanos <= MAX_NANOS,
            d matches Some(d) ==> d@ == nanos,
    {
        if nanos <= MAX_NANOS {
            Some(Duration { nanos })
        } else {
            None
        }
    }

    /// The whole span in nanoseconds.
    pub fn as_nanos(&self) -> (n: u128)
        ensures
            n == self@,
            n <= MAX_NANOS,
    {
        proof {
            use_type_invariant(self);
        }
        self.nanos
    }

    /// The whole seconds in the span.
    pub fn as_secs(&self) -> (s: u64)
        ensures
            s == self@ / 1_000_000_000,
    {
        proof {
            use_type_invariant(self);
        }
        (self.nanos / NANOS_PER_SEC) as u64
    }

    /// The nanoseconds past the last whole second.
    pub fn subsec_nanos(&self) -> (n: u32)
        ensures
            n == self@ % 1_000_000_000,
    {
        (self.nanos % NANOS_PER_SEC) as u32
    }

    /// Compares two spans: `true` exactly when `self` is strictly longer.
    pub fn is_longer_than(&self, other: &Duration) -> (b: bool)
        ensures
            b == (self@ > other@),
    {
        self.nanos > other.nanos
    }
}

/// Why a duration string was refused.
#[derive(Clone, Copy, Debug, PartialEq, Eq, Structural)]
pub enum DurationError {
    /// Nothing but whitespace.
    Empty,
    /// A unit with no number in front of it (`"ms"`).
    MissingNumber,
    /// The number is not a decimal numeral (`"banana"`, `"1..2"`).
    Malformed,
    /// The number is negative or not finite (`"-5s"`, `"inf"`).
    NotNonNegative,
    /// The span is longer than a [`Duration`] can hold.
    TooLarge,
}

pub const NANOS_PER_MILLI: u128 = 1_000_000u128;

pub const NANOS_PER_MINUTE: u128 = 60_000_000_000u128;

pub const NANOS_PER_HOUR: u128 = 3_600_000_000_000u128;

pub open spec fn is_digit(c: char) -> bool {
    '0' <= c <= '9'
}

pub open spec fn digit_value(c: char) -> nat {
    ((c as u32) - ('0' as u32)) as nat
}

pub open spec fn all_digits(s: Seq<char>) -> bool {
    forall|i: int| 0 <= i < s.len() ==> is_digit(#[trigger] s[i])
}

/// The number that a string of decimal digits writes.
pub open spec fn digits_value(s: Seq<char>) -> nat
    decreases s.len(),
{
    if s.len() == 0 {
        0
    } else {
        digits_value(s.drop_last()) * 10 + digit_value(s.last())
    }
}

pub open spec fn pow10(n: nat) -> nat
    decreases n,
{
    if n == 0 {
        1
    } else {
        10 * pow10((n - 1) as nat)
    }
}

/// Whether `s` is digits, a `.` at `k`, and digits again, at least two
/// characters in all.
pub open spec fn point_at(s: Seq<char>, k: int) -> bool {
    &&& 0 <= k < s.len()
    &&& s[k] == '.'
    &&& all_digits(s.take(k))
    &&& all_digits(s.skip(k + 1))
    &&& s.len() >= 2
}

/// An unsigned decimal numeral: digits, or digits around one `.` with at
/// least one digit in all. Gives the digits before and after the point.
pub open spec fn unsigned_numeral(s: Seq<char>) -> Option<(Seq<char>, Seq<char>)> {
    if s.len() > 0 && all_digits(s) {
        Some((s, Seq::empty()))
    } else if exists|k: int| point_at(s, k) {
        let k = choose|k: int| point_at(s, k);
        Some((s.take(k), s.skip(k + 1)))
    } else {
        None
    }
}

/// An exponent: digits with an optional sign, as the number they write.
pub open spec fn signed_digits(s: Seq<char>) -> Option<int> {
    let negative = s.len() > 0 && s[0] == '-';
    let digits = if s.len() > 0 && (s[0] == '-' || s[0] == '+') {
        s.drop_first()
    } else {
        s
    };
    if digits.len() > 0 && all_digits(digits) {
        Some(
            if negative {
                -(digits_value(digits) as int)
            } else {
                digits_value(digits) as int
            },
        )
    } else {
        None
    }
}

/// Whether `s` is a decimal numeral, an `e` at `j`, and an exponent.
pub open spec fn exponent_at(s: Seq<char>, j: int) -> bool {
    &&& 0 <= j < s.len()
    &&& s[j] == 'e'
    &&& unsigned_numeral(s.take(j)) is Some
    &&& signed_digits(s.skip(j + 1)) is Some
}

/// An unsigned number as `f64::from_str` writes one (in lower case): a
/// decimal numeral, optionally followed by `e` and a signed exponent. Gives
/// the digits before and after the point, and the exponent.
pub open spec fn scientific(s: Seq<char>) -> Option<(Seq<char>, Seq<char>, int)> {
    match unsigned_numeral(s) {
        Some((whole, fraction)) => Some((whole, fraction, 0)),
        None => if exists|j: int| exponent_at(s, j) {
            let j = choose|j: int| exponent_at(s, j);
            Some(
                (
                    unsigned_numeral(s.take(j)).unwrap().0,
                    unsigned_numeral(s.take(j)).unwrap().1,
                    signed_digits(s.skip(j + 1)).unwrap(),
                ),
            )
        } else {
            None
        },
    }
}

/// A number with an optional sign: whether it is negative, the digits
/// before and after the point, and the exponent.
pub open spec fn numeral(s: Seq<char>) -> Option<(bool, Seq<char>, Seq<char>, int)> {
    let negative = s.len() > 0 && s[0] == '-';
    let unsigned = if s.len() > 0 && (s[0] == '-' || s[0] == '+') {
        s.drop_first()
    } else {
        s
    };
    match scientific(unsigned) {
        Some((whole, fraction, exponent)) => Some((negative, whole, fraction, exponent)),
        None => None,
    }
}

/// The words for infinity and not-a-number, with an optional sign.
pub open spec fn names_non_finite(s: Seq<char>) -> bool {
    let unsigned = if s.len() > 0 && (s[0] == '-' || s[0] == '+') {
        s.drop_first()
    } else {
        s
    };
    ||| unsigned == seq!['i', 'n', 'f']
    ||| unsigned == seq!['i', 'n', 'f', 'i', 'n', 'i', 't', 'y']
    ||| unsigned == seq!['n', 'a', 'n']
}

/// Splits the unit suffix off a lower-case duration string: the text before
/// it and the unit in nanoseconds. Without a suffix the unit is a second.
pub open spec fn unit_split(l: Seq<char>) -> (Seq<char>, nat) {
    let n = l.len() as int;
    if n >= 2 && l[n - 2] == 'm' && l[n - 1] == 's' {
        (l.take(n - 2), NANOS_PER_MILLI as nat)
    } else if n >= 1 && l[n - 1] == 'h' {
        (l.take(n - 1), NANOS_PER_HOUR as nat)
    } else if n >= 1 && l[n - 1] == 'm' {
        (l.take(n - 1), NANOS_PER_MINUTE as nat)
    } else if n >= 1 && l[n - 1] == 's' {
        (l.take(n - 1), NANOS_PER_SEC as nat)
    } else {
        (l, NANOS_PER_SEC as nat)
    }
}

/// `whole.fraction` units, in nanoseconds rounded to the nearest one (a half
/// rounds up); `fraction` has `k` digits.
spec fn rounded_nanos(whole: nat, fraction: nat, k: nat, unit: nat) -> nat {
    whole * unit + (2 * fraction * unit + pow10(k)) / (2 * pow10(k))
}

/// `n * 10^-d` units, in nanoseconds rounded to the nearest one (a half
/// rounds up).
pub open spec fn scaled_nanos(n: nat, unit: nat, d: int) -> nat {
    if d <= 0 {
        n * unit * pow10((-d) as nat)
    } else {
        (2 * n * unit + pow10(d as nat)) / (2 * pow10(d as nat))
    }
}

/// What a trimmed, lower-case number string gives in the unit `unit`: the
/// digits `whole` `.` `fraction` times ten to the exponent, in units.
pub open spec fn numeral_nanos(digits: Seq<char>, unit: nat) -> Result<nat, DurationError> {
    match numeral(digits) {
        None => if names_non_finite(digits) {
            Err(DurationError::NotNonNegative)
        } else {
            Err(DurationError::Malformed)
        },
        Some((negative, whole, fraction, exponent)) => {
            let n = digits_value(whole + fraction);
            if negative && n != 0 {
                Err(DurationError::NotNonNegative)
            } else {
                let v = scaled_nanos(n, unit, fraction.len() - exponent);
                if v > MAX_NANOS {
                    Err(DurationError::TooLarge)
                } else {
                    Ok(v)
                }
            }
        },
    }
}

/// The span, in nanoseconds, that a duration string stands for: a number
/// (with an optional fraction and exponent) followed by a case-insensitive
/// `ms`, `s`, `m` or `h` (a bare number is seconds), with whitespace around
/// the whole and around the number allowed.
pub open spec fn duration_of(input: Seq<char>) -> Result<nat, DurationError> {
    let t = trim(input);
    if t.len() == 0 {
        Err(DurationError::Empty)
    } else {
        let (body, unit) = unit_split(ascii_lowercase(t));
        let digits = trim(body);
        if digits.len() == 0 {
            Err(DurationError::MissingNumber)
        } else {
            numeral_nanos(digits, unit)
        }
    }
}

/// The rounding step done from the last fractional digit back to the first:
/// `floor(0.ds * m)` built one digit at a time.
spec fn fraction_floor(ds: Seq<char>, m: nat) -> nat
    decreases ds.len(),
{
    if ds.len() == 0 {
        0
    } else {
        (digit_value(ds[0]) * m + fraction_floor(ds.drop_first(), m)) / 10
    }
}

proof fn lemma_pow10_positive(n: nat)
    ensures
        pow10(n) > 0,
    decreases n,
{
    if n > 0 {
        lemma_pow10_positive((n - 1) as nat);
    }
}

proof fn lemma_digits_value_bound(s: Seq<char>)
    requires
        all_digits(s),
    ensures
        digits_value(s) < pow10(s.len()),
    decreases s.len(),
{
    if s.len() > 0 {
        assert(all_digits(s.drop_last())) by {
            assert forall|i: int| 0 <= i < s.drop_last().len() implies is_digit(
                #[trigger] s.drop_last()[i],
            ) by {
                assert(is_digit(s[i]));
            }
        }
        assert(is_digit(s[s.len() - 1]));
        lemma_digits_value_bound(s.drop_last());
    }
}

/// The value of a digit string is its first digit's weight plus the rest.
proof fn lemma_digits_value_first(s: Seq<char>)
    requires
        s.len() > 0,
    ensures
        digits_value(s) == digit_value(s[0]) * pow10((s.len() - 1) as nat) + digits_value(
            s.drop_first(),
        ),
    decreases s.len(),
{
    if s.len() == 1 {
        assert(s.drop_last().len() == 0);
        assert(s.drop_first().len() == 0);
        assert(digits_value(s) == digits_value(s.drop_last()) * 10 + digit_value(s.last()));
        assert(pow10(0) == 1);
        assert(s.last() == s[0]);
        assert(digits_value(s.drop_first()) == 0);
        let d0 = digit_value(s[0]);
        assert(d0 * pow10(0) == d0) by (nonlinear_arith)
            requires
                pow10(0) == 1,
        ;
    } else {
        let t = s.drop_last();
        lemma_digits_value_first(t);
        let u = s.drop_first();
        assert(t.drop_first() =~= u.drop_last());
        assert(u.last() == s.last());
        assert(digits_value(u) == digits_value(u.drop_last()) * 10 + digit_value(u.last()));
        let p = pow10((t.len() - 1) as nat);
        assert(pow10((s.len() - 1) as nat) == 10 * p);
        assert(t[0] == s[0]);
        let d0 = digit_value(s[0]);
        let w = digits_value(t.drop_first());
        assert(digits_value(s) == (d0 * p + w) * 10 + digit_value(s.last()));
        assert((d0 * p + w) * 10 == d0 * (10 * p) + w * 10) by (nonlinear_arith);

    }
}

/// A digit string writes zero exactly when every digit is `0`.
proof fn lemma_digits_value_zero(s: Seq<char>)
    requires
        all_digits(s),
    ensures
        digits_value(s) == 0 <==> (forall|i: int| 0 <= i < s.len() ==> #[trigger] s[i] == '0'),
    decreases s.len(),
{
    if s.len() > 0 {
        let t = s.drop_last();
        assert(all_digits(t)) by {
            assert forall|i: int| 0 <= i < t.len() implies is_digit(#[trigger] t[i]) by {
                assert(is_digit(s[i]));
            }
        }
        lemma_digits_value_zero(t);
        assert(is_digit(s[s.len() - 1]));
        if digits_value(s) == 0 {
            assert forall|i: int| 0 <= i < s.len() implies #[trigger] s[i] == '0' by {
                if i < s.len() - 1 {
                    assert(t[i] == s[i]);
                }
            }
        }
        if forall|i: int| 0 <= i < s.len() ==> #[trigger] s[i] == '0' {
            assert forall|i: int| 0 <= i < t.len() implies #[trigger] t[i] == '0' by {
                assert(s[i] == '0');
            }
            assert(s[s.len() - 1] == '0');
        }
    }
}

/// The right-to-left rounding step computes `floor(value * m / 10^len)`.
proof fn lemma_fraction_floor(ds: Seq<char>, m: nat)
    requires
        all_digits(ds),
    ensures
        fraction_floor(ds, m) == digits_value(ds) * m / pow10(ds.len()),
    decreases ds.len(),
{
    if ds.len() == 0 {
        assert(digits_value(ds) == 0);
        assert(0 * m == 0);
    } else {
        let r = ds.drop_first();
        assert(all_digits(r)) by {
            assert forall|i: int| 0 <= i < r.len() implies is_digit(#[trigger] r[i]) by {
                assert(is_digit(ds[i + 1]));
            }
        }
        lemma_fraction_floor(r, m);
        lemma_digits_value_first(ds);
        let p = pow10(r.len());
        lemma_pow10_positive(r.len());
        let d = digit_value(ds[0]);
        let vr = digits_value(r);
        assert(pow10(ds.len()) == p * 10);
        let x = (d * p + vr) * m;
        assert(x == (d * m) * p + vr * m) by (nonlinear_arith)
            requires
                x == (d * p + vr) * m,
        ;
        assert(digits_value(ds) == d * p + vr);
        assert(digits_value(ds) * m == x);
        assert(x / p == d * m + (vr * m) / p) by {
            vstd::arithmetic::div_mod::lemma_div_multiples_vanish_fancy(
                (d * m) as int,
                0,
                p as int,
            );
            vstd::arithmetic::div_mod::lemma_fundamental_div_mod((vr * m) as int, p as int);
            let q = (vr * m) / p;
            let rem = (vr * m) % p;
            assert(vr * m == p * q + rem);
            assert(x == p * (d * m + q) + rem) by (nonlinear_arith)
                requires
                    x == (d * m) * p + vr * m,
                    vr * m == p * q + rem,
            ;
            vstd::arithmetic::div_mod::lemma_div_multiples_vanish_fancy(
                (d * m + q) as int,
                rem as int,
                p as int,
            );
        }
        assert(x >= 0) by (nonlinear_arith)
            requires
                d >= 0,
                p >= 0,
                vr >= 0,
                m >= 0,
                x == (d * p + vr) * m,
        ;
        lemma_div_denominator(x as int, p as int, 10);
        assert(fraction_floor(ds, m) == (d * m + fraction_floor(r, m)) / 10);
        assert(fraction_floor(ds, m) == (x / p) / 10);
        assert(fraction_floor(ds, m) == x / (p * 10));
    }
}

/// Rounding to the nearest from the floor of twice the value.
proof fn lemma_round_from_floor(a: nat, p: nat)
    requires
        p > 0,
    ensures
        (a / p + 1) / 2 == (a + p) / (2 * p),
{
    lemma_div_plus_one(a as int, p as int);
    lemma_div_denominator((a + p) as int, p as int, 2);
}

/// The value of `v[from..to]`, all decimal digits, or `None` once it is past
/// [`MAX_NANOS`].
fn whole_value(v: &Vec<char>, from: usize, to: usize) -> (r: Option<u128>)
    requires
        from <= to <= v@.len(),
        all_digits(v@.subrange(from as int, to as int)),
    ensures
        match r {
            Some(x) => x == digits_value(v@.subrange(from as int, to as int)) && x <= MAX_NANOS,
            None => digits_value(v@.subrange(from as int, to as int)) > MAX_NANOS,
        },
{
    let mut acc: u128 = 0;
    let mut i = from;
    while i < to
        invariant
            from <= i <= to <= v@.len(),
            all_digits(v@.subrange(from as int, to as int)),
            acc == digits_value(v@.subrange(from as int, i as int)),
            acc <= MAX_NANOS,
        decreases to - i,
    {
        let c = v[i];
        assert(is_digit(v@.subrange(from as int, to as int)[i - from]));
        let d = (c as u32 - '0' as u32) as u128;
        assert(v@.subrange(from as int, i + 1).drop_last() =~= v@.subrange(from as int, i as int));
        if acc > (MAX_NANOS - d) / 10 {
            assert(digits_value(v@.subrange(from as int, i + 1)) > MAX_NANOS);
            let mut j = i + 1;
            while j < to
                invariant
                    from < j <= to <= v@.len(),
                    digits_value(v@.subrange(from as int, j as int)) > MAX_NANOS,
                decreases to - j,
            {
                assert(v@.subrange(from as int, j + 1).drop_last() =~= v@.subrange(
                    from as int,
                    j as int,
                ));
                j = j + 1;
            }
            return None;
        }
        acc = acc * 10 + d;
        i = i + 1;
    }
    Some(acc)
}

/// The nanoseconds that the fractional digits `v[from..to]` add in the unit
/// `unit`, rounded to the nearest one (a half rounds up). Works from the last
/// digit back, so that no intermediate value outgrows twice the unit.
fn fraction_nanos(v: &Vec<char>, from: usize, to: usize, unit: u128) -> (r: u128)
    requires
        from <= to <= v@.len(),
        all_digits(v@.subrange(from as int, to as int)),
        1 <= unit <= NANOS_PER_HOUR,
    ensures
        r == (2 * digits_value(v@.subrange(from as int, to as int)) * (unit as nat) + pow10(
            (to - from) as nat,
        )) / (2 * pow10((to - from) as nat)),
        r <= unit,
{
    let m: u128 = 2 * unit;
    let mut acc: u128 = 0;
    let mut i = to;
    while i > from
        invariant
            from <= i <= to <= v@.len(),
            all_digits(v@.subrange(from as int, to as int)),
            m == 2 * unit,
            1 <= unit <= NANOS_PER_HOUR,
            acc == fraction_floor(v@.subrange(i as int, to as int), m as nat),
            acc < m,
        decreases i - from,
    {
        i = i - 1;
        let c = v[i];
        assert(is_digit(v@.subrange(from as int, to as int)[i - from]));
        let d = (c as u32 - '0' as u32) as u128;
        assert(v@.subrange(i as int, to as int).drop_first() =~= v@.subrange(i + 1, to as int));
        assert(d * m + acc < 10 * m) by (nonlinear_arith)
            requires
                d <= 9,
                acc < m,
        ;
        acc = (d * m + acc) / 10;
    }
    let ghost ds = v@.subrange(from as int, to as int);
    proof {
        assert(ds =~= v@.subrange(i as int, to as int));
        lemma_fraction_floor(ds, m as nat);
        lemma_pow10_positive(ds.len());
        assert(digits_value(ds) * (m as nat) == 2 * digits_value(ds) * (unit as nat)) by (nonlinear_arith)
            requires
                m == 2 * unit,
        ;
        lemma_round_from_floor(2 * digits_value(ds) * (unit as nat), pow10(ds.len()));
    }
    (acc + 1) / 2
}

/// Whether every digit of `v[from..to]` is `0`, that is, whether they write zero.
fn writes_zero(v: &Vec<char>, from: usize, to: usize) -> (b: bool)
    requires
        from <= to <= v@.len(),
        all_digits(v@.subrange(from as int, to as int)),
    ensures
        b == (digits_value(v@.subrange(from as int, to as int)) == 0),
{
    proof {
        lemma_digits_value_zero(v@.subrange(from as int, to as int));
    }
    let mut i = from;
    while i < to
        invariant
            from <= i <= to <= v@.len(),
            all_digits(v@.subrange(from as int, to as int)),
            forall|j: int| from <= j < i ==> v@[j] == '0',
        decreases to - i,
    {
        if v[i] != '0' {
            proof {
                let s = v@.subrange(from as int, to as int);
                assert(s[i - from] != '0');
                assert(!(forall|j: int| 0 <= j < s.len() ==> #[trigger] s[j] == '0'));
                lemma_digits_value_zero(s);
            }
            return false;
        }
        i = i + 1;
    }
    assert forall|j: int| 0 <= j < to - from implies #[trigger] v@.subrange(
        from as int,
        to as int,
    )[j] == '0' by {
        assert(v@[from + j] == '0');
    }
    true
}

/// Whether `c` is an ASCII decimal digit.
fn is_digit_char(c: char) -> (b: bool)
    ensures
        b == is_digit(c),
{
    '0' <= c && c <= '9'
}

proof fn lemma_product_past(w: nat, unit: nat, max: nat)
    requires
        unit > 0,
        w > max / unit,
    ensures
        w * unit > max,
{
    vstd::arithmetic::div_mod::lemma_fundamental_div_mod(max as int, unit as int);
    let q = max / unit;
    let r = max % unit;
    assert(w * unit > max) by (nonlinear_arith)
        requires
            max == unit * q + r,
            r < unit,
            w >= q + 1,
            unit > 0,
    ;
}

proof fn lemma_product_within(w: nat, unit: nat, max: nat)
    requires
        unit > 0,
        w <= max / unit,
    ensures
        w * unit <= max,
{
    vstd::arithmetic::div_mod::lemma_fundamental_div_mod(max as int, unit as int);
    let q = max / unit;
    let r = max % unit;
    assert(w * unit <= max) by (nonlinear_arith)
        requires
            max == unit * q + r,
            r >= 0,
            w <= q,
            unit > 0,
    ;
}

/// Whether `v[start..]` is one of the words for infinity or not-a-number.
fn is_non_finite_word(v: &Vec<char>, start: usize) -> (b: bool)
    requires
        start <= v@.len(),
    ensures
        b == {
            let u = v@.subrange(start as int, v@.len() as int);
            ||| u == seq!['i', 'n', 'f']
            ||| u == seq!['i', 'n', 'f', 'i', 'n', 'i', 't', 'y']
            ||| u == seq!['n', 'a', 'n']
        },
{
    let ghost u = v@.subrange(start as int, v@.len() as int);
    let n = v.len() - start;
    if n == 3 && v[start] == 'i' && v[start + 1] == 'n' && v[start + 2] == 'f' {
        assert(u =~= seq!['i', 'n', 'f']);
        return true;
    }
    if n == 3 && v[start] == 'n' && v[start + 1] == 'a' && v[start + 2] == 'n' {
        assert(u =~= seq!['n', 'a', 'n']);
        return true;
    }
    if n == 8 && v[start] == 'i' && v[start + 1] == 'n' && v[start + 2] == 'f' && v[start + 3]
        == 'i' && v[start + 4] == 'n' && v[start + 5] == 'i' && v[start + 6] == 't' && v[start
        + 7] == 'y' {
        assert(u =~= seq!['i', 'n', 'f', 'i', 'n', 'i', 't', 'y']);
        return true;
    }
    proof {
        if u.len() >= 3 {
            assert(u[0] == v@[start as int] && u[1] == v@[start + 1] && u[2] == v@[start + 2]);
        }
        if u.len() == 8 {
            assert(u[3] == v@[start + 3] && u[4] == v@[start + 4] && u[5] == v@[start + 5]);
            assert(u[6] == v@[start + 6] && u[7] == v@[start + 7]);
        }
        if u == seq!['i', 'n', 'f'] {
            assert(u.len() == 3 && u[0] == 'i' && u[1] == 'n' && u[2] == 'f');
        }
        if u == seq!['n', 'a', 'n'] {
            assert(u.len() == 3 && u[0] == 'n' && u[1] == 'a' && u[2] == 'n');
        }
        if u == seq!['i', 'n', 'f', 'i', 'n', 'i', 't', 'y'] {
            assert(u.len() == 8 && u[0] == 'i' && u[1] == 'n' && u[2] == 'f' && u[3] == 'i');
            assert(u[4] == 'n' && u[5] == 'i' && u[6] == 't' && u[7] == 'y');
        }
    }
    false
}

/// The characters of a decimal numeral are digits and one point at most.
proof fn lemma_numeral_chars(s: Seq<char>)
    requires
        unsigned_numeral(s) is Some,
    ensures
        forall|i: int| 0 <= i < s.len() ==> is_digit(#[trigger] s[i]) || s[i] == '.',
        forall|i: int, j: int|
            0 <= i < s.len() && 0 <= j < s.len() && #[trigger] s[i] == '.' && #[trigger] s[j]
                == '.' ==> i == j,
{
    if !(s.len() > 0 && all_digits(s)) {
        let k = choose|k: int| point_at(s, k);
        assert forall|i: int| 0 <= i < s.len() && i != k implies is_digit(#[trigger] s[i]) by {
            if i < k {
                assert(s.take(k)[i] == s[i]);
            } else {
                assert(s.skip(k + 1)[i - k - 1] == s[i]);
            }
        }
    }
}

/// What a run of digits with at most one point at `dot` (or none, when `dot`
/// is negative) is as a numeral.
proof fn lemma_mantissa_value(s: Seq<char>, dot: int)
    requires
        forall|i: int| 0 <= i < s.len() ==> is_digit(#[trigger] s[i]) || i == dot,
        dot >= 0 ==> dot < s.len() && s[dot] == '.',
    ensures
        unsigned_numeral(s) == if dot < 0 {
            if s.len() > 0 {
                Some((s, Seq::<char>::empty()))
            } else {
                None
            }
        } else {
            if s.len() >= 2 {
                Some((s.take(dot), s.skip(dot + 1)))
            } else {
                None
            }
        },
{
    if dot < 0 {
        assert(all_digits(s));
        if s.len() == 0 {
            assert(!exists|k: int| point_at(s, k));
        }
    } else {
        assert(!is_digit(s[dot]));
        assert(!all_digits(s));
        assert forall|k: int| #[trigger] point_at(s, k) implies k == dot by {
            if k != dot {
                assert(is_digit(s[k]));
            }
        }
        if s.len() >= 2 {
            assert(point_at(s, dot)) by {
                assert forall|i: int| 0 <= i < s.take(dot).len() implies is_digit(
                    #[trigger] s.take(dot)[i],
                ) by {
                    assert(s.take(dot)[i] == s[i]);
                }
                assert forall|i: int| 0 <= i < s.skip(dot + 1).len() implies is_digit(
                    #[trigger] s.skip(dot + 1)[i],
                ) by {
                    assert(s.skip(dot + 1)[i] == s[dot + 1 + i]);
                }
            }
        }
    }
}

/// The shape of an unsigned number whose longest run of digits with at most
/// one point (at `dot`, or none when `dot` is negative) ends at `m`: what
/// follows decides whether it is a number, and with which exponent.
proof fn lemma_scientific_shape(u: Seq<char>, m: int, dot: int)
    requires
        0 <= m <= u.len(),
        forall|i: int| 0 <= i < m ==> is_digit(#[trigger] u[i]) || i == dot,
        dot >= 0 ==> dot < m && u[dot] == '.',
        m < u.len() ==> !is_digit(u[m]) && (u[m] == '.' ==> dot >= 0),
    ensures
        scientific(u) == if m == u.len() {
            match unsigned_numeral(u) {
                Some((w, f)) => Some((w, f, 0int)),
                None => None,
            }
        } else if u[m] == 'e' {
            match (unsigned_numeral(u.take(m)), signed_digits(u.skip(m + 1))) {
                (Some((w, f)), Some(e)) => Some((w, f, e)),
                _ => None,
            }
        } else {
            None
        },
{
    // No longer prefix than `u[..m]` is a numeral.
    assert forall|j: int| m < j <= u.len() implies unsigned_numeral(#[trigger] u.take(j)) is None by {
        if unsigned_numeral(u.take(j)) is Some {
            lemma_numeral_chars(u.take(j));
            assert(u.take(j)[m] == u[m]);
            if dot >= 0 {
                assert(u.take(j)[dot] == u[dot]);
            }
        }
    }
    // An `e` can only stand at `m`.
    assert forall|j: int| #[trigger] exponent_at(u, j) implies j == m by {
        if j < m {
            assert(is_digit(u[j]) || j == dot);
        } else if j > m {
            assert(unsigned_numeral(u.take(j)) is None);
        }
    }
    if m == u.len() {
        assert(u.take(m) =~= u);
        if unsigned_numeral(u) is None {
            assert(!exists|j: int| exponent_at(u, j));
        }
    } else {
        assert(u.take(u.len() as int) =~= u);
        assert(unsigned_numeral(u) is None);
        if u[m] == 'e' {
            if unsigned_numeral(u.take(m)) is Some && signed_digits(u.skip(m + 1)) is Some {
                assert(exponent_at(u, m));
            }
        }
    }
}

/// The value of two digit strings one after the other.
proof fn lemma_digits_value_concat(a: Seq<char>, b: Seq<char>)
    ensures
        digits_value(a + b) == digits_value(a) * pow10(b.len()) + digits_value(b),
    decreases b.len(),
{
    if b.len() == 0 {
        assert(a + b =~= a);
        assert(digits_value(a) * pow10(0) == digits_value(a)) by (nonlinear_arith)
            requires
                pow10(0) == 1,
        ;
    } else {
        let b0 = b.drop_last();
        lemma_digits_value_concat(a, b0);
        assert((a + b).drop_last() =~= a + b0);
        assert((a + b).last() == b.last());
        let va = digits_value(a);
        let p = pow10(b0.len());
        assert(pow10(b.len()) == 10 * p);
        assert((va * p + digits_value(b0)) * 10 + digit_value(b.last()) == va * (10 * p) + (
        digits_value(b0) * 10 + digit_value(b.last()))) by (nonlinear_arith);
    }
}

/// `m` zero digits.
pub open spec fn zeros(m: nat) -> Seq<char> {
    Seq::new(m, |i: int| '0')
}

proof fn lemma_zeros_value(m: nat)
    ensures
        digits_value(zeros(m)) == 0,
        all_digits(zeros(m)),
    decreases m,
{
    if m > 0 {
        lemma_zeros_value((m - 1) as nat);
        assert(zeros(m).drop_last() =~= zeros((m - 1) as nat));
    }
}

proof fn lemma_pow10_add(a: nat, b: nat)
    ensures
        pow10(a + b) == pow10(a) * pow10(b),
    decreases b,
{
    if b > 0 {
        lemma_pow10_add(a, (b - 1) as nat);
        assert(pow10(a + b) == 10 * pow10((a + b - 1) as nat));
        assert(10 * (pow10(a) * pow10((b - 1) as nat)) == pow10(a) * (10 * pow10((b - 1) as nat)))
            by (nonlinear_arith);
    } else {
        assert(pow10(a) * 1 == pow10(a));
    }
}

proof fn lemma_pow10_monotone(a: nat, b: nat)
    requires
        a <= b,
    ensures
        pow10(a) <= pow10(b),
    decreases b,
{
    lemma_pow10_positive(b);
    if a < b {
        lemma_pow10_monotone(a, (b - 1) as nat);
    }
}

/// Dividing out a whole multiple of the divisor.
proof fn lemma_div_add_multiple(a: nat, b: nat, m: nat)
    requires
        m > 0,
    ensures
        (m * a + b) / m == a + b / m,
{
    vstd::arithmetic::div_mod::lemma_fundamental_div_mod(b as int, m as int);
    let q = b / m;
    let r = b % m;
    assert(m * a + b == m * (a + q) + r) by (nonlinear_arith)
        requires
            b == m * q + r,
    ;
    vstd::arithmetic::div_mod::lemma_div_multiples_vanish_fancy((a + q) as int, r as int, m as int);
}

/// With an exponent large enough, a number that is not zero is too long.
proof fn lemma_scaled_too_large(n: nat, unit: nat, d: int)
    requires
        n >= 1,
        unit >= 1,
        d <= -29,
    ensures
        scaled_nanos(n, unit, d) > MAX_NANOS,
{
    lemma_pow10_monotone(29, (-d) as nat);
    reveal_with_fuel(pow10, 30);
    let p = pow10((-d) as nat);
    assert(n * unit * p >= p) by (nonlinear_arith)
        requires
            n >= 1,
            unit >= 1,
            p >= 0,
    ;
}

/// With an exponent small enough, a number rounds to no time at all.
proof fn lemma_scaled_vanishes(n: nat, len: nat, unit: nat, d: int)
    requires
        n < pow10(len),
        1 <= unit <= NANOS_PER_HOUR,
        d >= len + 13,
    ensures
        scaled_nanos(n, unit, d) == 0,
{
    let dn = d as nat;
    lemma_pow10_add(len, 13);
    lemma_pow10_monotone(len + 13, dn);
    reveal_with_fuel(pow10, 14);
    let pl = pow10(len);
    let pd = pow10(dn);
    assert(2 * n * unit < pd) by (nonlinear_arith)
        requires
            n < pl,
            unit <= 3_600_000_000_000,
            pl * 10_000_000_000_000 <= pd,
    ;
    vstd::arithmetic::div_mod::lemma_basic_div((2 * n * unit + pd) as int, (2 * pd) as int);
}

/// Moving the point: the number `dd` with `lead` zeros before it and
/// `trail` zeros after it, split into whole and fractional digits at `q`,
/// rounds as `dd * 10^-d` does.
proof fn lemma_shifted_rounding(dd: Seq<char>, lead: nat, trail: nat, q: int, unit: nat, d: int)
    requires
        all_digits(dd),
        trail > 0 ==> lead == 0 && q == dd.len() + trail && d == -(trail as int),
        lead > 0 ==> trail == 0 && q == 0 && d == lead + dd.len(),
        lead == 0 && trail == 0 ==> 0 <= q <= dd.len() && d == dd.len() - q,
    ensures
        ({
            let v = zeros(lead) + dd + zeros(trail);
            &&& 0 <= q <= v.len()
            &&& rounded_nanos(
                digits_value(v.take(q)),
                digits_value(v.skip(q)),
                (v.len() - q) as nat,
                unit,
            ) == scaled_nanos(digits_value(dd), unit, d)
        }),
{
    let v = zeros(lead) + dd + zeros(trail);
    let n = digits_value(dd);
    lemma_zeros_value(lead);
    lemma_zeros_value(trail);
    assert(digits_value(Seq::<char>::empty()) == 0);
    if trail > 0 {
        assert(zeros(lead) =~= Seq::<char>::empty());
        assert(v.take(q) =~= dd + zeros(trail));
        assert(v.skip(q) =~= Seq::<char>::empty());
        lemma_digits_value_concat(dd, zeros(trail));
        let p = pow10(trail);
        assert(pow10(0) == 1);
        let z = 2 * 0 * unit;
        assert(z == 0) by (nonlinear_arith)
            requires
                z == 2 * 0 * unit,
        ;
        assert((z + 1) / 2 == 0);
        assert((n * p + 0) * unit == n * unit * p) by (nonlinear_arith);
    } else if lead > 0 {
        assert(zeros(trail) =~= Seq::<char>::empty());
        assert(v.take(q) =~= Seq::<char>::empty());
        assert(v.skip(q) =~= zeros(lead) + dd);
        lemma_digits_value_concat(zeros(lead), dd);
        assert(0 * pow10(dd.len()) + n == n);
        assert(0 * unit == 0);
    } else {
        assert(v =~= dd);
        let w = dd.take(q);
        let f = dd.skip(q);
        assert(w + f =~= dd);
        lemma_digits_value_concat(w, f);
        let dn = f.len();
        let p = pow10(dn);
        lemma_pow10_positive(dn);
        let vw = digits_value(w);
        let vf = digits_value(f);
        if dn == 0 {
            assert(f =~= Seq::<char>::empty());
            assert(p == 1);
            assert(vw * p + vf == vw);
            let z = 2 * vf * unit;
            assert(z == 0) by (nonlinear_arith)
                requires
                    z == 2 * vf * unit,
                    vf == 0,
            ;
            assert((z + 1) / 2 == 0);
            assert(vw * unit * 1 == vw * unit);
        } else {
            assert(2 * (vw * p + vf) * unit + p == (2 * p) * (vw * unit) + (2 * vf * unit + p))
                by (nonlinear_arith);
            lemma_div_add_multiple(vw * unit, 2 * vf * unit + p, 2 * p);
        }
    }
}

/// The span that the digits `v[..q]` `.` `v[q..]` write in the unit `unit`.
fn span_of_digits(v: &Vec<char>, q: usize, unit: u128) -> (r: Result<Duration, DurationError>)
    requires
        q <= v@.len(),
        all_digits(v@),
        1 <= unit <= NANOS_PER_HOUR,
    ensures
        ({
            let n = rounded_nanos(
                digits_value(v@.take(q as int)),
                digits_value(v@.skip(q as int)),
                (v@.len() - q) as nat,
                unit as nat,
            );
            if n > MAX_NANOS {
                r == Err::<Duration, DurationError>(DurationError::TooLarge)
            } else {
                r matches Ok(d) && d@ == n
            }
        }),
{
    let len = v.len();
    assert(v@.subrange(0, q as int) =~= v@.take(q as int));
    assert(v@.subrange(q as int, len as int) =~= v@.skip(q as int));
    assert(all_digits(v@.take(q as int))) by {
        assert forall|i: int| 0 <= i < q implies is_digit(#[trigger] v@.take(q as int)[i]) by {
            assert(is_digit(v@[i]));
        }
    }
    assert(all_digits(v@.skip(q as int))) by {
        assert forall|i: int| 0 <= i < len - q implies is_digit(
            #[trigger] v@.skip(q as int)[i],
        ) by {
            assert(is_digit(v@[q + i]));
        }
    }
    let ghost fraction = v@.skip(q as int);
    let ghost tail = (2 * digits_value(fraction) * (unit as nat) + pow10(fraction.len())) / (2
        * pow10(fraction.len()));
    proof {
        lemma_pow10_positive(fraction.len());
        vstd::arithmetic::div_mod::lemma_div_pos_is_pos(
            (2 * digits_value(fraction) * (unit as nat) + pow10(fraction.len())) as int,
            (2 * pow10(fraction.len())) as int,
        );
    }
    match whole_value(v, 0, q) {
        None => {
            proof {
                let w = digits_value(v@.take(q as int));
                assert(w * (unit as nat) >= w) by (nonlinear_arith)
                    requires
                        unit >= 1,
                ;
            }
            Err(DurationError::TooLarge)
        },
        Some(w) => {
            if w > MAX_NANOS / unit {
                proof {
                    lemma_product_past(w as nat, unit as nat, MAX_NANOS as nat);
                    let wn = w as nat;
                    let un = unit as nat;
                    assert(rounded_nanos(wn, digits_value(fraction), fraction.len(), un) == wn * un
                        + tail);
                    assert(wn * un == w * unit);
                }
                return Err(DurationError::TooLarge);
            }
            proof {
                lemma_product_within(w as nat, unit as nat, MAX_NANOS as nat);
            }
            let base = w * unit;
            let f = fraction_nanos(v, q, len, unit);
            assert(f == tail);
            assert(rounded_nanos(w as nat, digits_value(fraction), fraction.len(), unit as nat)
                == base + f);
            if base > MAX_NANOS - f {
                Err(DurationError::TooLarge)
            } else {
                Ok(Duration { nanos: base + f })
            }
        },
    }
}

/// Appends `m` zero digits to `v`.
fn push_zeros(v: &mut Vec<char>, m: usize)
    ensures
        final(v)@ == old(v)@ + zeros(m as nat),
{
    let mut i: usize = 0;
    while i < m
        invariant
            i <= m,
            v@ == old(v)@ + zeros(i as nat),
        decreases m - i,
    {
        v.push('0');
        i = i + 1;
        assert(v@ =~= old(v)@ + zeros(i as nat));
    }
}

/// Appends `src[from..to]` to `v`.
fn push_range(v: &mut Vec<char>, src: &Vec<char>, from: usize, to: usize)
    requires
        from <= to <= src@.len(),
    ensures
        final(v)@ == old(v)@ + src@.subrange(from as int, to as int),
{
    let mut i = from;
    while i < to
        invariant
            from <= i <= to <= src@.len(),
            v@ == old(v)@ + src@.subrange(from as int, i as int),
        decreases to - i,
    {
        v.push(src[i]);
        i = i + 1;
        assert(v@ =~= old(v)@ + src@.subrange(from as int, i as int));
    }
}

/// The exponent that the sign flag and the digits `v[from..]` write.
pub open spec fn exponent_value(negative: bool, digits: Seq<char>) -> int {
    if negative {
        -(digits_value(digits) as int)
    } else {
        digits_value(digits) as int
    }
}

/// The shape of a number string: `Some((negative, start, whole_end,
/// fraction_start, fraction_end, exponent_negative, exponent_start))` when it
/// is a number, with the digits before the point at `start..whole_end`,
/// those after it at `fraction_start..fraction_end`, and the exponent's
/// digits at `exponent_start..` (none when there is no exponent).
/// The longest run of digits with at most one point from `start` on: the
/// digits before the point end at `j1`, those after it run from
/// `fraction_start` to `j2`.
fn scan_mantissa(digits: &Vec<char>, start: usize) -> (r: (usize, bool, usize, usize))
    requires
        start <= digits@.len(),
    ensures
        ({
            let (j1, has_dot, fraction_start, j2) = r;
            let len = digits@.len() as int;
            let u = digits@.subrange(start as int, len);
            let m = j2 - start;
            let whole = digits@.subrange(start as int, j1 as int);
            let fraction = digits@.subrange(fraction_start as int, j2 as int);
            let ok = if has_dot {
                m >= 2
            } else {
                m > 0
            };
            &&& start <= j1 <= fraction_start <= j2 <= len
            &&& fraction_start == if has_dot {
                j1 + 1
            } else {
                j1 as int
            }
            &&& all_digits(whole)
            &&& all_digits(fraction)
            &&& unsigned_numeral(u.take(m)) == if ok {
                Some((whole, fraction))
            } else {
                None
            }
            &&& scientific(u) == if m == u.len() {
                match unsigned_numeral(u) {
                    Some((w, f)) => Some((w, f, 0int)),
                    None => None,
                }
            } else if u[m] == 'e' {
                match (unsigned_numeral(u.take(m)), signed_digits(u.skip(m + 1))) {
                    (Some((w, f)), Some(e)) => Some((w, f, e)),
                    _ => None,
                }
            } else {
                None
            }
            &&& m < u.len() ==> u[m] == digits@[j2 as int]
        }),
{
    let len = digits.len();
    let ghost u = digits@.subrange(start as int, len as int);
    let mut j1 = start;
    while j1 < len && is_digit_char(digits[j1])
        invariant
            start <= j1 <= len == digits@.len(),
            forall|i: int| start <= i < j1 ==> is_digit(#[trigger] digits@[i]),
        decreases len - j1,
    {
        j1 = j1 + 1;
    }
    let has_dot = j1 < len && digits[j1] == '.';
    let fraction_start = if has_dot {
        j1 + 1
    } else {
        j1
    };
    let mut j2 = fraction_start;
    while j2 < len && is_digit_char(digits[j2])
        invariant
            fraction_start <= j2 <= len == digits@.len(),
            forall|i: int| fraction_start <= i < j2 ==> is_digit(#[trigger] digits@[i]),
        decreases len - j2,
    {
        j2 = j2 + 1;
    }
    let ghost m = j2 - start;
    let ghost dot: int = if has_dot {
        j1 - start
    } else {
        -1
    };
    let ghost whole = digits@.subrange(start as int, j1 as int);
    let ghost fraction = digits@.subrange(fraction_start as int, j2 as int);
    proof {
        assert forall|i: int| 0 <= i < m implies is_digit(#[trigger] u[i]) || i == dot by {
            assert(u[i] == digits@[start + i]);
        }
        if m < u.len() {
            assert(u[m] == digits@[j2 as int]);
            if !has_dot {
                assert(j2 == j1);
            }
        }
        if has_dot {
            assert(u[dot] == digits@[j1 as int]);
        }
        lemma_scientific_shape(u, m, dot);
        assert forall|i: int| 0 <= i < u.take(m).len() implies is_digit(#[trigger] u.take(m)[i])
            || i == dot by {
            assert(u.take(m)[i] == u[i]);
        }
        lemma_mantissa_value(u.take(m), dot);
        if has_dot {
            assert(u.take(m).take(dot) =~= whole);
            assert(u.take(m).skip(dot + 1) =~= fraction);
        } else {
            assert(u.take(m) =~= whole);
            assert(fraction =~= Seq::<char>::empty());
        }
        assert(all_digits(whole)) by {
            assert forall|i: int| 0 <= i < whole.len() implies is_digit(#[trigger] whole[i]) by {
                assert(whole[i] == digits@[start + i]);
            }
        }
        assert(all_digits(fraction)) by {
            assert forall|i: int| 0 <= i < fraction.len() implies is_digit(#[trigger] fraction[i]) by {
                assert(fraction[i] == digits@[fraction_start + i]);
            }
        }
    }
    (j1, has_dot, fraction_start, j2)
}

/// Reads an exponent at `digits[from..]`: whether it is one, whether it is
/// negative, and where its digits start.
fn scan_exponent(digits: &Vec<char>, from: usize) -> (r: (bool, bool, usize))
    requires
        from <= digits@.len(),
    ensures
        ({
            let (ok, negative, exp_start) = r;
            let len = digits@.len() as int;
            &&& from <= exp_start <= len
            &&& signed_digits(digits@.subrange(from as int, len)) == if ok {
                Some(exponent_value(negative, digits@.subrange(exp_start as int, len)))
            } else {
                None
            }
            &&& ok ==> all_digits(digits@.subrange(exp_start as int, len))
        }),
{
    let len = digits.len();
    let mut exp_start = from;
    let exp_negative = exp_start < len && digits[exp_start] == '-';
    if exp_start < len && (digits[exp_start] == '-' || digits[exp_start] == '+') {
        exp_start = exp_start + 1;
    }
    let mut j3 = exp_start;
    while j3 < len && is_digit_char(digits[j3])
        invariant
            exp_start <= j3 <= len == digits@.len(),
            forall|i: int| exp_start <= i < j3 ==> is_digit(#[trigger] digits@[i]),
        decreases len - j3,
    {
        j3 = j3 + 1;
    }
    let exp_ok = j3 == len && j3 > exp_start;
    proof {
        let x = digits@.subrange(from as int, len as int);
        let xd = digits@.subrange(exp_start as int, len as int);
        if exp_start == from + 1 {
            assert(x.drop_first() =~= xd);
        } else {
            assert(x =~= xd);
        }
        if exp_ok {
            assert(all_digits(xd)) by {
                assert forall|i: int| 0 <= i < xd.len() implies is_digit(#[trigger] xd[i]) by {
                    assert(xd[i] == digits@[exp_start + i]);
                }
            }
        } else {
            if j3 < len {
                assert(xd[j3 - exp_start] == digits@[j3 as int]);
                assert(!all_digits(xd));
            }
        }
    }
    (exp_ok, exp_negative, exp_start)
}

fn scan_numeral(digits: &Vec<char>) -> (r: Option<(bool, usize, usize, usize, usize, bool, usize)>)
    ensures
        match r {
            Some((negative, start, whole_end, fraction_start, fraction_end, exp_negative, exp_start)) => {
                let len = digits@.len() as int;
                &&& start <= whole_end <= fraction_start <= fraction_end <= exp_start <= len
                &&& all_digits(digits@.subrange(start as int, whole_end as int))
                &&& all_digits(digits@.subrange(fraction_start as int, fraction_end as int))
                &&& all_digits(digits@.subrange(exp_start as int, len))
                &&& numeral(digits@) == Some(
                    (
                        negative,
                        digits@.subrange(start as int, whole_end as int),
                        digits@.subrange(fraction_start as int, fraction_end as int),
                        exponent_value(exp_negative, digits@.subrange(exp_start as int, len)),
                    ),
                )
            },
            None => numeral(digits@) is None,
        },
        r is None ==> {
            let s = digits@;
            let start: int = if s.len() > 0 && (s[0] == '-' || s[0] == '+') {
                1
            } else {
                0
            };
            start <= s.len() && (names_non_finite(s) <==> {
                let u = s.subrange(start, s.len() as int);
                ||| u == seq!['i', 'n', 'f']
                ||| u == seq!['i', 'n', 'f', 'i', 'n', 'i', 't', 'y']
                ||| u == seq!['n', 'a', 'n']
            })
        },
{
    let len = digits.len();
    let negative = len > 0 && digits[0] == '-';
    let start: usize = if len > 0 && (digits[0] == '-' || digits[0] == '+') {
        1
    } else {
        0
    };
    let ghost u = digits@.subrange(start as int, len as int);
    assert(start == 1 ==> u =~= digits@.drop_first());
    assert(start == 0 ==> u =~= digits@);
    let (j1, has_dot, fraction_start, j2) = scan_mantissa(digits, start);
    let ghost m = j2 - start;
    let mantissa_ok = if has_dot {
        j2 - start >= 2
    } else {
        j2 > start
    };
    if j2 == len {
        assert(u.take(m) =~= u);
        if !mantissa_ok {
            return None;
        }
        assert(digits@.subrange(len as int, len as int) =~= Seq::<char>::empty());
        return Some((negative, start, j1, fraction_start, j2, false, len));
    }
    if digits[j2] != 'e' {
        assert(u[m] == digits@[j2 as int]);
        return None;
    }
    assert(u[m] == 'e');
    let (exp_ok, exp_negative, exp_start) = scan_exponent(digits, j2 + 1);
    assert(u.skip(m + 1) =~= digits@.subrange(j2 + 1, len as int));
    if !(mantissa_ok && exp_ok) {
        return None;
    }
    Some((negative, start, j1, fraction_start, j2, exp_negative, exp_start))
}

/// The span that a number writes in the unit `unit`: the digits of
/// `digits[start..whole_end]` `.` `digits[fraction_start..fraction_end]`
/// times ten to the exponent written at `digits[exp_start..]`.
fn numeral_span(
    digits: &Vec<char>,
    negative: bool,
    start: usize,
    whole_end: usize,
    fraction_start: usize,
    fraction_end: usize,
    exp_negative: bool,
    exp_start: usize,
    unit: u128,
) -> (r: Result<Duration, DurationError>)
    requires
        start <= whole_end <= fraction_start <= fraction_end <= exp_start <= digits@.len(),
        all_digits(digits@.subrange(start as int, whole_end as int)),
        all_digits(digits@.subrange(fraction_start as int, fraction_end as int)),
        all_digits(digits@.subrange(exp_start as int, digits@.len() as int)),
        1 <= unit <= NANOS_PER_HOUR,
    ensures
        ({
            let whole = digits@.subrange(start as int, whole_end as int);
            let fraction = digits@.subrange(fraction_start as int, fraction_end as int);
            let exponent = exponent_value(
                exp_negative,
                digits@.subrange(exp_start as int, digits@.len() as int),
            );
            let n = digits_value(whole + fraction);
            if negative && n != 0 {
                r == Err::<Duration, DurationError>(DurationError::NotNonNegative)
            } else {
                let v = scaled_nanos(n, unit as nat, fraction.len() - exponent);
                if v > MAX_NANOS {
                    r == Err::<Duration, DurationError>(DurationError::TooLarge)
                } else {
                    r matches Ok(d) && d@ == v
                }
            }
        }),
{
    let len = digits.len();
    let ghost whole = digits@.subrange(start as int, whole_end as int);
    let ghost fraction = digits@.subrange(fraction_start as int, fraction_end as int);
    let ghost n = digits_value(whole + fraction);
    let ghost exponent = exponent_value(
        exp_negative,
        digits@.subrange(exp_start as int, len as int),
    );
    let ghost d = fraction.len() - exponent;
    let k = fraction_end - fraction_start;
    let lw = whole_end - start;
    proof {
        lemma_digits_value_concat(whole, fraction);
        lemma_pow10_positive(fraction.len());
        assert(all_digits(whole + fraction)) by {
            assert forall|i: int| 0 <= i < (whole + fraction).len() implies is_digit(
                #[trigger] (whole + fraction)[i],
            ) by {
                if i < whole.len() {
                    assert(is_digit(whole[i]));
                } else {
                    assert(is_digit(fraction[i - whole.len()]));
                }
            }
        }
        lemma_digits_value_bound(whole + fraction);
    }
    let zero = writes_zero(digits, start, whole_end) && writes_zero(
        digits,
        fraction_start,
        fraction_end,
    );
    proof {
        let vw = digits_value(whole);
        let vf = digits_value(fraction);
        let p = pow10(fraction.len());
        assert(zero ==> vw == 0 && vf == 0);
        assert(n == 0 ==> vw == 0 && vf == 0) by (nonlinear_arith)
            requires
                n == vw * p + vf,
                p > 0,
        ;
        assert(vw == 0 && vf == 0 ==> n == 0) by (nonlinear_arith)
            requires
                n == vw * p + vf,
        ;
    }
    if zero {
        proof {
            if d <= 0 {
                let z = 0 * (unit as nat) * pow10((-d) as nat);
                assert(z == 0) by (nonlinear_arith)
                    requires
                        z == 0 * (unit as nat) * pow10((-d) as nat),
                ;
            } else {
                lemma_pow10_positive(d as nat);
                let pd = pow10(d as nat);
                assert(2 * 0 * (unit as nat) + pd == pd);
                vstd::arithmetic::div_mod::lemma_basic_div(pd as int, (2 * pd) as int);
            }
        }
        return Ok(Duration { nanos: 0 });
    }
    if negative {
        return Err(DurationError::NotNonNegative);
    }
    let ghost dd = whole + fraction;
    match whole_value(digits, exp_start, len) {
        None => {
            if exp_negative {
                proof {
                    lemma_scaled_vanishes(n, dd.len(), unit as nat, d);
                }
                Ok(Duration { nanos: 0 })
            } else {
                proof {
                    lemma_scaled_too_large(n, unit as nat, d);
                }
                Err(DurationError::TooLarge)
            }
        },
        Some(x) => {
            let e: i128 = if exp_negative {
                -(x as i128)
            } else {
                x as i128
            };
            assert(e == exponent);
            if e > k as i128 + 28 {
                proof {
                    lemma_scaled_too_large(n, unit as nat, d);
                }
                return Err(DurationError::TooLarge);
            }
            if e <= -(lw as i128 + 13) {
                proof {
                    lemma_scaled_vanishes(n, dd.len(), unit as nat, d);
                }
                return Ok(Duration { nanos: 0 });
            }
            // Move the point by the exponent, padding with zeros as needed.
            let p: i128 = lw as i128 + e;
            let total = lw + k;
            let mut shifted: Vec<char> = Vec::new();
            let q: usize;
            let ghost lead: nat;
            let ghost trail: nat;
            if p > total as i128 {
                let extra = (p - total as i128) as usize;
                push_range(&mut shifted, digits, start, whole_end);
                push_range(&mut shifted, digits, fraction_start, fraction_end);
                push_zeros(&mut shifted, extra);
                q = shifted.len();
                proof {
                    lead = 0;
                    trail = extra as nat;
                }
            } else if p >= 0 {
                push_range(&mut shifted, digits, start, whole_end);
                push_range(&mut shifted, digits, fraction_start, fraction_end);
                q = p as usize;
                proof {
                    lead = 0;
                    trail = 0;
                }
            } else {
                let before = (-p) as usize;
                push_zeros(&mut shifted, before);
                push_range(&mut shifted, digits, start, whole_end);
                push_range(&mut shifted, digits, fraction_start, fraction_end);
                q = 0;
                proof {
                    lead = before as nat;
                    trail = 0;
                }
            }
            proof {
                lemma_zeros_value(lead);
                lemma_zeros_value(trail);
                assert(shifted@ =~= zeros(lead) + dd + zeros(trail));
                lemma_shifted_rounding(dd, lead, trail, q as int, unit as nat, d);
                assert(all_digits(shifted@)) by {
                    assert forall|i: int| 0 <= i < shifted@.len() implies is_digit(
                        #[trigger] shifted@[i],
                    ) by {
                        if i < lead {
                            assert(zeros(lead)[i] == '0');
                        } else if i < lead + dd.len() {
                            assert(shifted@[i] == dd[i - lead]);
                        } else {
                            assert(zeros(trail)[i - lead - dd.len()] == '0');
                        }
                    }
                }
            }
            span_of_digits(&shifted, q, unit)
        },
    }
}

/// Reads a trimmed, lower-case number string in the unit `unit` (given in
/// nanoseconds) and gives the span it stands for.
fn numeral_duration(digits: &Vec<char>, unit: u128) -> (r: Result<Duration, DurationError>)
    requires
        unit == NANOS_PER_MILLI || unit == NANOS_PER_SEC || unit == NANOS_PER_MINUTE || unit
            == NANOS_PER_HOUR,
    ensures
        match numeral_nanos(digits@, unit as nat) {
            Ok(n) => r matches Ok(d) && d@ == n,
            Err(e) => r == Err::<Duration, DurationError>(e),
        },
{
    match scan_numeral(digits) {
        None => {
            let start: usize = if digits.len() > 0 && (digits[0] == '-' || digits[0] == '+') {
                1
            } else {
                0
            };
            if is_non_finite_word(digits, start) {
                Err(DurationError::NotNonNegative)
            } else {
                Err(DurationError::Malformed)
            }
        },
        Some((negative, start, whole_end, fraction_start, fraction_end, exp_negative, exp_start)) => {
            numeral_span(
                digits,
                negative,
                start,
                whole_end,
                fraction_start,
                fraction_end,
                exp_negative,
                exp_start,
                unit,
            )
        },
    }
}

/// Finds the unit suffix of a lower-case duration string: the length of the
/// text before it and the unit in nanoseconds.
fn split_unit(l: &Vec<char>) -> (r: (usize, u128))
    ensures
        r.0 <= l@.len(),
        unit_split(l@) == (l@.take(r.0 as int), r.1 as nat),
        r.1 == NANOS_PER_MILLI || r.1 == NANOS_PER_SEC || r.1 == NANOS_PER_MINUTE || r.1
            == NANOS_PER_HOUR,
{
    let n = l.len();
    if n >= 2 && l[n - 2] == 'm' && l[n - 1] == 's' {
        (n - 2, NANOS_PER_MILLI)
    } else if n >= 1 && l[n - 1] == 'h' {
        (n - 1, NANOS_PER_HOUR)
    } else if n >= 1 && l[n - 1] == 'm' {
        (n - 1, NANOS_PER_MINUTE)
    } else if n >= 1 && l[n - 1] == 's' {
        (n - 1, NANOS_PER_SEC)
    } else {
        assert(l@.take(n as int) =~= l@);
        (n, NANOS_PER_SEC)
    }
}

/// Parses a duration string: a number followed by a case-insensitive `ms`,
/// `s`, `m` or `h`, where a bare number is seconds. The number is written as
/// `f64` numbers are: fractional values such as `"1.5s"` and exponents such
/// as `"2.5e-1m"` are allowed. Whitespace around the whole string and
/// around the number is ignored. The span is rounded to the nearest
/// nanosecond.
pub fn parse_duration(input: &str) -> (r: Result<Duration, DurationError>)
    ensures
        match duration_of(input@) {
            Ok(n) => r matches Ok(d) && d@ == n,
            Err(e) => r == Err::<Duration, DurationError>(e),
        },
{
    let chars = chars_of(input);
    let (start, end) = trim_bounds(&chars);
    if start == end {
        return Err(DurationError::Empty);
    }
    let lower = lowercase_range(&chars, start, end);
    let (body_len, unit) = split_unit(&lower);
    let body = copy_range(&lower, 0, body_len);
    let (number_start, number_end) = trim_bounds(&body);
    if number_start == number_end {
        return Err(DurationError::MissingNumber);
    }
    let number = copy_range(&body, number_start, number_end);
    numeral_duration(&number, unit)
}

/// Duration strings are case-insensitive: a string reads the same as its
/// ASCII lower-case form (`"5M"` is `"5m"`, `"INF"` is `"inf"`).
pub proof fn lemma_case_insensitive(input: Seq<char>)
    ensures
        duration_of(ascii_lowercase(input)) == duration_of(input),
{
    let t = trim(input);
    lemma_trim_lowercase_commute(input);
    lemma_lowercase_idempotent(t);
}

/// A bare number is seconds: a duration string with no unit reads the same
/// as that string with `s` after it (`"10"` is `"10s"`, `" 2.5 "` is
/// `" 2.5 s"`).
pub proof fn lemma_bare_number_is_seconds(input: Seq<char>)
    requires
        trim(input).len() > 0,
        lower_char(trim(input).last()) != 'h',
        lower_char(trim(input).last()) != 'm',
        lower_char(trim(input).last()) != 's',
    ensures
        duration_of(input.push('s')) == duration_of(input),
{
    let x = input;
    let n = x.len() as int;
    lemma_trimmed_somewhere(x);
    let (a, b) = choose|a: int, b: int| trimmed_at(x, a, b);
    lemma_trim_at(x, a, b);
    let t = x.subrange(a, b);
    assert(t.len() > 0);
    assert(t.last() == x[b - 1]);
    // The string with `s` after it trims to `x[a..]` followed by `s`.
    let y = x.push('s');
    assert(trimmed_at(y, a, n + 1)) by {
        assert forall|i: int| 0 <= i < a implies is_space(#[trigger] y[i]) by {
            assert(y[i] == x[i]);
        }
        assert(y[a] == x[a]);
        assert(!is_space('s'));
    }
    lemma_trim_at(y, a, n + 1);
    let u = x.subrange(a, n);
    assert(y.subrange(a, n + 1) =~= u.push('s'));
    let lu = ascii_lowercase(u);
    assert(ascii_lowercase(u.push('s')) =~= lu.push('s'));
    // The character before that `s` is the last of the number or whitespace,
    // so the suffix is `s` alone.
    assert(lu.len() >= 1);
    assert(lu[lu.len() - 1] == lower_char(x[n - 1]));
    if b < n {
        assert(is_space(x[n - 1]));
        crate::text::lemma_lower_char_keeps_space(x[n - 1]);
    }
    assert(lu[lu.len() - 1] != 'm');
    assert(unit_split(lu.push('s')) == (lu, NANOS_PER_SEC as nat)) by {
        assert(lu.push('s').take(lu.len() as int) =~= lu);
    }
    // Its number is the trimmed input, in lower case.
    lemma_trim_lowercase_commute(u);
    assert(trimmed_at(u, 0, b - a)) by {
        assert forall|i: int| b - a <= i < u.len() implies is_space(#[trigger] u[i]) by {
            assert(u[i] == x[a + i]);
        }
        assert(u[0] == x[a]);
        assert(u[b - a - 1] == x[b - 1]);
    }
    lemma_trim_at(u, 0, b - a);
    assert(u.subrange(0, b - a) =~= t);
    // The string itself has no suffix, and its number is the same.
    let lt = ascii_lowercase(t);
    assert(lt.last() == lower_char(t.last()));
    assert(unit_split(lt) == (lt, NANOS_PER_SEC as nat));
    lemma_trim_lowercase_commute(t);
    assert(trimmed_at(t, 0, t.len() as int)) by {
        assert(t[0] == x[a]);
    }
    lemma_trim_at(t, 0, t.len() as int);
    assert(t.subrange(0, t.len() as int) =~= t);
}


/// Which suffix names which unit: `ms` milliseconds and `h` hours after
/// anything; `m` minutes and `s` seconds after anything but an `m`; and no
/// suffix at all (no `h`, `m` or `s` at the end) seconds.
pub proof fn lemma_unit_suffixes(l: Seq<char>)
    ensures
        unit_split(l + seq!['m', 's']) == (l, 1_000_000nat),
        unit_split(l.push('h')) == (l, 3_600_000_000_000nat),
        l.len() == 0 || l.last() != 'm' ==> unit_split(l.push('m')) == (l, 60_000_000_000nat),
        l.len() == 0 || l.last() != 'm' ==> unit_split(l.push('s')) == (l, 1_000_000_000nat),
        l.len() == 0 || (l.last() != 'h' && l.last() != 'm' && l.last() != 's') ==> unit_split(l)
            == (l, 1_000_000_000nat),
{
    let ms = l + seq!['m', 's'];
    assert(ms[ms.len() - 2] == 'm' && ms[ms.len() - 1] == 's');
    assert(ms.take(ms.len() - 2) =~= l);
    assert(l.push('h').take(l.len() as int) =~= l);
    assert(l.push('m').take(l.len() as int) =~= l);
    assert(l.push('s').take(l.len() as int) =~= l);
    if l.len() > 0 {
        assert(l.push('m')[l.len() - 1] == l.last());
        assert(l.push('s')[l.len() - 1] == l.last());
    }
}

/// A count that fits in a [`Duration`], or the error for one that does not.
pub open spec fn within_limit(n: nat) -> Result<nat, DurationError> {
    if n <= MAX_NANOS {
        Ok(n)
    } else {
        Err(DurationError::TooLarge)
    }
}

/// A plain run of digits is that many units.
proof fn lemma_integer_numeral(ds: Seq<char>, unit: nat)
    requires
        ds.len() > 0,
        all_digits(ds),
    ensures
        numeral_nanos(ds, unit) == within_limit(digits_value(ds) * unit),
{
    assert(is_digit(ds[0]));
    assert(unsigned_numeral(ds) == Some((ds, Seq::<char>::empty())));
    assert(scientific(ds) == Some((ds, Seq::<char>::empty(), 0int)));
    assert(ds + Seq::<char>::empty() =~= ds);
    let n = digits_value(ds);
    assert(pow10(0) == 1);
    assert(n * unit * pow10(0) == n * unit) by (nonlinear_arith)
        requires
            pow10(0) == 1,
    ;
}

/// A number whose trimmed form ends in a digit, followed by a lower-case
/// suffix of one or two letters, reads in lower case as `l` and the suffix,
/// where `l` ends in a digit or whitespace and trims to the number.
proof fn lemma_number_with_suffix(x: Seq<char>, sfx: Seq<char>) -> (l: Seq<char>)
    requires
        trim(x).len() > 0,
        is_digit(trim(x).last()),
        1 <= sfx.len() <= 2,
        forall|i: int| 0 <= i < sfx.len() ==> 'a' <= #[trigger] sfx[i] <= 'z',
    ensures
        ascii_lowercase(trim(x + sfx)) == l + sfx,
        l.len() > 0,
        l.last() != 'h' && l.last() != 'm' && l.last() != 's',
        trim(l) == ascii_lowercase(trim(x)),
{
    let n = x.len() as int;
    lemma_trimmed_somewhere(x);
    let (a, b) = choose|a: int, b: int| trimmed_at(x, a, b);
    lemma_trim_at(x, a, b);
    let t = x.subrange(a, b);
    assert(t.last() == x[b - 1]);
    let y = x + sfx;
    assert(trimmed_at(y, a, n + sfx.len())) by {
        assert forall|i: int| 0 <= i < a implies is_space(#[trigger] y[i]) by {
            assert(y[i] == x[i]);
        }
        assert(y[a] == x[a]);
        assert('a' <= y[n + sfx.len() - 1] <= 'z');
    }
    lemma_trim_at(y, a, n + sfx.len());
    let u = x.subrange(a, n);
    assert(y.subrange(a, n + sfx.len()) =~= u + sfx);
    let l = ascii_lowercase(u);
    assert(ascii_lowercase(sfx) =~= sfx);
    assert(ascii_lowercase(u + sfx) =~= l + sfx);
    assert(l.last() == lower_char(x[n - 1]));
    if b < n {
        assert(is_space(x[n - 1]));
        crate::text::lemma_lower_char_keeps_space(x[n - 1]);
    } else {
        assert(is_digit(x[n - 1]));
    }
    lemma_trim_lowercase_commute(u);
    assert(trimmed_at(u, 0, b - a)) by {
        assert forall|i: int| b - a <= i < u.len() implies is_space(#[trigger] u[i]) by {
            assert(u[i] == x[a + i]);
        }
        assert(u[0] == x[a]);
        assert(u[b - a - 1] == x[b - 1]);
    }
    lemma_trim_at(u, 0, b - a);
    assert(u.subrange(0, b - a) =~= t);
    l
}

/// A whole number of units means exactly that many: for a number written as
/// digits alone, with no suffix or with `s` it is that many seconds, with
/// `m` sixty times as many, with `h` 3600 times as many, and with `ms` a
/// thousandth as many, in nanoseconds, as long as that fits.
pub proof fn lemma_whole_numbers_of_units(x: Seq<char>)
    requires
        trim(x).len() > 0,
        all_digits(trim(x)),
    ensures
        duration_of(x) == within_limit(digits_value(trim(x)) * 1_000_000_000),
        duration_of(x.push('s')) == within_limit(digits_value(trim(x)) * 1_000_000_000),
        duration_of(x.push('m')) == within_limit(digits_value(trim(x)) * 60_000_000_000),
        duration_of(x.push('h')) == within_limit(digits_value(trim(x)) * 3_600_000_000_000),
        duration_of(x + seq!['m', 's']) == within_limit(digits_value(trim(x)) * 1_000_000),
{
    let t = trim(x);
    assert(is_digit(t[t.len() - 1]));
    assert(ascii_lowercase(t) =~= t) by {
        assert forall|i: int| 0 <= i < t.len() implies #[trigger] ascii_lowercase(t)[i] == t[i] by {
            assert(is_digit(t[i]));
        }
    }
    let v = digits_value(t);
    lemma_integer_numeral(t, 1_000_000_000);
    lemma_integer_numeral(t, 60_000_000_000);
    lemma_integer_numeral(t, 3_600_000_000_000);
    lemma_integer_numeral(t, 1_000_000);
    // With the suffix `s`.
    let ls = lemma_number_with_suffix(x, seq!['s']);
    lemma_unit_suffixes(ls);
    assert(x.push('s') =~= x + seq!['s']);
    assert(ls.push('s') =~= ls + seq!['s']);
    // With the suffix `m`.
    let lm = lemma_number_with_suffix(x, seq!['m']);
    lemma_unit_suffixes(lm);
    assert(x.push('m') =~= x + seq!['m']);
    assert(lm.push('m') =~= lm + seq!['m']);
    // With the suffix `h`.
    let lh = lemma_number_with_suffix(x, seq!['h']);
    lemma_unit_suffixes(lh);
    assert(x.push('h') =~= x + seq!['h']);
    assert(lh.push('h') =~= lh + seq!['h']);
    // With the suffix `ms`.
    let lms = lemma_number_with_suffix(x, seq!['m', 's']);
    lemma_unit_suffixes(lms);
    // With no suffix: as with `s`.
    lemma_bare_number_is_seconds(x);
}

/// `n * 10^-d` units in nanoseconds: exact when `d` is not positive, and
/// otherwise rounded to the nearest nanosecond, a half rounding up (the
/// result times `10^d` lies within half of `10^d` of `n` units, the half
/// itself rounding up).
pub proof fn lemma_rounding_is_to_the_nearest(n: nat, unit: nat, d: int)
    ensures
        d <= 0 ==> scaled_nanos(n, unit, d) == n * unit * pow10((-d) as nat),
        d > 0 ==> 2 * scaled_nanos(n, unit, d) * pow10(d as nat) <= 2 * n * unit + pow10(d as nat),
        d > 0 ==> 2 * n * unit + pow10(d as nat) < 2 * (scaled_nanos(n, unit, d) + 1) * pow10(
            d as nat,
        ),
{
    if d > 0 {
        let p = pow10(d as nat);
        lemma_pow10_positive(d as nat);
        let x = 2 * n * unit + p;
        vstd::arithmetic::div_mod::lemma_fundamental_div_mod(x as int, (2 * p) as int);
        let q = x / (2 * p);
        let r = x % (2 * p);
        assert(2 * q * p <= x < 2 * (q + 1) * p) by (nonlinear_arith)
            requires
                x == (2 * p) * q + r,
                0 <= r < 2 * p,
        ;
    }
}


/// The unsigned number `w.f`, digits around a point, and its shape.
proof fn lemma_point_numeral(w: Seq<char>, f: Seq<char>)
    requires
        all_digits(w),
        all_digits(f),
        w.len() + f.len() >= 1,
    ensures
        ({
            let u = w + seq!['.'] + f;
            &&& unsigned_numeral(u) == Some((w, f))
            &&& forall|i: int| 0 <= i < u.len() ==> is_digit(#[trigger] u[i]) || i == w.len()
            &&& u[w.len() as int] == '.'
            &&& u[0] != '-' && u[0] != '+'
        }),
{
    let u = w + seq!['.'] + f;
    let dot = w.len() as int;
    assert forall|i: int| 0 <= i < u.len() implies is_digit(#[trigger] u[i]) || i == dot by {
        if i < dot {
            assert(u[i] == w[i]);
        } else if i > dot {
            assert(u[i] == f[i - dot - 1]);
        }
    }
    lemma_mantissa_value(u, dot);
    assert(u.take(dot) =~= w);
    assert(u.skip(dot + 1) =~= f);
    if dot > 0 {
        assert(is_digit(u[0]));
    }
}

/// A number is read as written: the digits before and after the point, the
/// sign in front, and the exponent after an `e`, with its own sign.
pub proof fn lemma_numeral_parts(w: Seq<char>, f: Seq<char>, k: Seq<char>)
    requires
        all_digits(w),
        all_digits(f),
        all_digits(k),
        w.len() + f.len() >= 1,
        k.len() >= 1,
    ensures
        numeral(w + seq!['.'] + f) == Some((false, w, f, 0int)),
        numeral(seq!['-'] + (w + seq!['.'] + f)) == Some((true, w, f, 0int)),
        numeral(w + seq!['.'] + f + seq!['e'] + k) == Some((false, w, f, digits_value(k) as int)),
        numeral(w + seq!['.'] + f + seq!['e', '-'] + k) == Some(
            (false, w, f, -(digits_value(k) as int)),
        ),
        w.len() >= 1 ==> numeral(w) == Some((false, w, Seq::<char>::empty(), 0int)),
{
    let u = w + seq!['.'] + f;
    let m = u.len() as int;
    let dot = w.len() as int;
    lemma_point_numeral(w, f);
    // Without an exponent.
    lemma_scientific_shape(u, m, dot);
    assert((seq!['-'] + u).drop_first() =~= u);
    // With an exponent, of either sign.
    let up = u + seq!['e'] + k;
    let un = u + seq!['e', '-'] + k;
    assert forall|i: int| 0 <= i < m implies is_digit(#[trigger] up[i]) || i == dot by {
        assert(up[i] == u[i]);
    }
    assert forall|i: int| 0 <= i < m implies is_digit(#[trigger] un[i]) || i == dot by {
        assert(un[i] == u[i]);
    }
    assert(up[m] == 'e' && un[m] == 'e');
    assert(up[dot] == '.' && un[dot] == '.');
    lemma_scientific_shape(up, m, dot);
    lemma_scientific_shape(un, m, dot);
    assert(up.take(m) =~= u);
    assert(un.take(m) =~= u);
    assert(up.skip(m + 1) =~= k);
    assert(un.skip(m + 1) =~= seq!['-'] + k);
    assert((seq!['-'] + k).drop_first() =~= k);
    assert(is_digit(k[0]));
    assert(up[0] == u[0] && un[0] == u[0]);
    // Digits alone.
    if w.len() >= 1 {
        assert forall|i: int| 0 <= i < w.len() implies is_digit(#[trigger] w[i]) || i == -1 by {}
        lemma_mantissa_value(w, -1);
        lemma_scientific_shape(w, w.len() as int, -1);
        assert(is_digit(w[0]));
    }
}


/// What a number written with a point, and perhaps an exponent, comes to:
/// its digits `w` and `f` make the whole number `w f`, which is taken times
/// ten to the exponent less the count of digits after the point, in units,
/// and must fit; a negative number is refused unless it is zero, which
/// reads as no time at all.
pub proof fn lemma_number_value(w: Seq<char>, f: Seq<char>, k: Seq<char>, unit: nat)
    requires
        all_digits(w),
        all_digits(f),
        all_digits(k),
        w.len() + f.len() >= 1,
        k.len() >= 1,
    ensures
        numeral_nanos(w + seq!['.'] + f, unit) == within_limit(
            scaled_nanos(digits_value(w + f), unit, f.len() as int),
        ),
        numeral_nanos(w + seq!['.'] + f + seq!['e'] + k, unit) == within_limit(
            scaled_nanos(digits_value(w + f), unit, f.len() - digits_value(k)),
        ),
        numeral_nanos(w + seq!['.'] + f + seq!['e', '-'] + k, unit) == within_limit(
            scaled_nanos(digits_value(w + f), unit, f.len() + digits_value(k) as int),
        ),
        numeral_nanos(seq!['-'] + (w + seq!['.'] + f), unit) == if digits_value(w + f) == 0 {
            Ok::<nat, DurationError>(0)
        } else {
            Err(DurationError::NotNonNegative)
        },
{
    lemma_numeral_parts(w, f, k);
    let n = digits_value(w + f);
    let d = f.len() as int;
    if n == 0 {
        if d <= 0 {
            let z = 0 * unit * pow10((-d) as nat);
            assert(z == 0) by (nonlinear_arith)
                requires
                    z == 0 * unit * pow10((-d) as nat),
            ;
        } else {
            lemma_pow10_positive(d as nat);
            let pd = pow10(d as nat);
            assert(2 * 0 * unit + pd == pd);
            vstd::arithmetic::div_mod::lemma_basic_div(pd as int, (2 * pd) as int);
        }
        assert(scaled_nanos(0, unit, d) == 0);
    }
}

} // verus!
