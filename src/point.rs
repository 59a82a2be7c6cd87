//! Exact quantization of decimal coordinates to micro-degree integers.
use vstd::prelude::*;
use vstd::string::*;

use crate::error::Error;

verus! {

/// Degrees at or beyond this magnitude are out of range.
pub const LIMIT_DEGREES: u32 = 180;

/// Micro-degrees per degree.
pub const MICROS_PER_DEGREE: u32 = 1000000;

pub open spec fn is_digit(c: char) -> bool {
    '0' <= c && c <= '9'
}

pub open spec fn digit_value(c: char) -> nat {
    (c as int - '0' as int) as nat
}

pub open spec fn all_digits(s: Seq<char>) -> bool {
    forall|i: int| 0 <= i < s.len() ==> is_digit(#[trigger] s[i])
}

/// The number written by a string of decimal digits.
pub open spec fn digits_value(s: Seq<char>) -> nat
    decreases s.len(),
{
    if s.len() == 0 {
        0
    } else {
        digits_value(s.drop_last()) * 10 + digit_value(s.last())
    }
}

/// The first `n` digits of `s` read as a number, with missing digits taken as zero.
pub open spec fn leading_value(s: Seq<char>, n: nat) -> nat
    decreases n,
{
    if n == 0 {
        0
    } else {
        let d = if n - 1 < s.len() { digit_value(s[n - 1]) } else { 0 };
        leading_value(s, (n - 1) as nat) * 10 + d
    }
}

/// The number of digits that a string starts with.
pub open spec fn lead(s: Seq<char>) -> nat
    decreases s.len(),
{
    if s.len() > 0 && is_digit(s[0]) {
        1 + lead(s.drop_first())
    } else {
        0
    }
}

pub open spec fn is_negative(s: Seq<char>) -> bool {
    s.len() > 0 && s[0] == '-'
}

/// The text after an optional leading minus sign.
pub open spec fn unsigned_part(s: Seq<char>) -> Seq<char> {
    if is_negative(s) {
        s.drop_first()
    } else {
        s
    }
}

/// The digits before the decimal point.
pub open spec fn whole_digits(s: Seq<char>) -> Seq<char> {
    let b = unsigned_part(s);
    b.subrange(0, lead(b) as int)
}

/// The digits after the decimal point, empty where there is none.
pub open spec fn fraction_digits(s: Seq<char>) -> Seq<char> {
    let b = unsigned_part(s);
    if lead(b) < b.len() {
        b.subrange(lead(b) as int + 1, b.len() as int)
    } else {
        Seq::empty()
    }
}

/// `s` is a plain decimal number: an optional minus sign, one or more digits,
/// and optionally a decimal point followed by one or more digits.
pub open spec fn is_decimal(s: Seq<char>) -> bool {
    let b = unsigned_part(s);
    let w = lead(b);
    &&& w > 0
    &&& (w == b.len() || (b[w as int] == '.' && w + 1 < b.len() && all_digits(
        b.subrange(w as int + 1, b.len() as int),
    )))
}

/// The magnitude of a decimal number lies below the coordinate limit.
pub open spec fn in_range(s: Seq<char>) -> bool {
    digits_value(whole_digits(s)) < LIMIT_DEGREES
}

/// The magnitude of `s` times one million, truncated.
pub open spec fn quantized_magnitude(s: Seq<char>) -> nat {
    (digits_value(whole_digits(s)) * MICROS_PER_DEGREE + leading_value(fraction_digits(s), 6)) as nat
}

/// `s` times one million, truncated toward zero.
pub open spec fn quantized(s: Seq<char>) -> int {
    if is_negative(s) {
        -quantized_magnitude(s)
    } else {
        quantized_magnitude(s) as int
    }
}

/// What quantizing the text `s` gives.
pub open spec fn quantize_spec(s: Seq<char>) -> Result<GeoScalar, Error> {
    if !is_decimal(s) {
        Err(Error::MalformedCoordinate)
    } else if !in_range(s) {
        Err(Error::CoordinateOutOfRange)
    } else {
        Ok(GeoScalar(quantized(s) as i32))
    }
}

/// A coordinate axis value in millionths of a degree.
#[derive(Clone, Copy, Debug, PartialEq, Eq, PartialOrd, Ord, Hash, Structural)]
pub struct GeoScalar(pub i32);

/// A quantized vertex: latitude first, then longitude.
#[derive(Clone, Copy, Debug, PartialEq, Eq, PartialOrd, Ord, Hash, Structural)]
pub struct GeometryPoint(pub GeoScalar, pub GeoScalar);

proof fn lemma_lead_prefix(s: Seq<char>, i: int)
    requires
        0 <= i <= s.len(),
        all_digits(s.subrange(0, i)),
        i == s.len() || !is_digit(s[i]),
    ensures
        lead(s) == i,
    decreases i,
{
    if i > 0 {
        assert(is_digit(s.subrange(0, i)[0]));
        assert(s.drop_first().subrange(0, i - 1) =~= s.subrange(0, i).drop_first());
        assert forall|k: int| 0 <= k < i - 1 implies is_digit(
            #[trigger] s.drop_first().subrange(0, i - 1)[k],
        ) by {
            assert(s.subrange(0, i)[k + 1] == s.drop_first().subrange(0, i - 1)[k]);
        }
        lemma_lead_prefix(s.drop_first(), i - 1);
    }
}

proof fn lemma_digits_value_push(s: Seq<char>, c: char)
    ensures
        digits_value(s.push(c)) == digits_value(s) * 10 + digit_value(c),
{
    assert(s.push(c).drop_last() =~= s);
}

proof fn lemma_leading_value_bound(s: Seq<char>, n: nat)
    requires
        all_digits(s),
    ensures
        leading_value(s, n) < pow10(n),
    decreases n,
{
    if n > 0 {
        lemma_leading_value_bound(s, (n - 1) as nat);
        if n - 1 < s.len() {
            assert(is_digit(s[n - 1]));
        }
    }
}

pub open spec fn pow10(n: nat) -> nat
    decreases n,
{
    if n == 0 {
        1
    } else {
        10 * pow10((n - 1) as nat)
    }
}

fn char_digit(c: char) -> (r: u32)
    requires
        is_digit(c),
    ensures
        r == digit_value(c),
        r < 10,
{
    (c as u32) - ('0' as u32)
}

fn is_digit_char(c: char) -> (r: bool)
    ensures
        r == is_digit(c),
{
    '0' <= c && c <= '9'
}

impl GeoScalar {
    /// Quantizes a coordinate written in decimal (`"-37.172718"`) to
    /// millionths of a degree, truncating toward zero.
    ///
    /// Fails with `MalformedCoordinate` where the text is not a plain decimal
    /// number, and with `CoordinateOutOfRange` where its magnitude is 180 or more.
    pub fn from_decimal(text: &str) -> (r: Result<GeoScalar, Error>)
        ensures
            r == quantize_spec(text@),
    {
        let n = text.unicode_len();
        let negative = n > 0 && text.get_char(0) == '-';
        let start: usize = if negative { 1 } else { 0 };
        let ghost s = text@;
        let ghost b = unsigned_part(s);
        assert(b =~= s.subrange(start as int, n as int));
        // Whole degrees, capped at the limit.
        let mut whole: u32 = 0;
        let mut i: usize = start;
        while i < n && is_digit_char(text.get_char(i))
            invariant
                start <= i <= n,
                s == text@,
                n == s.len(),
                b =~= s.subrange(start as int, n as int),
                b == unsigned_part(s),
                all_digits(b.subrange(0, i - start)),
                whole == if digits_value(b.subrange(0, i - start)) < LIMIT_DEGREES {
                    digits_value(b.subrange(0, i - start))
                } else {
                    LIMIT_DEGREES as nat
                },
            decreases n - i,
        {
            let d = char_digit(text.get_char(i));
            proof {
                assert(b.subrange(0, i + 1 - start) =~= b.subrange(0, i - start).push(s[i as int]));
                lemma_digits_value_push(b.subrange(0, i - start), s[i as int]);
            }
            whole = if whole >= LIMIT_DEGREES {
                LIMIT_DEGREES
            } else {
                let v = whole * 10 + d;
                if v >= LIMIT_DEGREES {
                    LIMIT_DEGREES
                } else {
                    v
                }
            };
            i = i + 1;
        }
        proof {
            lemma_lead_prefix(b, i - start);
            assert(whole_digits(s) =~= b.subrange(0, i - start));
        }
        if i == start {
            return Err(Error::MalformedCoordinate);
        }
        // Fraction: the first six digits, padded with zeros.
        let mut micros: u32 = 0;
        if i < n {
            if text.get_char(i) != '.' || i + 1 == n {
                return Err(Error::MalformedCoordinate);
            }
            let ghost f = b.subrange(i + 1 - start, b.len() as int);
            assert(f =~= fraction_digits(s));
            let first = i + 1;
            let mut j: usize = first;
            while j < n
                invariant
                    first <= j <= n,
                    s == text@,
                    n == s.len(),
                    first > start,
                    lead(b) == first - 1 - start,
                    b =~= s.subrange(start as int, n as int),
                    b == unsigned_part(s),
                    f =~= b.subrange(first - start, b.len() as int),
                    all_digits(f.subrange(0, j - first)),
                    micros == leading_value(f, if j - first < 6 { (j - first) as nat } else { 6 }),
                    micros < pow10(if j - first < 6 { (j - first) as nat } else { 6 }),
                decreases n - j,
            {
                let c = text.get_char(j);
                if !is_digit_char(c) {
                    proof {
                        assert(f[j - first] == c);
                        assert(!is_digit(f[j - first]));
                        assert(lead(b) == first - 1 - start);
                        assert(!all_digits(f));
                        assert(f =~= b.subrange(lead(b) as int + 1, b.len() as int));
                        assert(b.len() > lead(b));
                        assert(!is_decimal(s));
                    }
                    return Err(Error::MalformedCoordinate);
                }
                if j - first < 6 {
                    proof {
                        lemma_pow10_small((j - first) as nat);
                    }
                    micros = micros * 10 + char_digit(c);
                }
                proof {
                    assert(f[j - first] == c);
                    assert forall|k: int| 0 <= k < j + 1 - first implies is_digit(
                        #[trigger] f.subrange(0, j + 1 - first)[k],
                    ) by {
                        if k < j - first {
                            assert(f.subrange(0, j - first)[k] == f.subrange(0, j + 1 - first)[k]);
                        }
                    }
                }
                j = j + 1;
            }
            assert(f.subrange(0, j - first) =~= f);
            let mut k: usize = j - first;
            while k < 6
                invariant
                    j - first <= k,
                    k <= 6 || k == j - first,
                    j - first == f.len(),
                    micros == leading_value(f, if k < 6 { k as nat } else { 6 }),
                    micros < pow10(if k < 6 { k as nat } else { 6 }),
                decreases 6 - k,
            {
                proof {
                    lemma_pow10_small(k as nat);
                }
                micros = micros * 10;
                k = k + 1;
            }
        } else {
            assert(fraction_digits(s) =~= Seq::<char>::empty());
            proof {
                lemma_leading_zero(fraction_digits(s), 6);
            }
        }
        assert(is_decimal(s));
        if whole >= LIMIT_DEGREES {
            return Err(Error::CoordinateOutOfRange);
        }
        assert(micros < 1000000) by {
            lemma_pow10_six();
        }
        let magnitude: i32 = (whole * MICROS_PER_DEGREE + micros) as i32;
        if negative {
            Ok(GeoScalar(-magnitude))
        } else {
            Ok(GeoScalar(magnitude))
        }
    }
}

/// What quantizing a vertex written as (longitude, latitude) gives: the
/// latitude is read first, and the first failure is reported.
pub open spec fn point_spec(lon: Seq<char>, lat: Seq<char>) -> Result<GeometryPoint, Error> {
    match quantize_spec(lat) {
        Err(e) => Err(e),
        Ok(y) => match quantize_spec(lon) {
            Err(e) => Err(e),
            Ok(x) => Ok(GeometryPoint(y, x)),
        },
    }
}

/// The integer key of a point: latitude and longitude offset to be
/// non-negative and packed into one 64-bit value.
pub open spec fn key_of(p: GeometryPoint) -> u64 {
    ((p.0.0 as int + 0x8000_0000) * 0x1_0000_0000 + (p.1.0 as int + 0x8000_0000)) as u64
}

/// Distinct points have distinct keys.
pub proof fn lemma_key_injective(p: GeometryPoint, q: GeometryPoint)
    ensures
        key_of(p) == key_of(q) <==> p == q,
{
    let a1 = p.0.0 as int + 0x8000_0000;
    let b1 = p.1.0 as int + 0x8000_0000;
    let a2 = q.0.0 as int + 0x8000_0000;
    let b2 = q.1.0 as int + 0x8000_0000;
    assert(0 <= a1 * 0x1_0000_0000 + b1 < 0x1_0000_0000_0000_0000) by (nonlinear_arith)
        requires
            0 <= a1 < 0x1_0000_0000,
            0 <= b1 < 0x1_0000_0000,
    ;
    assert(0 <= a2 * 0x1_0000_0000 + b2 < 0x1_0000_0000_0000_0000) by (nonlinear_arith)
        requires
            0 <= a2 < 0x1_0000_0000,
            0 <= b2 < 0x1_0000_0000,
    ;
    if a1 * 0x1_0000_0000 + b1 == a2 * 0x1_0000_0000 + b2 {
        assert(a1 == a2 && b1 == b2) by (nonlinear_arith)
            requires
                a1 * 0x1_0000_0000 + b1 == a2 * 0x1_0000_0000 + b2,
                0 <= b1 < 0x1_0000_0000,
                0 <= b2 < 0x1_0000_0000,
        ;
    }
}

impl GeometryPoint {
    /// Quantizes a vertex given as decimal (longitude, latitude).
    pub fn from_decimal(lon: &str, lat: &str) -> (r: Result<GeometryPoint, Error>)
        ensures
            r == point_spec(lon@, lat@),
    {
        let y = GeoScalar::from_decimal(lat)?;
        let x = GeoScalar::from_decimal(lon)?;
        Ok(GeometryPoint(y, x))
    }

    /// The point's integer key (see `key_of`).
    pub fn key(&self) -> (r: u64)
        ensures
            r == key_of(*self),
    {
        let hi = (self.0.0 as i64 + 0x8000_0000) as u64;
        let lo = (self.1.0 as i64 + 0x8000_0000) as u64;
        assert(hi * 0x1_0000_0000 + lo < 0x1_0000_0000_0000_0000) by (nonlinear_arith)
            requires
                hi < 0x1_0000_0000,
                lo < 0x1_0000_0000,
        ;
        hi * 0x1_0000_0000 + lo
    }
}

/// The exact magnitude of a decimal number is
/// `magnitude_numerator(s) / magnitude_denominator(s)`.
pub open spec fn magnitude_numerator(s: Seq<char>) -> nat {
    digits_value(whole_digits(s)) * pow10(fraction_digits(s).len()) + digits_value(
        fraction_digits(s),
    )
}

pub open spec fn magnitude_denominator(s: Seq<char>) -> nat {
    pow10(fraction_digits(s).len())
}

/// Out-of-range rejection: a decimal number of magnitude 180 or more, and
/// no other, fails to quantize with `CoordinateOutOfRange`.
pub proof fn lemma_out_of_range_rejected(s: Seq<char>)
    requires
        is_decimal(s),
    ensures
        (magnitude_numerator(s) >= LIMIT_DEGREES * magnitude_denominator(s)) <==> quantize_spec(s)
            == Err::<GeoScalar, Error>(Error::CoordinateOutOfRange),
        (magnitude_numerator(s) < LIMIT_DEGREES * magnitude_denominator(s)) <==> quantize_spec(s) is Ok,
{
    let f = fraction_digits(s);
    lemma_fraction_digits(s);
    lemma_digits_bound(f);
    let w = digits_value(whole_digits(s));
    let v = digits_value(f);
    let d = pow10(f.len());
    assert(w >= 180 <==> w * d + v >= 180 * d) by (nonlinear_arith)
        requires
            0 <= v < d,
            w >= 0,
    ;
}

/// Quantization round trip: for a decimal number within range, the
/// quantized value divided by one million is within a millionth of the
/// number. In exact terms, with `x = num / den` the magnitude and `q` the
/// quantized magnitude: `q * den <= num * 10^6 < (q + 1) * den`, and `q`
/// carries the sign of the number.
pub proof fn lemma_quantize_round_trip(s: Seq<char>)
    requires
        is_decimal(s),
        in_range(s),
    ensures
        quantize_spec(s) == Ok::<GeoScalar, Error>(GeoScalar(quantized(s) as i32)),
        quantized(s) == if is_negative(s) {
            -quantized_magnitude(s)
        } else {
            quantized_magnitude(s) as int
        },
        quantized_magnitude(s) * magnitude_denominator(s) <= magnitude_numerator(s) * MICROS_PER_DEGREE,
        magnitude_numerator(s) * MICROS_PER_DEGREE < (quantized_magnitude(s) + 1)
            * magnitude_denominator(s),
{
    let f = fraction_digits(s);
    lemma_fraction_digits(s);
    lemma_pow10_six();
    lemma_leading_bounds(f);
    let w = digits_value(whole_digits(s));
    let v = digits_value(f);
    let d = pow10(f.len());
    let l = leading_value(f, 6);
    assert(w * 1000000 + l < 0x8000_0000) by (nonlinear_arith)
        requires
            w < 180,
            l < 1000000,
    ;
    assert((w * 1000000 + l) * d <= (w * d + v) * 1000000) by (nonlinear_arith)
        requires
            l * d <= v * 1000000,
    ;
    assert((w * d + v) * 1000000 < (w * 1000000 + l + 1) * d) by (nonlinear_arith)
        requires
            v * 1000000 < (l + 1) * d,
    ;
}

/// The fraction digits of a decimal number are all digits.
proof fn lemma_fraction_digits(s: Seq<char>)
    requires
        is_decimal(s),
    ensures
        all_digits(fraction_digits(s)),
        leading_value(fraction_digits(s), 6) < 1000000,
{
    lemma_pow10_six();
    lemma_leading_value_bound(fraction_digits(s), 6);
}

proof fn lemma_pow10_positive(n: nat)
    ensures
        pow10(n) >= 1,
    decreases n,
{
    if n > 0 {
        lemma_pow10_positive((n - 1) as nat);
    }
}

proof fn lemma_pow10_add(a: nat, b: nat)
    ensures
        pow10(a + b) == pow10(a) * pow10(b),
    decreases b,
{
    if b == 0 {
        assert(pow10(0) == 1);
        assert(a + b == a);
    } else {
        lemma_pow10_add(a, (b - 1) as nat);
        assert(pow10(a + b) == 10 * pow10((a + b - 1) as nat));
        assert(pow10(b) == 10 * pow10((b - 1) as nat));
        assert((a + b - 1) as nat == a + (b - 1) as nat);
        assert(10 * (pow10(a) * pow10((b - 1) as nat)) == pow10(a) * (10 * pow10((b - 1) as nat)))
            by (nonlinear_arith);
    }
}

proof fn lemma_digits_bound(s: Seq<char>)
    requires
        all_digits(s),
    ensures
        digits_value(s) < pow10(s.len()),
    decreases s.len(),
{
    if s.len() > 0 {
        let t = s.drop_last();
        assert(all_digits(t)) by {
            assert forall|i: int| 0 <= i < t.len() implies is_digit(#[trigger] t[i]) by {
                assert(t[i] == s[i]);
            }
        }
        lemma_digits_bound(t);
        assert(is_digit(s[s.len() - 1]));
    }
}

proof fn lemma_digits_append(a: Seq<char>, b: Seq<char>)
    ensures
        digits_value(a + b) == digits_value(a) * pow10(b.len()) + digits_value(b),
    decreases b.len(),
{
    if b.len() == 0 {
        assert(a + b =~= a);
        assert(pow10(0) == 1);
        assert(digits_value(b) == 0);
    } else {
        let b2 = b.drop_last();
        assert((a + b).drop_last() =~= a + b2);
        assert((a + b).last() == b.last());
        assert(pow10(b.len()) == 10 * pow10(b2.len()));
        assert(digits_value(b) == digits_value(b2) * 10 + digit_value(b.last()));
        lemma_digits_append(a, b2);
        let x = digits_value(a);
        let p = pow10(b2.len());
        let y = digits_value(b2);
        assert((x * p + y) * 10 == x * (10 * p) + y * 10) by (nonlinear_arith);
    }
}

/// The first `n` digits read as a number are the prefix's value, where `f`
/// has `n` digits or more.
proof fn lemma_leading_prefix(f: Seq<char>, n: nat)
    requires
        n <= f.len(),
    ensures
        leading_value(f, n) == digits_value(f.subrange(0, n as int)),
    decreases n,
{
    if n > 0 {
        lemma_leading_prefix(f, (n - 1) as nat);
        assert(f.subrange(0, n as int).drop_last() =~= f.subrange(0, n - 1));
    } else {
        assert(f.subrange(0, 0) =~= Seq::<char>::empty());
    }
}

/// Reading more digits than `f` has pads it with zeros.
proof fn lemma_leading_pad(f: Seq<char>, n: nat)
    requires
        n >= f.len(),
    ensures
        leading_value(f, n) == digits_value(f) * pow10((n - f.len()) as nat),
    decreases n,
{
    if n == f.len() {
        lemma_leading_prefix(f, n);
        assert(f.subrange(0, n as int) =~= f);
        assert(leading_value(f, n) == digits_value(f));
        assert((n - f.len()) as nat == 0);
        assert(pow10(0) == 1);
        assert(digits_value(f) * pow10(0) == digits_value(f));
    } else {
        lemma_leading_pad(f, (n - 1) as nat);
        let x = digits_value(f);
        let p = pow10((n - 1 - f.len()) as nat);
        assert(leading_value(f, n) == leading_value(f, (n - 1) as nat) * 10);
        assert(leading_value(f, (n - 1) as nat) == x * p);
        assert(pow10((n - f.len()) as nat) == 10 * p) by {
            assert(((n - f.len()) as nat - 1) as nat == (n - 1 - f.len()) as nat);
        }
        assert(x * p * 10 == x * (10 * p)) by (nonlinear_arith);
        assert(leading_value(f, n) == x * pow10((n - f.len()) as nat));
    }
}

/// Truncating a fraction to six digits: `l * 10^|f| <= v * 10^6 < (l + 1) * 10^|f|`
/// where `v` is the value of all of `f` and `l` that of its first six digits.
proof fn lemma_leading_bounds(f: Seq<char>)
    requires
        all_digits(f),
    ensures
        leading_value(f, 6) * pow10(f.len()) <= digits_value(f) * 1000000,
        digits_value(f) * 1000000 < (leading_value(f, 6) + 1) * pow10(f.len()),
{
    lemma_pow10_six();
    lemma_pow10_positive(f.len());
    let v = digits_value(f);
    let d = pow10(f.len());
    if f.len() <= 6 {
        lemma_leading_pad(f, 6);
        lemma_pow10_add((6 - f.len()) as nat, f.len());
        let p = pow10((6 - f.len()) as nat);
        assert(v * p * d == v * 1000000) by (nonlinear_arith)
            requires
                p * d == 1000000,
        ;
        assert(v * 1000000 < (v * p + 1) * d) by (nonlinear_arith)
            requires
                p * d == 1000000,
                d >= 1,
        ;
    } else {
        let head = f.subrange(0, 6);
        let rest = f.subrange(6, f.len() as int);
        assert(f =~= head + rest);
        lemma_digits_append(head, rest);
        lemma_leading_prefix(f, 6);
        assert(all_digits(rest)) by {
            assert forall|i: int| 0 <= i < rest.len() implies is_digit(#[trigger] rest[i]) by {
                assert(rest[i] == f[i + 6]);
            }
        }
        lemma_digits_bound(rest);
        lemma_pow10_add(6, rest.len());
        let l = digits_value(head);
        let r = digits_value(rest);
        let q = pow10(rest.len());
        assert(l * (1000000 * q) <= (l * q + r) * 1000000) by (nonlinear_arith)
            requires
                r >= 0,
        ;
        assert((l * q + r) * 1000000 < (l + 1) * (1000000 * q)) by (nonlinear_arith)
            requires
                r < q,
        ;
    }
}

proof fn lemma_pow10_six()
    ensures
        pow10(0) == 1,
        pow10(1) == 10,
        pow10(2) == 100,
        pow10(3) == 1000,
        pow10(4) == 10000,
        pow10(5) == 100000,
        pow10(6) == 1000000,
{
    assert(pow10(0) == 1);
    assert(pow10(1) == 10);
    assert(pow10(2) == 100);
    assert(pow10(3) == 1000);
    assert(pow10(4) == 10000);
    assert(pow10(5) == 100000);
}

proof fn lemma_pow10_small(k: nat)
    requires
        k <= 5,
    ensures
        pow10(k) <= 100000,
        pow10(k + 1) == 10 * pow10(k),
{
    lemma_pow10_six();
    if k == 0 {
    } else if k == 1 {
    } else if k == 2 {
    } else if k == 3 {
    } else if k == 4 {
    } else {
        assert(k == 5);
    }
}

proof fn lemma_leading_zero(s: Seq<char>, n: nat)
    requires
        s.len() == 0,
    ensures
        leading_value(s, n) == 0,
    decreases n,
{
    if n > 0 {
        lemma_leading_zero(s, (n - 1) as nat);
    }
}

} // verus!
