use vstd::prelude::*;

use crate::error::{ConversionResult, ParseError, ParseErrorKind};
use crate::format::{convert_parts, convert_spec, valid_format, FPFormat};
use vstd::arithmetic::power2::pow2;
use vstd::string::StringSliceAdditionalSpecFns;

verus! {

// ASCII codes of the bytes that the grammar names.
pub const PLUS: u8 = 43;
pub const MINUS: u8 = 45;
pub const POINT: u8 = 46;
pub const DIGIT_0: u8 = 48;
pub const DIGIT_9: u8 = 57;
pub const UPPER_A: u8 = 65;
pub const UPPER_F: u8 = 70;
pub const UPPER_P: u8 = 80;
pub const UPPER_X: u8 = 88;
pub const LOWER_A: u8 = 97;
pub const LOWER_F: u8 = 102;
pub const LOWER_P: u8 = 112;
pub const LOWER_X: u8 = 120;

/// Whether `b` is an ASCII hexadecimal digit.
pub open spec fn is_hex_digit(b: u8) -> bool {
    (DIGIT_0 <= b <= DIGIT_9) || (LOWER_A <= b <= LOWER_F) || (UPPER_A <= b <= UPPER_F)
}

/// Whether `b` is an ASCII decimal digit.
pub open spec fn is_dec_digit(b: u8) -> bool {
    DIGIT_0 <= b <= DIGIT_9
}

/// Value (0 to 15) of an ASCII hexadecimal digit.
pub open spec fn hex_digit_value(b: u8) -> u8 {
    if DIGIT_0 <= b <= DIGIT_9 {
        (b - DIGIT_0) as u8
    } else if LOWER_A <= b <= LOWER_F {
        (b - LOWER_A + 10) as u8
    } else {
        (b - UPPER_A + 10) as u8
    }
}

/// Values of a string of ASCII hexadecimal digits.
pub open spec fn digit_values(s: Seq<u8>) -> Seq<u8> {
    s.map_values(|b: u8| hex_digit_value(b))
}

/// Length of the run of hexadecimal digits that starts at `i`.
pub open spec fn hex_run(d: Seq<u8>, i: int) -> nat
    decreases d.len() - i,
{
    if 0 <= i < d.len() && is_hex_digit(d[i]) {
        1 + hex_run(d, i + 1)
    } else {
        0
    }
}

/// Length of the run of decimal digits that starts at `i`.
pub open spec fn dec_run(d: Seq<u8>, i: int) -> nat
    decreases d.len() - i,
{
    if 0 <= i < d.len() && is_dec_digit(d[i]) {
        1 + dec_run(d, i + 1)
    } else {
        0
    }
}

/// Number of `'0'` bytes at the start of `s`.
pub open spec fn leading_zeros(s: Seq<u8>) -> nat
    decreases s.len(),
{
    if s.len() > 0 && s[0] == DIGIT_0 {
        1 + leading_zeros(s.drop_first())
    } else {
        0
    }
}

/// Number of `'0'` bytes at the end of `s`.
pub open spec fn trailing_zeros(s: Seq<u8>) -> nat
    decreases s.len(),
{
    if s.len() > 0 && s.last() == DIGIT_0 {
        1 + trailing_zeros(s.drop_last())
    } else {
        0
    }
}

/// Value of a string of decimal digits.
pub open spec fn dec_value(s: Seq<u8>) -> nat
    decreases s.len(),
{
    if s.len() == 0 {
        0
    } else {
        (dec_value(s.drop_last()) * 10 + (s.last() - DIGIT_0)) as nat
    }
}

/// Mathematical content of a parsed literal: the value is
/// `±0.d0 d1 d2 ... (hexadecimal) × 16^decimal_offset × 2^exponent`.
pub struct LiteralView {
    pub is_positive: bool,
    /// Significant hexadecimal digits as values 0 to 15, without leading or
    /// trailing zeros; empty for the value zero.
    pub digits: Seq<u8>,
    pub decimal_offset: int,
    pub exponent: int,
}

/// Whether a structural literal is in normal form.
pub open spec fn literal_wf(l: LiteralView) -> bool {
    &&& forall|i: int| 0 <= i < l.digits.len() ==> #[trigger] l.digits[i] < 16
    &&& l.digits.len() > 0 ==> l.digits[0] != 0 && l.digits.last() != 0
    &&& l.digits.len() == 0 ==> l.decimal_offset == 0
    &&& -(u64::MAX as int) <= l.decimal_offset <= u64::MAX
    &&& i32::MIN <= l.exponent <= i32::MAX
}

/// Length of the optional leading sign.
pub open spec fn sign_len(d: Seq<u8>) -> nat {
    if d.len() > 0 && (d[0] == PLUS || d[0] == MINUS) {
        1
    } else {
        0
    }
}

/// Parse of the exponent part that starts at `q` (at the marker, if any):
/// the exponent and the offset just after it, or the error.
pub open spec fn parse_exponent(d: Seq<u8>, q: int) -> Result<(int, int), ParseError> {
    if q < d.len() && (d[q] == LOWER_P || d[q] == UPPER_P) {
        let m = q + 1;
        let negative = m < d.len() && d[m] == MINUS;
        let s: int = if m < d.len() && (d[m] == PLUS || d[m] == MINUS) {
            1
        } else {
            0
        };
        let n = dec_run(d, m + s);
        let magnitude = dec_value(d.subrange(m + s, m + s + n));
        let e: int = if negative {
            -magnitude
        } else {
            magnitude as int
        };
        if n == 0 {
            Err(ParseError { kind: ParseErrorKind::MissingExponent, index: m as usize })
        } else if e < i32::MIN || e > i32::MAX {
            Err(ParseError { kind: ParseErrorKind::ExponentOverflow, index: m as usize })
        } else {
            Ok((e, m + s + n))
        }
    } else {
        Ok((0, q))
    }
}

/// What parsing the bytes `d` gives.
pub open spec fn parse_literal(d: Seq<u8>) -> Result<LiteralView, ParseError> {
    let s = sign_len(d) as int;
    if !(s + 2 <= d.len() && d[s] == DIGIT_0 && (d[s + 1] == LOWER_X || d[s + 1] == UPPER_X)) {
        Err(ParseError { kind: ParseErrorKind::MissingPrefix, index: 0 })
    } else {
        let i0 = s + 2;
        let ilen = hex_run(d, i0) as int;
        let p = i0 + ilen;
        let has_point = p < d.len() && d[p] == POINT;
        let f0 = if has_point {
            p + 1
        } else {
            p
        };
        let flen: int = if has_point {
            hex_run(d, f0) as int
        } else {
            0
        };
        let q = f0 + flen;
        if ilen + flen == 0 {
            Err(ParseError { kind: ParseErrorKind::MissingDigits, index: q as usize })
        } else {
            match parse_exponent(d, q) {
                Err(e) => Err(e),
                Ok((exponent, end)) => {
                    if end < d.len() {
                        Err(ParseError { kind: ParseErrorKind::MissingEnd, index: end as usize })
                    } else {
                        let raw = d.subrange(i0, p) + d.subrange(f0, q);
                        let lz = leading_zeros(raw);
                        let tz = trailing_zeros(raw);
                        let is_positive = !(d.len() > 0 && d[0] == MINUS);
                        if lz == raw.len() {
                            Ok(LiteralView { is_positive, digits: seq![], decimal_offset: 0, exponent })
                        } else {
                            Ok(
                                LiteralView {
                                    is_positive,
                                    digits: digit_values(raw.subrange(lz as int, raw.len() - tz)),
                                    decimal_offset: ilen - lz,
                                    exponent,
                                },
                            )
                        }
                    }
                },
            }
        }
    }
}

/// Determinism: the parse of a byte sequence depends on those bytes alone,
/// so parsing equal sequences gives equal literals, or equal errors with the
/// same kind and index. (`FloatLiteral::from_bytes` returns exactly
/// `parse_literal` of its input.)
pub proof fn lemma_parse_deterministic(a: Seq<u8>, b: Seq<u8>)
    requires
        a == b,
    ensures
        parse_literal(a) == parse_literal(b),
{
}

/// Whether `b` is an ASCII hexadecimal digit.
fn is_hex_byte(b: u8) -> (r: bool)
    ensures
        r == is_hex_digit(b),
{
    (DIGIT_0 <= b && b <= DIGIT_9) || (LOWER_A <= b && b <= LOWER_F) || (UPPER_A <= b && b <= UPPER_F)
}

/// Value of the ASCII hexadecimal digit `b`.
fn hex_digit_to_int(b: u8) -> (r: u8)
    requires
        is_hex_digit(b),
    ensures
        r == hex_digit_value(b),
        r < 16,
{
    if DIGIT_0 <= b && b <= DIGIT_9 {
        b - DIGIT_0
    } else if LOWER_A <= b && b <= LOWER_F {
        b - LOWER_A + 10
    } else {
        b - UPPER_A + 10
    }
}

/// End of the run of hexadecimal digits that starts at `start`.
fn consume_hex_digits(data: &[u8], start: usize) -> (end: usize)
    requires
        start <= data@.len(),
    ensures
        end == start + hex_run(data@, start as int),
        end <= data@.len(),
        forall|j: int| start <= j < end ==> is_hex_digit(#[trigger] data@[j]),
{
    let mut i = start;
    while i < data.len() && is_hex_byte(data[i])
        invariant
            start <= i <= data@.len(),
            hex_run(data@, start as int) == (i - start) + hex_run(data@, i as int),
            forall|j: int| start <= j < i ==> is_hex_digit(#[trigger] data@[j]),
        decreases data@.len() - i,
    {
        i = i + 1;
    }
    i
}

/// End of the run of decimal digits that starts at `start`.
fn consume_dec_digits(data: &[u8], start: usize) -> (end: usize)
    requires
        start <= data@.len(),
    ensures
        end == start + dec_run(data@, start as int),
        end <= data@.len(),
        forall|j: int| start <= j < end ==> is_dec_digit(#[trigger] data@[j]),
{
    let mut i = start;
    while i < data.len() && DIGIT_0 <= data[i] && data[i] <= DIGIT_9
        invariant
            start <= i <= data@.len(),
            dec_run(data@, start as int) == (i - start) + dec_run(data@, i as int),
            forall|j: int| start <= j < i ==> is_dec_digit(#[trigger] data@[j]),
        decreases data@.len() - i,
    {
        i = i + 1;
    }
    i
}

/// Magnitude of the most negative `i32`; every larger magnitude overflows.
const EXPONENT_LIMIT: u64 = 2147483648;

/// Parse the exponent part that starts at `q`, as `parse_exponent` says.
fn consume_exponent(data: &[u8], q: usize) -> (r: Result<(i32, usize), ParseError>)
    requires
        q <= data@.len(),
    ensures
        match r {
            Ok((e, end)) => parse_exponent(data@, q as int) == Ok::<(int, int), ParseError>(
                (e as int, end as int),
            ),
            Err(err) => parse_exponent(data@, q as int) == Err::<(int, int), ParseError>(err),
        },
{
    if !(q < data.len() && (data[q] == LOWER_P || data[q] == UPPER_P)) {
        return Ok((0, q));
    }
    let m = q + 1;
    let negative = m < data.len() && data[m] == MINUS;
    let s: usize = if m < data.len() && (data[m] == PLUS || data[m] == MINUS) {
        1
    } else {
        0
    };
    let e0 = m + s;
    let e1 = consume_dec_digits(data, e0);
    if e1 == e0 {
        return Err(ParseErrorKind::MissingExponent.at(m));
    }
    let mut acc: u64 = 0;
    let mut i = e0;
    while i < e1
        invariant
            e0 <= i <= e1 <= data@.len(),
            forall|j: int| e0 <= j < e1 ==> is_dec_digit(#[trigger] data@[j]),
            acc <= EXPONENT_LIMIT * 10 + 9,
            dec_value(data@.subrange(e0 as int, i as int)) <= EXPONENT_LIMIT ==> acc == dec_value(
                data@.subrange(e0 as int, i as int),
            ),
            dec_value(data@.subrange(e0 as int, i as int)) > EXPONENT_LIMIT ==> acc
                > EXPONENT_LIMIT,
        decreases e1 - i,
    {
        let ghost prev = data@.subrange(e0 as int, i as int);
        assert(data@.subrange(e0 as int, i + 1).drop_last() =~= prev);
        assert(is_dec_digit(data@[i as int]));
        if acc <= EXPONENT_LIMIT {
            acc = acc * 10 + (data[i] - DIGIT_0) as u64;
        }
        i = i + 1;
    }
    let magnitude = acc;
    if negative {
        if magnitude > EXPONENT_LIMIT {
            Err(ParseErrorKind::ExponentOverflow.at(m))
        } else {
            Ok(((0 - magnitude as i64) as i32, e1))
        }
    } else {
        if magnitude >= EXPONENT_LIMIT {
            Err(ParseErrorKind::ExponentOverflow.at(m))
        } else {
            Ok((magnitude as i32, e1))
        }
    }
}

/// The integer digits `data[i0..p]` followed by the fraction digits `data[f0..q]`.
fn collect_digits(data: &[u8], i0: usize, p: usize, f0: usize, q: usize) -> (raw: Vec<u8>)
    requires
        i0 <= p <= f0 <= q <= data@.len(),
    ensures
        raw@ == data@.subrange(i0 as int, p as int) + data@.subrange(f0 as int, q as int),
{
    let ghost d = data@;
    let mut raw: Vec<u8> = Vec::new();
    let mut i = i0;
    while i < p
        invariant
            i0 <= i <= p <= data@.len(),
            d == data@,
            raw@ == d.subrange(i0 as int, i as int),
        decreases p - i,
    {
        raw.push(data[i]);
        assert(d.subrange(i0 as int, i + 1) =~= d.subrange(i0 as int, i as int).push(d[i as int]));
        i = i + 1;
    }
    let mut j = f0;
    while j < q
        invariant
            f0 <= j <= q <= data@.len(),
            d == data@,
            raw@ == d.subrange(i0 as int, p as int) + d.subrange(f0 as int, j as int),
        decreases q - j,
    {
        raw.push(data[j]);
        assert(d.subrange(i0 as int, p as int) + d.subrange(f0 as int, j + 1) =~= (d.subrange(
            i0 as int,
            p as int,
        ) + d.subrange(f0 as int, j as int)).push(d[j as int]));
        j = j + 1;
    }
    raw
}

/// The values of the ASCII digits `raw` without leading and trailing zeros,
/// and the number of leading zeros.
fn significant_digits(raw: &Vec<u8>) -> (r: (Vec<u8>, usize))
    requires
        forall|t: int| 0 <= t < raw@.len() ==> is_hex_digit(#[trigger] raw@[t]),
    ensures
        r.1 == leading_zeros(raw@),
        r.1 <= raw@.len(),
        r.1 == raw@.len() ==> r.0@.len() == 0,
        r.1 < raw@.len() ==> r.0@ == digit_values(
            raw@.subrange(r.1 as int, raw@.len() - trailing_zeros(raw@)),
        ),
        r.1 < raw@.len() ==> r.0@.len() > 0 && r.0@[0] != 0 && r.0@.last() != 0,
        forall|t: int| 0 <= t < r.0@.len() ==> #[trigger] r.0@[t] < 16,
{
    let n = raw.len();
    assert(raw@.subrange(0, n as int) =~= raw@);
    let mut lz: usize = 0;
    while lz < n && raw[lz] == DIGIT_0
        invariant
            lz <= n == raw@.len(),
            leading_zeros(raw@) == lz + leading_zeros(raw@.subrange(lz as int, n as int)),
        decreases n - lz,
    {
        assert(raw@.subrange(lz as int, n as int).drop_first() =~= raw@.subrange(lz + 1, n as int));
        lz = lz + 1;
    }
    if lz == n {
        return (Vec::new(), lz);
    }
    let mut last = n;
    while raw[last - 1] == DIGIT_0
        invariant
            lz < last <= n == raw@.len(),
            raw@[lz as int] != DIGIT_0,
            trailing_zeros(raw@) == (n - last) + trailing_zeros(raw@.subrange(0, last as int)),
        decreases last,
    {
        assert(raw@.subrange(0, last as int).drop_last() =~= raw@.subrange(0, last - 1));
        last = last - 1;
    }
    let mut digits: Vec<u8> = Vec::new();
    let mut k = lz;
    while k < last
        invariant
            lz <= k <= last <= n == raw@.len(),
            forall|t: int| 0 <= t < raw@.len() ==> is_hex_digit(#[trigger] raw@[t]),
            digits@ == digit_values(raw@.subrange(lz as int, k as int)),
            forall|t: int| 0 <= t < digits@.len() ==> #[trigger] digits@[t] < 16,
        decreases last - k,
    {
        let v = hex_digit_to_int(raw[k]);
        assert(digit_values(raw@.subrange(lz as int, k + 1)) =~= digit_values(
            raw@.subrange(lz as int, k as int),
        ).push(v));
        digits.push(v);
        k = k + 1;
    }
    assert(digits@[0] == hex_digit_value(raw@[lz as int]));
    assert(digits@.last() == hex_digit_value(raw@[last - 1]));
    (digits, lz)
}

/// A parsed hexadecimal floating-point literal, ready to be converted to
/// a binary floating-point format of any width.
#[derive(Debug, Clone)]
pub struct FloatLiteral {
    is_positive: bool,
    // Values 0 to 15 of the significant digits, not their ASCII codes.
    digits: Vec<u8>,
    decimal_offset: i128,
    exponent: i32,
}

impl View for FloatLiteral {
    type V = LiteralView;

    closed spec fn view(&self) -> LiteralView {
        LiteralView {
            is_positive: self.is_positive,
            digits: self.digits@,
            decimal_offset: self.decimal_offset as int,
            exponent: self.exponent as int,
        }
    }
}

impl FloatLiteral {
    /// Whether the literal is in normal form.
    pub open spec fn wf(&self) -> bool {
        literal_wf(self@)
    }

    /// Convert the literal to the format `F` and say whether the conversion
    /// was exact.
    pub fn convert<F: FPFormat>(self) -> (r: ConversionResult<F>)
        requires
            self.wf(),
        ensures
            r.is_precise() == convert_spec(
                self@,
                F::exponent_bits(),
                F::mantissa_bits(),
            ).is_precise(),
            r.value().bits() == convert_spec(self@, F::exponent_bits(), F::mantissa_bits()).value(),
    {
        F::from_literal(self)
    }

    /// Convert the literal to the bit pattern of the binary format with
    /// `exponent_bits` exponent bits and `mantissa_bits` mantissa bits, after
    /// a sign bit. The leading sixteen digits are read into one 64-bit word,
    /// which holds at least 61 significant bits; the mantissa is therefore
    /// limited to 59 bits, so that a digit beyond those sixteen always lies
    /// below the significand (see `valid_format`).
    pub fn convert_bits(&self, exponent_bits: u32, mantissa_bits: u32) -> (r: ConversionResult<
        u64,
    >)
        requires
            self.wf(),
            valid_format(exponent_bits as nat, mantissa_bits as nat),
        ensures
            r.is_precise() == convert_spec(
                self@,
                exponent_bits as nat,
                mantissa_bits as nat,
            ).is_precise(),
            r.value() as nat == convert_spec(
                self@,
                exponent_bits as nat,
                mantissa_bits as nat,
            ).value(),
            r.value() < pow2((exponent_bits + mantissa_bits + 1) as nat),
    {
        convert_parts(
            self.is_positive,
            &self.digits,
            self.decimal_offset,
            self.exponent,
            exponent_bits,
            mantissa_bits,
        )
    }

    /// Parse bytes of the form `[+-]0x<hex>[.<hex>][p[+-]<dec>]` into a
    /// literal; the hexadecimal floating constant of C11 (6.4.4.2) with the
    /// exponent made optional and no floating suffix.
    #[verifier::rlimit(30)]
    pub fn from_bytes(data: &[u8]) -> (r: Result<FloatLiteral, ParseError>)
        ensures
            match r {
                Ok(l) => parse_literal(data@) == Ok::<LiteralView, ParseError>(l@) && l.wf(),
                Err(e) => parse_literal(data@) == Err::<LiteralView, ParseError>(e),
            },
    {
        let len = data.len();
        let s: usize = if len > 0 && (data[0] == PLUS || data[0] == MINUS) {
            1
        } else {
            0
        };
        let is_positive = !(len > 0 && data[0] == MINUS);
        if !(s + 2 <= len && data[s] == DIGIT_0 && (data[s + 1] == LOWER_X || data[s + 1]
            == UPPER_X)) {
            return Err(ParseErrorKind::MissingPrefix.at(0));
        }
        let i0 = s + 2;
        let p = consume_hex_digits(data, i0);
        let has_point = p < len && data[p] == POINT;
        let f0 = if has_point {
            p + 1
        } else {
            p
        };
        let q = if has_point {
            consume_hex_digits(data, f0)
        } else {
            p
        };
        if p == i0 && q == f0 {
            return Err(ParseErrorKind::MissingDigits.at(q));
        }
        let (exponent, end) = match consume_exponent(data, q) {
            Ok(x) => x,
            Err(e) => {
                return Err(e);
            },
        };
        if end < len {
            return Err(ParseErrorKind::MissingEnd.at(end));
        }
        let raw = collect_digits(data, i0, p, f0, q);
        assert forall|k: int| 0 <= k < raw@.len() implies is_hex_digit(#[trigger] raw@[k]) by {
            if k < p - i0 {
                assert(raw@[k] == data@[i0 + k]);
            } else {
                assert(raw@[k] == data@[f0 + k - (p - i0)]);
            }
        }
        let (digits, lz) = significant_digits(&raw);
        let decimal_offset: i128 = if digits.len() == 0 {
            0
        } else {
            (p - i0) as i128 - lz as i128
        };
        let r = FloatLiteral { is_positive, digits, decimal_offset, exponent };
        assert(parse_exponent(data@, q as int) == Ok::<(int, int), ParseError>(
            (exponent as int, end as int),
        ));
        assert(sign_len(data@) == s);
        assert(hex_run(data@, i0 as int) == p - i0);
        assert(r.wf());
        if lz == raw.len() {
            assert(r@.digits =~= seq![]);
        }
        Ok(r)
    }
}

impl core::str::FromStr for FloatLiteral {
    type Err = ParseError;

    /// Parse the bytes of `s`, as `FloatLiteral::from_bytes` does.
    fn from_str(s: &str) -> (r: Result<FloatLiteral, ParseError>)
        ensures
            match r {
                Ok(l) => parse_literal(s.spec_bytes()) == Ok::<LiteralView, ParseError>(l@) && l.wf(),
                Err(e) => parse_literal(s.spec_bytes()) == Err::<LiteralView, ParseError>(e),
            },
    {
        FloatLiteral::from_bytes(s.as_bytes())
    }
}

} // verus!
