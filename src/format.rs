use vstd::arithmetic::div_mod::{
    lemma_div_denominator, lemma_div_is_ordered, lemma_fundamental_div_mod_converse,
    lemma_mod_mod, lemma_multiply_divide_lt,
};
use vstd::arithmetic::mul::{lemma_mul_inequality, lemma_mul_strict_inequality};
use vstd::arithmetic::power2::{
    lemma_pow2_adds, lemma_pow2_pos, lemma_pow2_strictly_increases, lemma_pow2_unfold, pow2,
};
use vstd::prelude::*;

use crate::error::ConversionResult;
use crate::literal::{FloatLiteral, LiteralView};

verus! {

/// The hexadecimal digits `d` (values 0 to 15) read as one integer.
pub open spec fn hex_value(d: Seq<u8>) -> nat
    decreases d.len(),
{
    if d.len() == 0 {
        0
    } else {
        hex_value(d.drop_last()) * 16 + d.last() as nat
    }
}

/// Number of bits in the binary representation of `n` (0 for 0).
pub open spec fn bit_len(n: nat) -> nat
    decreases n,
{
    if n == 0 {
        0
    } else {
        1 + bit_len(n / 2)
    }
}

/// The leading `m + 1` bits of `n`, the rest truncated: `n` scaled into
/// `[2^m, 2^(m+1))`, rounding toward zero.
pub open spec fn significand(n: nat, m: nat) -> nat {
    let l = bit_len(n);
    if l <= m + 1 {
        n * pow2((m + 1 - l) as nat)
    } else {
        n / pow2((l - (m + 1)) as nat)
    }
}

/// Whether `n` has no set bit below its leading `m + 1` bits.
pub open spec fn fits_significand(n: nat, m: nat) -> bool {
    let l = bit_len(n);
    l <= m + 1 || n % pow2((l - (m + 1)) as nat) == 0
}

/// Whether `e` exponent bits and `m` mantissa bits, with a sign bit, make a
/// binary format that the converter handles: at most 64 bits wide, and at
/// most 59 mantissa bits, because the converter reads the leading sixteen
/// digits (at least 61 significant bits) into one 64-bit word and needs every
/// further digit to fall below the significand.
pub open spec fn valid_format(e: nat, m: nat) -> bool {
    2 <= e && m <= 59 && e + m <= 63
}

/// Exponent bias of a format with `e` exponent bits.
pub open spec fn bias(e: nat) -> int {
    pow2((e - 1) as nat) - 1
}

/// Smallest exponent of a normal number.
pub open spec fn min_exponent(e: nat) -> int {
    1 - bias(e)
}

/// Largest exponent of a finite number.
pub open spec fn max_exponent(e: nat) -> int {
    bias(e)
}

/// The significant digits of a literal as one integer: the literal's value
/// is `± literal_integer(l) × 2^literal_scale(l)`.
pub open spec fn literal_integer(l: LiteralView) -> nat {
    hex_value(l.digits)
}

/// Power of two that scales `literal_integer(l)` to the literal's value.
pub open spec fn literal_scale(l: LiteralView) -> int {
    4 * (l.decimal_offset - l.digits.len()) + l.exponent
}

/// Binary exponent of the leading set bit of a non-zero literal's value.
pub open spec fn leading_exponent(l: LiteralView) -> int {
    bit_len(literal_integer(l)) - 1 + literal_scale(l)
}

/// The sign bit, in place, of a format with `e` exponent and `m` mantissa bits.
pub open spec fn sign_field(l: LiteralView, e: nat, m: nat) -> nat {
    if l.is_positive {
        0
    } else {
        pow2(e + m)
    }
}

/// Conversion of the literal `l` to the bit pattern of the binary format with
/// `e` exponent bits and `m` mantissa bits. Zero is exact. Below the normal
/// range the result is a signed zero, above it a signed infinity, both
/// imprecise (subnormals are not produced). In range the significand is
/// truncated to `m + 1` bits, and the result is precise exactly when no set
/// bit was dropped.
pub open spec fn convert_spec(l: LiteralView, e: nat, m: nat) -> ConversionResult<nat> {
    let sign = sign_field(l, e, m);
    if l.digits.len() == 0 {
        ConversionResult::Precise(sign)
    } else {
        let x = leading_exponent(l);
        let n = literal_integer(l);
        if x < min_exponent(e) {
            ConversionResult::Imprecise(sign)
        } else if x > max_exponent(e) {
            ConversionResult::Imprecise(sign + ((pow2(e) - 1) * pow2(m)) as nat)
        } else {
            let bits = sign + ((x + bias(e)) * pow2(m)) as nat + (significand(n, m) - pow2(m)) as nat;
            if fits_significand(n, m) {
                ConversionResult::Precise(bits as nat)
            } else {
                ConversionResult::Imprecise(bits as nat)
            }
        }
    }
}

/// Bounds of `n` by its bit length.
proof fn lemma_bit_len_bounds(n: nat)
    requires
        n > 0,
    ensures
        bit_len(n) >= 1,
        pow2((bit_len(n) - 1) as nat) <= n < pow2(bit_len(n)),
    decreases n,
{
    let b = bit_len(n);
    lemma_pow2_unfold(b);
    if n / 2 == 0 {
        assert(n == 1);
        assert(bit_len(0) == 0);
        assert(pow2(0) == 1) by {
            vstd::arithmetic::power2::lemma2_to64();
        }
    } else {
        lemma_bit_len_bounds(n / 2);
        lemma_pow2_unfold((b - 1) as nat);
        if b >= 2 {
            lemma_pow2_unfold((b - 1) as nat);
        }
    }
}

/// The bit length is the `b` for which `2^(b-1) <= n < 2^b`.
proof fn lemma_bit_len_unique(n: nat, b: nat)
    requires
        b >= 1,
        pow2((b - 1) as nat) <= n < pow2(b),
    ensures
        bit_len(n) == b,
{
    lemma_pow2_pos((b - 1) as nat);
    lemma_bit_len_bounds(n);
    let l = bit_len(n);
    if l < b {
        if l < b - 1 {
            lemma_pow2_strictly_increases(l, (b - 1) as nat);
        }
    }
    if l > b {
        if b < l - 1 {
            lemma_pow2_strictly_increases(b, (l - 1) as nat);
        }
    }
}

/// One more hexadecimal digit is four more bits.
proof fn lemma_pow2_nibble(k: nat)
    ensures
        pow2(4 * (k + 1)) == pow2(4 * k) * 16,
{
    lemma_pow2_adds(4 * k, 4);
    vstd::arithmetic::power2::lemma2_to64();
}

/// A string of `k` hexadecimal digits has a value below `16^k`, and at least
/// `16^(k-1)` when its first digit is not zero.
proof fn lemma_hex_value_bounds(d: Seq<u8>)
    requires
        forall|i: int| 0 <= i < d.len() ==> #[trigger] d[i] < 16,
    ensures
        hex_value(d) < pow2(4 * d.len()),
        d.len() > 0 && d[0] != 0 ==> pow2((4 * (d.len() - 1)) as nat) <= hex_value(d),
    decreases d.len(),
{
    if d.len() == 0 {
        vstd::arithmetic::power2::lemma2_to64();
    } else {
        let p = d.drop_last();
        let k = p.len();
        assert forall|i: int| 0 <= i < p.len() implies #[trigger] p[i] < 16 by {
            assert(p[i] == d[i]);
        }
        lemma_hex_value_bounds(p);
        lemma_pow2_nibble(k);
        assert(hex_value(d) == hex_value(p) * 16 + d.last());
        assert(d.last() < 16);
        if k > 0 && d[0] != 0 {
            assert(p[0] == d[0]);
            lemma_pow2_nibble((k - 1) as nat);
            assert(4 * (d.len() - 1) == 4 * k);
        }
        if k == 0 {
            vstd::arithmetic::power2::lemma2_to64();
            assert(hex_value(p) == 0);
        }
    }
}

/// Reading `a` then `b` as one number shifts `a` by four bits per digit of `b`.
proof fn lemma_hex_value_concat(a: Seq<u8>, b: Seq<u8>)
    ensures
        hex_value(a + b) == hex_value(a) * pow2(4 * b.len()) + hex_value(b),
    decreases b.len(),
{
    if b.len() == 0 {
        assert(a + b =~= a);
        assert(hex_value(b) == 0);
        assert(pow2(0) == 1) by {
            vstd::arithmetic::power2::lemma2_to64();
        }
        assert(hex_value(a) * 1 == hex_value(a));
    } else {
        let q = b.drop_last();
        assert((a + b).drop_last() =~= a + q);
        assert((a + b).last() == b.last());
        lemma_hex_value_concat(a, q);
        lemma_pow2_nibble(q.len());
        let x = hex_value(a);
        let y = pow2(4 * q.len());
        let hq = hex_value(q);
        let c = b.last() as int;
        assert(hex_value(b) == hq * 16 + c);
        assert(hex_value(a + q) == x * y + hq);
        assert(hex_value(a + b) == hex_value(a + q) * 16 + c);
        assert(4 * b.len() == 4 * (q.len() + 1));
        assert(pow2(4 * b.len()) == y * 16);
        assert((x * y + hq) * 16 + c == x * (y * 16) + (hq * 16 + c)) by (nonlinear_arith);
    }
}

/// `2^k` as a machine integer.
fn pow2_u64(k: u32) -> (r: u64)
    requires
        k < 64,
    ensures
        r == pow2(k as nat),
{
    let mut r: u64 = 1;
    let mut i: u32 = 0;
    proof {
        vstd::arithmetic::power2::lemma2_to64();
    }
    while i < k
        invariant
            i <= k < 64,
            r == pow2(i as nat),
        decreases k - i,
    {
        proof {
            lemma_pow2_unfold((i + 1) as nat);
            lemma_pow2_strictly_increases((i + 1) as nat, 64);
            vstd::arithmetic::power2::lemma2_to64();
        }
        r = r * 2;
        i = i + 1;
    }
    r
}

/// Number of bits in the binary representation of `x`.
fn bit_length(x: u64) -> (r: u32)
    ensures
        r == bit_len(x as nat),
        r <= 64,
{
    let mut t = x;
    let mut c: u32 = 0;
    proof {
        vstd::arithmetic::power2::lemma2_to64();
    }
    while t > 0
        invariant
            c <= 64,
            t < pow2((64 - c) as nat),
            bit_len(x as nat) == c + bit_len(t as nat),
        decreases t,
    {
        proof {
            if c == 64 {
                vstd::arithmetic::power2::lemma2_to64();
            } else {
                lemma_pow2_unfold((64 - c) as nat);
            }
        }
        t = t / 2;
        c = c + 1;
    }
    c
}

/// Reads the first (at most sixteen) digits into one machine word.
fn pack_digits(digits: &Vec<u8>) -> (r: (u64, usize))
    requires
        digits@.len() > 0,
        forall|i: int| 0 <= i < digits@.len() ==> #[trigger] digits@[i] < 16,
    ensures
        r.1 == (if digits@.len() < 16 {
            digits@.len()
        } else {
            16
        }),
        r.0 == hex_value(digits@.subrange(0, r.1 as int)),
{
    let n: usize = if digits.len() < 16 {
        digits.len()
    } else {
        16
    };
    let mut acc: u64 = 0;
    let mut i: usize = 0;
    while i < n
        invariant
            i <= n <= 16,
            n <= digits@.len(),
            forall|t: int| 0 <= t < digits@.len() ==> #[trigger] digits@[t] < 16,
            acc == hex_value(digits@.subrange(0, i as int)),
        decreases n - i,
    {
        proof {
            let p = digits@.subrange(0, i as int);
            assert forall|t: int| 0 <= t < p.len() implies #[trigger] p[t] < 16 by {
                assert(p[t] == digits@[t]);
            }
            lemma_hex_value_bounds(p);
            lemma_pow2_strictly_increases(4 * i as nat, 64);
            if i < 15 {
                lemma_pow2_strictly_increases(4 * i as nat, 60);
            }
            vstd::arithmetic::power2::lemma2_to64();
            vstd::arithmetic::power2::lemma2_to64_rest();
            assert(digits@.subrange(0, i + 1).drop_last() =~= p);
        }
        acc = acc * 16 + digits[i] as u64;
        i = i + 1;
    }
    (acc, n)
}

/// The leading bits of a digit string can be read off its first (at most)
/// sixteen digits: a longer string has a non-zero last digit beyond them,
/// which the significand then drops.
proof fn lemma_significand_from_prefix(d: Seq<u8>, n: nat, m: nat)
    requires
        d.len() > 0,
        d[0] != 0,
        d.last() != 0,
        forall|i: int| 0 <= i < d.len() ==> #[trigger] d[i] < 16,
        n == (if d.len() < 16 {
            d.len()
        } else {
            16
        }),
        m <= 59,
    ensures
        ({
            let acc = hex_value(d.subrange(0, n as int));
            let la = bit_len(acc);
            let nv = hex_value(d);
            &&& acc > 0
            &&& bit_len(nv) == la + 4 * (d.len() - n)
            &&& la <= m + 1 ==> significand(nv, m) == acc * pow2((m + 1 - la) as nat)
                && fits_significand(nv, m)
            &&& la > m + 1 ==> significand(nv, m) == acc / pow2((la - (m + 1)) as nat)
                && (fits_significand(nv, m) <==> (n == d.len() && acc % pow2(
                (la - (m + 1)) as nat) == 0))
            &&& pow2(m) <= significand(nv, m) < pow2(m + 1)
        }),
{
    let head = d.subrange(0, n as int);
    let tail = d.subrange(n as int, d.len() as int);
    assert(d =~= head + tail);
    assert forall|i: int| 0 <= i < head.len() implies #[trigger] head[i] < 16 by {
        assert(head[i] == d[i]);
    }
    assert forall|i: int| 0 <= i < tail.len() implies #[trigger] tail[i] < 16 by {
        assert(tail[i] == d[n + i]);
    }
    let r = (d.len() - n) as nat;
    let acc = hex_value(head);
    let t = hex_value(tail);
    let nv = hex_value(d);
    let pp = pow2(4 * r);
    lemma_hex_value_bounds(head);
    lemma_hex_value_bounds(tail);
    lemma_hex_value_concat(head, tail);
    assert(nv == acc * pp + t);
    assert(head[0] == d[0]);
    lemma_pow2_pos((4 * (head.len() - 1)) as nat);
    assert(acc > 0);
    lemma_bit_len_bounds(acc);
    let la = bit_len(acc);
    let lo = pow2((la - 1) as nat);
    let hi = pow2(la);
    lemma_pow2_pos(4 * r);
    // bit length of the whole value
    lemma_mul_inequality(lo as int, acc as int, pp as int);
    lemma_mul_inequality(acc + 1 as int, hi as int, pp as int);
    assert((acc + 1) * pp == acc * pp + pp) by (nonlinear_arith);
    lemma_pow2_adds((la - 1) as nat, 4 * r);
    lemma_pow2_adds(la, 4 * r);
    assert((la - 1) as nat + 4 * r == (la + 4 * r - 1) as nat);
    lemma_bit_len_unique(nv, la + 4 * r);
    let l = la + 4 * r;
    if r > 0 {
        assert(n == 16);
        assert(head.len() == 16);
        assert((4 * (head.len() - 1)) as nat == 60);
        assert(pow2(60) <= acc);
        if la <= 60 {
            if la < 60 {
                lemma_pow2_strictly_increases(la, 60);
            }
        }
        assert(la > m + 1);
    }
    if la <= m + 1 {
        assert(r == 0);
        assert(tail.len() == 0);
        assert(t == 0);
        assert(pp == 1) by {
            vstd::arithmetic::power2::lemma2_to64();
        }
        assert(nv == acc);
        let k = (m + 1 - la) as nat;
        lemma_pow2_adds((la - 1) as nat, k);
        lemma_pow2_adds(la, k);
        assert((la - 1) as nat + k == m);
        assert(la + k == m + 1);
        lemma_pow2_pos(k);
        lemma_mul_inequality(lo as int, acc as int, pow2(k) as int);
        lemma_mul_strict_inequality(acc as int, hi as int, pow2(k) as int);
    } else {
        let sh = (la - (m + 1)) as nat;
        let ps = pow2(sh);
        lemma_pow2_pos(sh);
        assert((l - (m + 1)) as nat == 4 * r + sh);
        lemma_pow2_adds(4 * r, sh);
        lemma_fundamental_div_mod_converse(nv as int, pp as int, acc as int, t as int);
        lemma_div_denominator(nv as int, pp as int, ps as int);
        assert(significand(nv, m) == acc / ps);
        // range of the significand
        lemma_pow2_adds(m, sh);
        assert(m + sh == (la - 1) as nat);
        lemma_pow2_adds(m + 1, sh);
        assert(m + 1 + sh == la);
        vstd::arithmetic::div_mod::lemma_div_by_multiple(pow2(m) as int, ps as int);
        lemma_div_is_ordered(lo as int, acc as int, ps as int);
        assert(ps * pow2(m + 1) == pow2(m + 1) * ps) by (nonlinear_arith);
        assert(hi == pow2(m + 1) * ps);
        assert(acc < ps * pow2(m + 1));
        lemma_multiply_divide_lt(acc as int, ps as int, pow2(m + 1) as int);
        // exactness
        if r == 0 {
            assert(pp == 1) by {
                vstd::arithmetic::power2::lemma2_to64();
            }
            assert(nv == acc);
            assert(4 * r + sh == sh);
        } else {
            let q = d.drop_last();
            assert(nv == hex_value(q) * 16 + d.last());
            lemma_fundamental_div_mod_converse(nv as int, 16, hex_value(q) as int, d.last() as int);
            assert(nv % 16 == d.last());
            let rest = (4 * r + sh - 4) as nat;
            lemma_pow2_adds(4, rest);
            assert(4 + rest == 4 * r + sh);
            assert(pow2(4) == 16) by {
                vstd::arithmetic::power2::lemma2_to64();
            }
            lemma_pow2_pos(rest);
            lemma_mod_mod(nv as int, 16, pow2(rest) as int);
            assert(!fits_significand(nv, m));
        }
    }
}

/// Bit pattern of the literal with the given parts in the binary format
/// with `e` exponent bits and `m` mantissa bits, as `convert_spec` says.
#[verifier::rlimit(40)]
pub(crate) fn convert_parts(
    is_positive: bool,
    digits: &Vec<u8>,
    decimal_offset: i128,
    exponent: i32,
    e: u32,
    m: u32,
) -> (r: ConversionResult<u64>)
    requires
        crate::literal::literal_wf(
            LiteralView {
                is_positive,
                digits: digits@,
                decimal_offset: decimal_offset as int,
                exponent: exponent as int,
            },
        ),
        valid_format(e as nat, m as nat),
    ensures
        ({
            let c = convert_spec(
                LiteralView {
                    is_positive,
                    digits: digits@,
                    decimal_offset: decimal_offset as int,
                    exponent: exponent as int,
                },
                e as nat,
                m as nat,
            );
            r.is_precise() == c.is_precise() && r.value() as nat == c.value()
        }),
        r.value() < pow2((e + m + 1) as nat),
{
    let ghost l = LiteralView {
        is_positive,
        digits: digits@,
        decimal_offset: decimal_offset as int,
        exponent: exponent as int,
    };
    proof {
        lemma_pow2_strictly_increases((e + m) as nat, 64);
        lemma_pow2_unfold((e + m + 1) as nat);
        lemma_pow2_pos((e + m) as nat);
        vstd::arithmetic::power2::lemma2_to64();
        if e + m < 63 {
            lemma_pow2_strictly_increases((e + m + 1) as nat, 64);
        }
    }
    let sign: u64 = if is_positive {
        0
    } else {
        pow2_u64(e + m)
    };
    if digits.len() == 0 {
        return ConversionResult::Precise(sign);
    }
    let (acc, n) = pack_digits(digits);
    let la = bit_length(acc);
    proof {
        lemma_significand_from_prefix(digits@, n as nat, m as nat);
    }
    let half = pow2_u64(e - 1);
    proof {
        lemma_pow2_pos((e - 1) as nat);
        lemma_pow2_unfold(e as nat);
        lemma_pow2_adds(e as nat, m as nat);
        lemma_pow2_pos(m as nat);
        lemma_pow2_strictly_increases((e - 1) as nat, 64);
        lemma_pow2_strictly_increases(e as nat, 64);
    }
    let bias_v = half - 1;
    let x: i128 = la as i128 - 1 + 4 * (decimal_offset - n as i128) + exponent as i128;
    assert(x == leading_exponent(l));
    if x < 1 - bias_v as i128 {
        return ConversionResult::Imprecise(sign);
    }
    let pm = pow2_u64(m);
    if x > bias_v as i128 {
        let top = 2 * half - 1;
        proof {
            assert(top * pm == pow2((e + m) as nat) - pm) by (nonlinear_arith)
                requires
                    top == pow2(e as nat) - 1,
                    pow2((e + m) as nat) == pow2(e as nat) * pm,
            ;
        }
        return ConversionResult::Imprecise(sign + top * pm);
    }
    let mm = m + 1;
    let (sig, exact) = if la <= mm {
        let k = pow2_u64(mm - la);
        proof {
            lemma_pow2_strictly_increases(m as nat + 1, 64);
        }
        (acc * k, true)
    } else {
        let k = pow2_u64(la - mm);
        proof {
            lemma_pow2_pos((la - mm) as nat);
        }
        (acc / k, n == digits.len() && acc % k == 0)
    };
    assert(1 <= x + bias_v <= pow2(e as nat) - 2);
    let biased: u64 = (x + bias_v as i128) as u64;
    proof {
        assert(biased * pm <= (pow2(e as nat) - 2) * pm) by (nonlinear_arith)
            requires
                biased <= pow2(e as nat) - 2,
                pm > 0,
        ;
        assert((pow2(e as nat) - 2) * pm == pow2((e + m) as nat) - 2 * pm) by (nonlinear_arith)
            requires
                pow2((e + m) as nat) == pow2(e as nat) * pm,
        ;
        lemma_pow2_unfold(m as nat + 1);
    }
    let bits = sign + biased * pm + (sig - pm);
    assert(sig == significand(hex_value(digits@), m as nat));
    assert(exact == fits_significand(hex_value(digits@), m as nat));
    assert(bias_v == bias(e as nat));
    assert(sign == sign_field(l, e as nat, m as nat));
    if exact {
        ConversionResult::Precise(bits)
    } else {
        ConversionResult::Imprecise(bits)
    }
}

/// Whether `a × 2^x` equals `c × 2^y`.
pub open spec fn same_value(a: nat, x: int, c: nat, y: int) -> bool {
    if x <= y {
        a == c * pow2((y - x) as nat)
    } else {
        a * pow2((x - y) as nat) == c
    }
}

/// Whether the bit pattern `b` of the format with `e` exponent bits and `m`
/// mantissa bits is a zero or normal number equal to the literal `l`: same
/// sign; for zero, zero exponent and mantissa fields; otherwise a normal
/// exponent field, and significand `2^m + mantissa` scaled by
/// `2^(field - bias - m)` equal to the literal's value.
pub open spec fn represents(b: nat, e: nat, m: nat, l: LiteralView) -> bool {
    let field = (b / pow2(m)) % pow2(e);
    let mantissa = b % pow2(m);
    &&& (b / pow2(e + m) == 0) == l.is_positive
    &&& b < pow2(e + m + 1)
    &&& if l.digits.len() == 0 {
        b % pow2(e + m) == 0
    } else {
        &&& 1 <= field <= pow2(e) - 2
        &&& same_value(
            pow2(m) + mantissa,
            field - bias(e) - m,
            literal_integer(l),
            literal_scale(l),
        )
    }
}

/// Exactness: a conversion is precise exactly when the literal is zero, or
/// its significant bits fit in the significand and its leading exponent is in
/// the normal range; a precise result is a zero or normal number whose value
/// is exactly the literal's.
pub proof fn lemma_precise_is_exact(l: LiteralView, e: nat, m: nat)
    requires
        crate::literal::literal_wf(l),
        valid_format(e, m),
    ensures
        convert_spec(l, e, m).is_precise() <==> (l.digits.len() == 0 || (fits_significand(
            literal_integer(l),
            m,
        ) && min_exponent(e) <= leading_exponent(l) <= max_exponent(e))),
        convert_spec(l, e, m).is_precise() ==> represents(convert_spec(l, e, m).value(), e, m, l),
{
    let c = convert_spec(l, e, m);
    let b = c.value();
    let pm = pow2(m);
    let pe = pow2(e);
    let pem = pow2(e + m);
    let s: nat = if l.is_positive {
        0
    } else {
        1
    };
    lemma_pow2_adds(e, m);
    lemma_pow2_pos(m);
    lemma_pow2_pos(e);
    lemma_pow2_pos(e + m);
    lemma_pow2_unfold(e + m + 1);
    lemma_pow2_unfold(e);
    assert(sign_field(l, e, m) == s * pe * pm) by (nonlinear_arith)
        requires
            sign_field(l, e, m) == (if s == 0 {
                0
            } else {
                pem
            }),
            pem == pe * pm,
            s == 0 || s == 1,
    ;
    if !c.is_precise() {
        return ;
    }
    if l.digits.len() == 0 {
        assert(b == s * pem) by (nonlinear_arith)
            requires
                b == s * pe * pm,
                pem == pe * pm,
        ;
        lemma_fundamental_div_mod_converse(b as int, pem as int, s as int, 0);
        return ;
    }
    let n = literal_integer(l);
    let x = leading_exponent(l);
    let field = (x + bias(e)) as nat;
    let sig = significand(n, m);
    let f = (sig - pm) as nat;
    // the significand lies in [2^m, 2^(m+1))
    assert(n > 0) by {
        lemma_hex_value_bounds(l.digits);
        lemma_pow2_pos((4 * (l.digits.len() - 1)) as nat);
    }
    lemma_bit_len_bounds(n);
    let ln = bit_len(n);
    lemma_pow2_unfold(m + 1);
    if ln <= m + 1 {
        let k = (m + 1 - ln) as nat;
        lemma_pow2_adds((ln - 1) as nat, k);
        lemma_pow2_adds(ln, k);
        assert((ln - 1) as nat + k == m);
        lemma_pow2_pos(k);
        lemma_mul_inequality(pow2((ln - 1) as nat) as int, n as int, pow2(k) as int);
        lemma_mul_strict_inequality(n as int, pow2(ln) as int, pow2(k) as int);
    } else {
        let sh = (ln - (m + 1)) as nat;
        let ps = pow2(sh);
        lemma_pow2_pos(sh);
        lemma_pow2_adds(m, sh);
        lemma_pow2_adds(m + 1, sh);
        vstd::arithmetic::div_mod::lemma_div_by_multiple(pm as int, ps as int);
        lemma_div_is_ordered(pow2((ln - 1) as nat) as int, n as int, ps as int);
        assert(ps * pow2(m + 1) == pow2(m + 1) * ps) by (nonlinear_arith);
        lemma_multiply_divide_lt(n as int, ps as int, pow2(m + 1) as int);
    }
    assert(f < pm);
    assert(b == s * pe * pm + field * pm + f);
    // decode the fields
    assert(b == (s * pe + field) * pm + f) by (nonlinear_arith)
        requires
            b == s * pe * pm + field * pm + f,
    ;
    lemma_fundamental_div_mod_converse(b as int, pm as int, (s * pe + field) as int, f as int);
    assert(field < pe);
    lemma_fundamental_div_mod_converse((s * pe + field) as int, pe as int, s as int, field as int);
    lemma_div_denominator(b as int, pm as int, pe as int);
    assert(pm * pe == pem) by (nonlinear_arith)
        requires
            pem == pe * pm,
    ;
    assert(b / pem == s);
    assert(b < pow2(e + m + 1)) by (nonlinear_arith)
        requires
            b == s * pe * pm + field * pm + f,
            s <= 1,
            field <= pe - 2,
            f < pm,
            pem == pe * pm,
            pow2(e + m + 1) == 2 * pem,
    ;
    // the value
    let k = literal_scale(l);
    assert(pm + f == sig);
    assert(field - bias(e) - m == x - m);
    if ln <= m + 1 {
        assert(same_value(sig, x - m, n, k));
    } else {
        let sh = (ln - (m + 1)) as nat;
        assert((x - m - k) as nat == sh);
        vstd::arithmetic::div_mod::lemma_fundamental_div_mod(n as int, pow2(sh) as int);
        assert(sig * pow2(sh) == pow2(sh) * sig) by (nonlinear_arith);
        assert(same_value(sig, x - m, n, k));
    }
}

/// Width consistency: a literal that converts precisely to a format converts
/// precisely to every format at least as wide in both fields, and both bit
/// patterns stand for exactly the literal's value, so widening the narrow
/// result loses nothing.
pub proof fn lemma_widening_keeps_precision(l: LiteralView, e1: nat, m1: nat, e2: nat, m2: nat)
    requires
        crate::literal::literal_wf(l),
        valid_format(e1, m1),
        valid_format(e2, m2),
        e1 <= e2,
        m1 <= m2,
        convert_spec(l, e1, m1).is_precise(),
    ensures
        convert_spec(l, e2, m2).is_precise(),
        represents(convert_spec(l, e1, m1).value(), e1, m1, l),
        represents(convert_spec(l, e2, m2).value(), e2, m2, l),
{
    lemma_precise_is_exact(l, e1, m1);
    if l.digits.len() > 0 {
        let n = literal_integer(l);
        let ln = bit_len(n);
        if ln > m2 + 1 {
            let a = pow2((ln - (m2 + 1)) as nat);
            let c = pow2((m2 - m1) as nat);
            lemma_pow2_adds((ln - (m2 + 1)) as nat, (m2 - m1) as nat);
            assert((ln - (m2 + 1)) as nat + (m2 - m1) as nat == (ln - (m1 + 1)) as nat);
            lemma_pow2_pos((ln - (m2 + 1)) as nat);
            lemma_pow2_pos((m2 - m1) as nat);
            lemma_mod_mod(n as int, a as int, c as int);
        }
        if e1 < e2 {
            lemma_pow2_strictly_increases((e1 - 1) as nat, (e2 - 1) as nat);
        }
    }
    lemma_precise_is_exact(l, e2, m2);
}

/// A binary floating-point format, whose values are carried as their bit
/// patterns: one sign bit, `exponent_bits()` exponent bits and
/// `mantissa_bits()` mantissa bits.
pub trait FPFormat: Sized {
    /// Width of the exponent field.
    spec fn exponent_bits() -> nat;

    /// Width of the mantissa field.
    spec fn mantissa_bits() -> nat;

    /// The bit pattern as a number.
    spec fn bits(self) -> nat;

    /// Convert a literal to this format.
    fn from_literal(literal: FloatLiteral) -> (r: ConversionResult<Self>)
        requires
            literal.wf(),
        ensures
            r.is_precise() == convert_spec(
                literal@,
                Self::exponent_bits(),
                Self::mantissa_bits(),
            ).is_precise(),
            r.value().bits() == convert_spec(
                literal@,
                Self::exponent_bits(),
                Self::mantissa_bits(),
            ).value(),
    ;
}

/// IEEE-754 single precision (binary32), as its bit pattern.
impl FPFormat for u32 {
    open spec fn exponent_bits() -> nat {
        8
    }

    open spec fn mantissa_bits() -> nat {
        23
    }

    open spec fn bits(self) -> nat {
        self as nat
    }

    fn from_literal(literal: FloatLiteral) -> (r: ConversionResult<u32>) {
        let c = literal.convert_bits(8, 23);
        proof {
            vstd::arithmetic::power2::lemma2_to64();
        }
        match c {
            ConversionResult::Precise(b) => ConversionResult::Precise(b as u32),
            ConversionResult::Imprecise(b) => ConversionResult::Imprecise(b as u32),
        }
    }
}

/// IEEE-754 double precision (binary64), as its bit pattern.
impl FPFormat for u64 {
    open spec fn exponent_bits() -> nat {
        11
    }

    open spec fn mantissa_bits() -> nat {
        52
    }

    open spec fn bits(self) -> nat {
        self as nat
    }

    fn from_literal(literal: FloatLiteral) -> (r: ConversionResult<u64>) {
        literal.convert_bits(11, 52)
    }
}

} // verus!
