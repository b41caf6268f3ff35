//! Numbers as IEEE 754 doubles, held by their 64-bit patterns: which texts
//! write one, which patterns are finite, and how two compare.

use vstd::arithmetic::power2::pow2;
use vstd::prelude::*;
use crate::decimal::{decimal_pattern, number_to_pattern};
use crate::text::{
    all_digits, eq_ignore_case, equals_ignore_case, find_char, index_of, is_ascii_digit,
    is_digit_char, slice, to_chars, upper_chars, upper_text,
};

verus! {

/// The pattern of positive infinity.
pub const POSITIVE_INFINITY: u64 = 0x7FF0_0000_0000_0000;

/// The pattern of negative infinity.
pub const NEGATIVE_INFINITY: u64 = 0xFFF0_0000_0000_0000;

/// The pattern of the quiet not-a-number that a text `nan` writes.
pub const POSITIVE_NAN: u64 = 0x7FF8_0000_0000_0000;

/// The pattern of the same with the sign bit, which `-nan` writes.
pub const NEGATIVE_NAN: u64 = 0xFFF8_0000_0000_0000;

/// `s` without a leading sign.
pub open spec fn unsigned_part(s: Seq<char>) -> Seq<char> {
    if s.len() > 0 && (s[0] == '+' || s[0] == '-') {
        s.skip(1)
    } else {
        s
    }
}

/// Digits with at most one point among them, and one digit at least.
pub open spec fn mantissa_syntax(m: Seq<char>) -> bool {
    match index_of(m, '.') {
        None => m.len() > 0 && all_digits(m),
        Some(d) => m.len() > 1 && all_digits(m.take(d)) && all_digits(m.skip(d + 1)),
    }
}

/// An optional sign and one digit or more.
pub open spec fn exponent_syntax(e: Seq<char>) -> bool {
    unsigned_part(e).len() > 0 && all_digits(unsigned_part(e))
}

/// A mantissa, and after it an optional `e` or `E` with an exponent.
pub open spec fn number_syntax(b: Seq<char>) -> bool {
    match index_of(upper_text(b), 'E') {
        None => mantissa_syntax(b),
        Some(e) => mantissa_syntax(b.take(e)) && exponent_syntax(b.skip(e + 1)),
    }
}

/// A decimal numeral: an optional sign, then a number.
pub open spec fn decimal_syntax(s: Seq<char>) -> bool {
    number_syntax(unsigned_part(s))
}

/// The pattern of the double that `s` writes: an optional sign and then
/// `inf`, `infinity` or `nan` in any case, or a decimal numeral, which
/// writes the double nearest to it. Any other text writes no number.
pub open spec fn float_bits(s: Seq<char>) -> Option<u64> {
    let negative = s.len() > 0 && s[0] == '-';
    let body = unsigned_part(s);
    if eq_ignore_case(body, "inf"@) || eq_ignore_case(body, "infinity"@) {
        Some(
            if negative {
                NEGATIVE_INFINITY
            } else {
                POSITIVE_INFINITY
            },
        )
    } else if eq_ignore_case(body, "nan"@) {
        Some(
            if negative {
                NEGATIVE_NAN
            } else {
                POSITIVE_NAN
            },
        )
    } else if number_syntax(body) {
        Some(decimal_pattern(s))
    } else {
        None
    }
}

/// Whether `s[from..to]` holds digits only.
pub fn digits_only(s: &Vec<char>, from: usize, to: usize) -> (r: bool)
    requires
        from <= to <= s.len(),
    ensures
        r == all_digits(s@.subrange(from as int, to as int)),
{
    let ghost part = s@.subrange(from as int, to as int);
    let mut i: usize = from;
    while i < to
        invariant
            from <= i <= to <= s.len(),
            part == s@.subrange(from as int, to as int),
            forall|j: int| 0 <= j < i - from ==> is_ascii_digit(#[trigger] part[j]),
        decreases to - i,
    {
        assert(part[i - from] == s@[i as int]);
        if !is_digit_char(s[i]) {
            return false;
        }
        i += 1;
    }
    true
}

/// Whether a text is a mantissa.
pub fn check_mantissa(m: &Vec<char>) -> (r: bool)
    ensures
        r == mantissa_syntax(m@),
{
    let n = m.len();
    match find_char(m, '.') {
        None => {
            assert(m@.subrange(0, n as int) =~= m@);
            n > 0 && digits_only(m, 0, n)
        },
        Some(d) => {
            assert(m@.subrange(0, d as int) =~= m@.take(d as int));
            assert(m@.subrange(d + 1, n as int) =~= m@.skip(d + 1));
            n > 1 && digits_only(m, 0, d) && digits_only(m, d + 1, n)
        },
    }
}

/// Whether a text is an exponent.
pub fn check_exponent(e: &Vec<char>) -> (r: bool)
    ensures
        r == exponent_syntax(e@),
{
    let n = e.len();
    let first: usize = if n > 0 && (e[0] == '+' || e[0] == '-') {
        1
    } else {
        0
    };
    assert(e@.subrange(first as int, n as int) =~= unsigned_part(e@));
    n > first && digits_only(e, first, n)
}

/// Whether a text is a number without sign.
pub fn check_number(b: &Vec<char>) -> (r: bool)
    ensures
        r == number_syntax(b@),
{
    let up = upper_chars(b);
    match find_char(&up, 'E') {
        None => check_mantissa(b),
        Some(e) => {
            let mantissa = slice(b, 0, e);
            let exponent = slice(b, e + 1, b.len());
            assert(b@.subrange(0, e as int) =~= b@.take(e as int));
            assert(b@.subrange(e + 1, b.len() as int) =~= b@.skip(e + 1));
            check_mantissa(&mantissa) && check_exponent(&exponent)
        },
    }
}

/// The pattern of the double that `s` writes, if it writes one.
pub fn parse_float(s: &Vec<char>) -> (r: Option<u64>)
    ensures
        r == float_bits(s@),
{
    let n = s.len();
    let negative = n > 0 && s[0] == '-';
    let first: usize = if n > 0 && (s[0] == '+' || s[0] == '-') {
        1
    } else {
        0
    };
    let body = slice(s, first, n);
    assert(body@ =~= unsigned_part(s@));
    let inf = to_chars("inf");
    let infinity = to_chars("infinity");
    let nan = to_chars("nan");
    if equals_ignore_case(&body, &inf) || equals_ignore_case(&body, &infinity) {
        Some(
            if negative {
                NEGATIVE_INFINITY
            } else {
                POSITIVE_INFINITY
            },
        )
    } else if equals_ignore_case(&body, &nan) {
        Some(
            if negative {
                NEGATIVE_NAN
            } else {
                POSITIVE_NAN
            },
        )
    } else if check_number(&body) {
        let magnitude = number_to_pattern(&body);
        Some(
            if negative {
                magnitude + SIGN_BIT
            } else {
                magnitude
            },
        )
    } else {
        None
    }
}

/// Two to the power of 52: the weight of the exponent field in a pattern.
pub const MANTISSA_UNIT: u64 = 0x10_0000_0000_0000;

/// The sign bit of a pattern.
pub const SIGN_BIT: u64 = 0x8000_0000_0000_0000;

/// The pattern is that of a finite double: its exponent field is not all ones.
pub open spec fn is_finite(bits: u64) -> bool {
    (bits / MANTISSA_UNIT) % 2048 != 2047
}

/// Whether a pattern is that of a finite double.
pub fn finite(bits: u64) -> (r: bool)
    ensures
        r == is_finite(bits),
{
    (bits / MANTISSA_UNIT) % 2048 != 2047
}

/// The place of a finite double in the order of numbers. Patterns without
/// the sign bit grow with the number they stand for, and the sign bit mirrors
/// them: of two finite doubles the smaller has the smaller key, and equal
/// doubles, the two zeros among them, share a key.
pub open spec fn float_key(bits: u64) -> int {
    if bits < SIGN_BIT {
        bits as int
    } else {
        -((bits - SIGN_BIT) as int)
    }
}

/// Whether the first double is less than the second, both finite.
pub fn float_less(a: u64, b: u64) -> (r: bool)
    ensures
        r == (float_key(a) < float_key(b)),
{
    if a < SIGN_BIT {
        if b < SIGN_BIT {
            a < b
        } else {
            false
        }
    } else {
        if b < SIGN_BIT {
            a > SIGN_BIT || b > 0
        } else {
            a > b
        }
    }
}

/// Whether two finite doubles are the same number.
pub fn float_equal(a: u64, b: u64) -> (r: bool)
    ensures
        r == (float_key(a) == float_key(b)),
{
    a == b || ((a == 0 || a == SIGN_BIT) && (b == 0 || b == SIGN_BIT))
}

/// How many binary digits `n` has.
pub open spec fn bit_length(n: nat) -> nat
    decreases n,
{
    if n == 0 {
        0
    } else {
        1 + bit_length(n / 2)
    }
}

/// `n` in units of `unit`, rounded to the nearest whole, and to the even one
/// of two that are equally near.
pub open spec fn round_half_even(n: nat, unit: nat) -> nat {
    let q = n / unit;
    let r = n % unit;
    if 2 * r > unit || (2 * r == unit && q % 2 == 1) {
        q + 1
    } else {
        q
    }
}

/// The pattern of the double nearest to the whole number `n`, below two to
/// the power of 64: its 53 leading binary digits, rounded half to even, with
/// the exponent that puts them in place.
pub open spec fn float_of_nat(n: nat) -> u64 {
    if n == 0 {
        0
    } else {
        let len = bit_length(n);
        let mantissa = if len <= 53 {
            n * pow2((53 - len) as nat)
        } else {
            round_half_even(n, pow2((len - 53) as nat))
        };
        ((len + 1022) * MANTISSA_UNIT + (mantissa - MANTISSA_UNIT)) as u64
    }
}

/// A positive number lies between the powers of two that its length names.
pub proof fn lemma_bit_length(n: nat)
    requires
        n > 0,
    ensures
        bit_length(n) >= 1,
        pow2((bit_length(n) - 1) as nat) <= n < pow2(bit_length(n)),
    decreases n,
{
    broadcast use vstd::arithmetic::power2::lemma_pow2_unfold;

    if n == 1 {
        assert(bit_length(1) == 1 + bit_length(0));
        vstd::arithmetic::power2::lemma2_to64();
    } else {
        lemma_bit_length(n / 2);
        let k = bit_length(n / 2);
        assert(bit_length(n) == k + 1);
        assert(pow2(k) == 2 * pow2((k - 1) as nat));
        assert(pow2(k + 1) == 2 * pow2(k));
    }
}

/// The length of a number is the only one whose powers of two enclose it.
pub proof fn lemma_bit_length_unique(n: nat, len: nat)
    requires
        len >= 1,
        pow2((len - 1) as nat) <= n < pow2(len),
    ensures
        bit_length(n) == len,
{
    vstd::arithmetic::power2::lemma_pow2_pos((len - 1) as nat);
    lemma_bit_length(n);
    let k = bit_length(n);
    if k < len {
        if k < len - 1 {
            vstd::arithmetic::power2::lemma_pow2_strictly_increases(k, (len - 1) as nat);
        }
    } else if k > len {
        if len < k - 1 {
            vstd::arithmetic::power2::lemma_pow2_strictly_increases(len, (k - 1) as nat);
        }
    }
}

/// Two to the power of `k`.
fn power_of_two(k: u32) -> (p: u64)
    requires
        k <= 63,
    ensures
        p == pow2(k as nat),
{
    let mut p: u64 = 1;
    let mut i: u32 = 0;
    proof {
        vstd::arithmetic::power2::lemma2_to64();
    }
    while i < k
        invariant
            i <= k <= 63,
            p == pow2(i as nat),
        decreases k - i,
    {
        proof {
            vstd::arithmetic::power2::lemma_pow2_unfold((i + 1) as nat);
            vstd::arithmetic::power2::lemma2_to64_rest();
            if i + 1 < 63 {
                vstd::arithmetic::power2::lemma_pow2_strictly_increases((i + 1) as nat, 63);
            }
        }
        p = p * 2;
        i += 1;
    }
    p
}

/// The pattern of the double nearest to `n`.
pub fn float_of_u64(n: u64) -> (bits: u64)
    ensures
        bits == float_of_nat(n as nat),
        bits < SIGN_BIT,
{
    if n == 0 {
        return 0;
    }
    proof {
        vstd::arithmetic::power2::lemma2_to64();
        vstd::arithmetic::power2::lemma2_to64_rest();
    }
    let mut p: u128 = 1;
    let mut len: u32 = 0;
    while p <= n as u128
        invariant
            n > 0,
            len <= 64,
            p == pow2(len as nat),
            len > 0 ==> pow2((len - 1) as nat) <= n,
            pow2(64) == 0x10000000000000000,
        decreases 65 - len,
    {
        proof {
            vstd::arithmetic::power2::lemma_pow2_unfold((len + 1) as nat);
            if len == 64 {
                assert(false);
            }
            if len < 63 {
                vstd::arithmetic::power2::lemma_pow2_strictly_increases(len as nat, 64);
            }
        }
        p = p * 2;
        len += 1;
    }
    proof {
        lemma_bit_length_unique(n as nat, len as nat);
    }
    let mantissa: u64 = if len <= 53 {
        let unit = power_of_two(53 - len);
        proof {
            vstd::arithmetic::power2::lemma_pow2_adds(len as nat, (53 - len) as nat);
            vstd::arithmetic::power2::lemma_pow2_adds((len - 1) as nat, (53 - len) as nat);
            vstd::arithmetic::power2::lemma_pow2_pos((53 - len) as nat);
            let a = pow2((len - 1) as nat) as int;
            let b = pow2(len as nat) as int;
            let u = unit as int;
            assert(a * u <= n * u) by (nonlinear_arith)
                requires
                    a <= n,
                    u > 0,
            ;
            assert(n * u < b * u) by (nonlinear_arith)
                requires
                    n < b,
                    u > 0,
            ;
        }
        n * unit
    } else {
        let unit = power_of_two(len - 53);
        proof {
            vstd::arithmetic::power2::lemma_pow2_adds(53, (len - 53) as nat);
            vstd::arithmetic::power2::lemma_pow2_adds(52, (len - 53) as nat);
            vstd::arithmetic::power2::lemma_pow2_pos((len - 53) as nat);
            let u = unit as int;
            let q = (n / unit) as int;
            assert(q >= 0x10_0000_0000_0000 && q < 0x20_0000_0000_0000) by (nonlinear_arith)
                requires
                    u > 0,
                    0x10_0000_0000_0000 * u <= n,
                    n < 0x20_0000_0000_0000 * u,
                    q == n as int / u,
            ;
            if len - 53 < 11 {
                vstd::arithmetic::power2::lemma_pow2_strictly_increases((len - 53) as nat, 11);
            }
        }
        let q = n / unit;
        let r = n % unit;
        if 2 * r > unit || (2 * r == unit && q % 2 == 1) {
            q + 1
        } else {
            q
        }
    };
    (len as u64 + 1022) * MANTISSA_UNIT + (mantissa - MANTISSA_UNIT)
}

} // verus!
