//! From a decimal numeral to the double nearest to it, in whole numbers
//! throughout.

use vstd::arithmetic::div_mod::{
    lemma_basic_div, lemma_breakdown, lemma_div_denominator, lemma_fundamental_div_mod,
    lemma_small_mod,
};
use vstd::arithmetic::power2::{
    lemma2_to64, lemma2_to64_rest, lemma_pow2_adds, lemma_pow2_pos, lemma_pow2_strictly_increases,
    lemma_pow2_unfold, pow2,
};
use vstd::prelude::*;
use crate::bignum::{big, div_rem, is_zero, mul_add, small_value};
use crate::number::{
    bit_length, exponent_syntax, float_of_nat, lemma_bit_length, mantissa_syntax,
    number_syntax, unsigned_part,
    MANTISSA_UNIT, POSITIVE_INFINITY, SIGN_BIT,
};
use crate::text::{
    all_digits, append, copy, digits_value, find_char, index_of, is_ascii_digit, slice,
    upper_chars, upper_text,
};

verus! {

/// Ten to the power of `n`.
pub open spec fn pow10(n: nat) -> nat
    decreases n,
{
    if n == 0 {
        1
    } else {
        10 * pow10((n - 1) as nat)
    }
}

/// A power of ten is positive.
pub proof fn lemma_pow10_positive(n: nat)
    ensures
        pow10(n) > 0,
    decreases n,
{
    if n > 0 {
        lemma_pow10_positive((n - 1) as nat);
    }
}

/// Ten to a sum of powers is the product of ten to each.
pub proof fn lemma_pow10_adds(a: nat, b: nat)
    ensures
        pow10(a + b) == pow10(a) * pow10(b),
    decreases a,
{
    if a > 0 {
        let less = (a - 1) as nat;
        lemma_pow10_adds(less, b);
        assert(((a + b) - 1) as nat == less + b);
        assert(pow10(a + b) == 10 * pow10(less + b));
        let x = pow10(less);
        let y = pow10(b);
        assert(10 * (x * y) == (10 * x) * y) by (nonlinear_arith);
    } else {
        assert(pow10(0) == 1);
        let y = pow10(b);
        assert(1 * y == y) by (nonlinear_arith);
    }
}

/// Ten to a greater power is no less.
pub proof fn lemma_pow10_increases(a: nat, b: nat)
    requires
        a <= b,
    ensures
        pow10(a) <= pow10(b),
    decreases b,
{
    if a < b {
        lemma_pow10_increases(a, (b - 1) as nat);
        lemma_pow10_positive((b - 1) as nat);
    }
}

/// Ten to a power is no less than two to three times that power.
pub proof fn lemma_pow10_above_pow2(n: nat)
    ensures
        pow10(n) >= pow2(3 * n),
    decreases n,
{
    if n == 0 {
        lemma2_to64();
    } else {
        lemma_pow10_above_pow2((n - 1) as nat);
        lemma_pow2_adds(3, (3 * (n - 1)) as nat);
        lemma2_to64();
        assert(pow2(3 * n) == 8 * pow2((3 * (n - 1)) as nat));
    }
}

/// Two to a power is no more than ten to that power.
pub proof fn lemma_pow2_below_pow10(n: nat)
    ensures
        pow2(n) <= pow10(n),
    decreases n,
{
    if n == 0 {
        lemma2_to64();
    } else {
        lemma_pow2_below_pow10((n - 1) as nat);
        lemma_pow2_unfold(n);
    }
}

/// By how many binary digits a number is cut to fit a double: by those that
/// go beyond 53, and by one at least, which leaves a digit to round on.
pub open spec fn round_shift(q: nat) -> nat {
    if bit_length(q) > 54 {
        (bit_length(q) - 53) as nat
    } else {
        1
    }
}

/// The pattern of the double nearest to `q` units of two to the power of
/// -1075, plus a fraction of a unit where `inexact`. The digits that are
/// cut round the last digit kept: up where they are more than half a unit
/// of it, down where they are less, and to the even digit where they are
/// just half. The number of digits cut less one is the exponent field. What
/// comes to the pattern of infinity or beyond is infinity.
pub open spec fn rounded_pattern(q: nat, inexact: bool) -> u64 {
    let s = round_shift(q);
    let m = q / pow2(s);
    let guard = (q / pow2((s - 1) as nat)) % 2 == 1;
    let low = q % pow2((s - 1) as nat) != 0;
    let up: nat = if guard && (low || inexact || m % 2 == 1) {
        1
    } else {
        0
    };
    let pattern = (s - 1) * MANTISSA_UNIT + m + up;
    if pattern >= POSITIVE_INFINITY {
        POSITIVE_INFINITY
    } else {
        pattern as u64
    }
}

/// A quotient below two to the power of 53 puts the number below two to the
/// power of the shift and 53.
pub proof fn lemma_quotient_bounds_number(q: nat, s: nat)
    ensures
        q / pow2(s) < pow2(53) ==> q < pow2(s + 53),
        q / pow2(s) >= pow2(53) ==> q >= pow2(s + 53),
{
    lemma_pow2_pos(s);
    lemma_pow2_adds(s, 53);
    let d = pow2(s) as int;
    let x = (q / pow2(s)) as int;
    let r = (q % pow2(s)) as int;
    let limit = pow2(53) as int;
    lemma_fundamental_div_mod(q as int, d);
    if x < limit {
        assert(d * x + r < d * limit) by (nonlinear_arith)
            requires
                x < limit,
                0 <= r < d,
        ;
    } else {
        assert(d * x + r >= d * limit) by (nonlinear_arith)
            requires
                x >= limit,
                0 <= r,
                d > 0,
        ;
    }
}

/// The shift of a number is the least one of 1 or more that brings it
/// below two to the power of 53.
pub proof fn lemma_round_shift_is(q: nat, s: nat)
    requires
        s >= 1,
        q / pow2(s) < pow2(53),
        s > 1 ==> q / pow2((s - 1) as nat) >= pow2(53),
    ensures
        round_shift(q) == s,
{
    lemma_quotient_bounds_number(q, s);
    lemma2_to64_rest();
    if q == 0 {
        assert(bit_length(0) == 0);
        if s > 1 {
            lemma_pow2_pos((s - 1) as nat);
            lemma_basic_div(0, pow2((s - 1) as nat) as int);
        }
    } else {
        lemma_bit_length(q);
        let len = bit_length(q);
        if len - 1 >= s + 53 {
            if len - 1 > s + 53 {
                lemma_pow2_strictly_increases(s + 53, (len - 1) as nat);
            }
            assert(false);
        }
        if s > 1 {
            lemma_quotient_bounds_number(q, (s - 1) as nat);
            if s + 52 >= len {
                if s + 52 > len {
                    lemma_pow2_strictly_increases(len, s + 52);
                }
                assert(false);
            }
        }
    }
}

/// A number that a shift leaves at two to the power of 53 or more has a
/// greater shift.
pub proof fn lemma_round_shift_above(q: nat, s: nat)
    requires
        q / pow2(s) >= pow2(53),
    ensures
        round_shift(q) > s,
{
    lemma_quotient_bounds_number(q, s);
    lemma_pow2_pos(s + 53);
    lemma_bit_length(q);
    let len = bit_length(q);
    if len <= s + 53 {
        if len < s + 53 {
            lemma_pow2_strictly_increases(len, s + 53);
        }
        assert(false);
    }
}

/// The number, where it is less than two to the power of 53.
fn below_mantissa_limit(v: &Vec<u32>) -> (r: Option<u64>)
    ensures
        match r {
            Some(m) => m == big(v@) && m < pow2(53),
            None => big(v@) >= pow2(53),
        },
{
    proof {
        lemma2_to64_rest();
    }
    match small_value(v) {
        Some(n) => {
            if n < 0x20_0000_0000_0000 {
                Some(n)
            } else {
                None
            }
        },
        None => None,
    }
}

/// Rounds `q` units of two to the power of -1075 to the nearest double.
pub fn round_to_pattern(v: &mut Vec<u32>, inexact: bool) -> (r: u64)
    ensures
        r == rounded_pattern(big(old(v)@), inexact),
        r <= POSITIVE_INFINITY,
{
    let ghost q = big(v@);
    proof {
        lemma2_to64();
        lemma2_to64_rest();
    }
    let first = div_rem(v, 2);
    let mut guard = first == 1;
    let mut low = false;
    let mut s: u64 = 1;
    let mut kept = below_mantissa_limit(v);
    proof {
        lemma_small_mod(0, 1);
        assert(q % pow2(0) == 0);
        assert(q / pow2(0) == q);
    }
    while kept.is_none()
        invariant
            1 <= s <= 2100,
            q == big(old(v)@),
            big(v@) == q / pow2(s as nat),
            guard == ((q / pow2((s - 1) as nat)) % 2 == 1),
            low == (q % pow2((s - 1) as nat) != 0),
            s > 1 ==> q / pow2((s - 1) as nat) >= pow2(53),
            match kept {
                Some(m) => m == big(v@) && m < pow2(53),
                None => big(v@) >= pow2(53),
            },
            pow2(53) == 0x20_0000_0000_0000,
        decreases big(v@),
    {
        if s >= 2100 {
            proof {
                lemma_round_shift_above(q, s as nat);
                let shift = round_shift(q);
                let unit = MANTISSA_UNIT as int;
                assert(unit == 0x10_0000_0000_0000);
                assert(POSITIVE_INFINITY == 0x7FF0_0000_0000_0000);
                assert((shift - 1) * unit >= 0x7FF0_0000_0000_0000) by (nonlinear_arith)
                    requires
                        shift - 1 >= 2100,
                        unit == 0x10_0000_0000_0000,
                ;
                let m = q / pow2(shift);
                lemma_pow2_pos(shift);
                vstd::arithmetic::div_mod::lemma_div_pos_is_pos(q as int, pow2(shift) as int);
                assert(rounded_pattern(q, inexact) == POSITIVE_INFINITY);
            }
            return POSITIVE_INFINITY;
        }
        proof {
            let d = pow2((s - 1) as nat) as int;
            lemma_pow2_pos((s - 1) as nat);
            lemma_pow2_pos(s as nat);
            lemma_pow2_unfold(s as nat);
            lemma_pow2_unfold((s + 1) as nat);
            lemma_breakdown(q as int, d, 2);
            assert(d * 2 == pow2(s as nat));
            lemma_div_denominator(q as int, pow2(s as nat) as int, 2);
            assert(pow2(s as nat) * 2 == pow2((s + 1) as nat));
            let bit = (q as int / d) % 2;
            assert(d * bit == 0 <==> bit == 0) by (nonlinear_arith)
                requires
                    d > 0,
                    0 <= bit < 2,
            ;
        }
        low = low || guard;
        let bit = div_rem(v, 2);
        guard = bit == 1;
        s += 1;
        kept = below_mantissa_limit(v);
    }
    let m = kept.unwrap();
    proof {
        lemma_round_shift_is(q, s as nat);
    }
    let up: u64 = if guard && (low || inexact || m % 2 == 1) {
        1
    } else {
        0
    };
    assert((s - 1) * MANTISSA_UNIT <= 2099 * MANTISSA_UNIT) by (nonlinear_arith)
        requires
            1 <= s <= 2100,
    ;
    let pattern: u64 = (s - 1) * MANTISSA_UNIT + m + up;
    if pattern >= POSITIVE_INFINITY {
        POSITIVE_INFINITY
    } else {
        pattern
    }
}

/// How many units of two to the power of -1075 the number `d` times ten to
/// the power of `e` holds, the fraction of a unit left aside.
pub open spec fn scaled_floor(d: nat, e: int) -> nat {
    if e >= 0 {
        d * pow10(e as nat) * pow2(1075)
    } else {
        (d * pow2(1075)) / pow10((-e) as nat)
    }
}

/// Whether a fraction of a unit was left aside.
pub open spec fn scaled_inexact(d: nat, e: int) -> bool {
    e < 0 && (d * pow2(1075)) % pow10((-e) as nat) != 0
}

/// The pattern of the double nearest to `d` times ten to the power of `e`,
/// and of the even one of two that are equally near; infinity where the
/// number is beyond all doubles.
pub open spec fn nearest_pattern(d: nat, e: int) -> u64 {
    rounded_pattern(scaled_floor(d, e), scaled_inexact(d, e))
}

/// Nothing rounds to zero, with or without a fraction of a unit.
pub proof fn lemma_rounds_to_zero(inexact: bool)
    ensures
        rounded_pattern(0, inexact) == 0,
{
    lemma2_to64();
    assert(bit_length(0) == 0);
    lemma_basic_div(0, pow2(1) as int);
    lemma_basic_div(0, pow2(0) as int);
    assert(0nat / pow2(1) == 0);
    assert(0nat / pow2(0) == 0);
}

/// Zero is zero under any exponent.
pub proof fn lemma_zero_is_zero(e: int)
    ensures
        nearest_pattern(0, e) == 0,
{
    lemma_rounds_to_zero(scaled_inexact(0, e));
    if e >= 0 {
        assert(0 * pow10(e as nat) * pow2(1075) == 0) by (nonlinear_arith);
    } else {
        lemma_pow10_positive((-e) as nat);
        assert(0 * pow2(1075) == 0) by (nonlinear_arith);
        lemma_basic_div(0, pow10((-e) as nat) as int);
    }
}

/// A number of 1 or more times ten to the power of 400 or more is beyond
/// all doubles.
pub proof fn lemma_far_above(d: nat, e: int)
    requires
        d >= 1,
        e >= 400,
    ensures
        nearest_pattern(d, e) == POSITIVE_INFINITY,
{
    let q = scaled_floor(d, e);
    let tens = pow10(e as nat);
    let twos = pow2(1075);
    lemma_pow10_above_pow2(e as nat);
    lemma_pow2_adds((3 * e) as nat, 1075);
    lemma_pow2_adds(2222, 53);
    lemma_pow2_pos(2222);
    lemma_pow2_pos(1075);
    if 3 * e + 1075 > 2275 {
        lemma_pow2_strictly_increases(2275, (3 * e + 1075) as nat);
    }
    let low = pow2((3 * e) as nat);
    assert(d * tens * twos >= low * twos) by (nonlinear_arith)
        requires
            d >= 1,
            tens >= low,
            twos > 0,
            low >= 0,
    ;
    assert(q >= pow2(2275));
    let unit = pow2(2222) as int;
    let limit = pow2(53) as int;
    vstd::arithmetic::div_mod::lemma_div_is_ordered(unit * limit, q as int, unit);
    vstd::arithmetic::div_mod::lemma_div_multiples_vanish(limit, unit);
    lemma_round_shift_above(q, 2222);
    let shift = round_shift(q);
    lemma_pow2_pos(shift);
    vstd::arithmetic::div_mod::lemma_div_pos_is_pos(q as int, pow2(shift) as int);
    let weight = MANTISSA_UNIT as int;
    assert((shift - 1) * weight >= 0x7FF0_0000_0000_0000) by (nonlinear_arith)
        requires
            shift - 1 >= 2222,
            weight == 0x10_0000_0000_0000,
    ;
}

/// A number below ten to the power of `digits`, times ten to the power of
/// minus `digits` and 1075 or less, is nearest to zero.
pub proof fn lemma_far_below(d: nat, digits: nat, e: int)
    requires
        d < pow10(digits),
        e <= -(digits + 1075),
    ensures
        nearest_pattern(d, e) == 0,
{
    let k = (-e) as nat;
    let x = d * pow2(1075);
    lemma_pow2_below_pow10(1075);
    lemma_pow10_adds(digits, 1075);
    lemma_pow10_increases(digits + 1075, k);
    lemma_pow10_positive(1075);
    let a = pow10(digits);
    let b = pow10(1075);
    let twos = pow2(1075);
    assert(d * twos < a * b) by (nonlinear_arith)
        requires
            d < a,
            twos <= b,
            b > 0,
            d >= 0,
            twos >= 0,
    ;
    lemma_basic_div(x as int, pow10(k) as int);
    lemma_rounds_to_zero(scaled_inexact(d, e));
}

/// The double nearest to the number in `v` times ten to the power of `e`,
/// where the number has `digits` decimal digits at most. An exponent of
/// 400 or more stands for any greater one, and one of minus `digits` and
/// 1075 or less for any lesser one: the double is the same.
pub fn nearest_double(v: Vec<u32>, digits: usize, e: i128) -> (r: u64)
    requires
        big(v@) < pow10(digits as nat),
        -0x1_0000_0000_0000_0000_0000_0000_0000 < e < 0x1_0000_0000_0000_0000_0000_0000_0000,
    ensures
        r == nearest_pattern(big(v@), e as int),
        e >= 400 ==> forall|other: int|
            other >= e ==> r == #[trigger] nearest_pattern(big(v@), other),
        e <= -(digits + 1075) ==> forall|other: int|
            other <= e ==> r == #[trigger] nearest_pattern(big(v@), other),
        r <= POSITIVE_INFINITY,
{
    let ghost d = big(v@);
    if is_zero(&v) {
        proof {
            assert forall|other: int| true implies 0 == #[trigger] nearest_pattern(d, other) by {
                lemma_zero_is_zero(other);
            }
        }
        return 0;
    }
    if e >= 400 {
        proof {
            assert forall|other: int| other >= e implies POSITIVE_INFINITY
                == #[trigger] nearest_pattern(d, other) by {
                lemma_far_above(d, other);
            }
        }
        return POSITIVE_INFINITY;
    }
    if e < 0 && (-e) as u128 >= digits as u128 + 1075 {
        proof {
            assert forall|other: int| other <= e implies 0 == #[trigger] nearest_pattern(
                d,
                other,
            ) by {
                lemma_far_below(d, digits as nat, other);
            }
        }
        return 0;
    }
    let mut v = v;
    if e >= 0 {
        let count: u32 = e as u32;
        let mut j: u32 = 0;
        assert(d * pow10(0) == d) by (nonlinear_arith)
            requires
                pow10(0) == 1,
        ;
        while j < count
            invariant
                j <= count,
                big(v@) == d * pow10(j as nat),
            decreases count - j,
        {
            proof {
                let p = pow10(j as nat);
                assert(pow10((j + 1) as nat) == 10 * p);
                assert(d * p * 10 == d * (10 * p)) by (nonlinear_arith);
            }
            mul_add(&mut v, 10, 0);
            j += 1;
        }
        let ghost whole = d * pow10(e as nat);
        let mut k: u32 = 0;
        proof {
            lemma2_to64();
            assert(whole * pow2(0) == whole) by (nonlinear_arith)
                requires
                    pow2(0) == 1,
            ;
        }
        while k < 1075
            invariant
                k <= 1075,
                big(v@) == whole * pow2(k as nat),
            decreases 1075 - k,
        {
            proof {
                let p = pow2(k as nat);
                lemma_pow2_unfold((k + 1) as nat);
                assert(whole * p * 2 == whole * (2 * p)) by (nonlinear_arith);
            }
            mul_add(&mut v, 2, 0);
            k += 1;
        }
        round_to_pattern(&mut v, false)
    } else {
        let mut k: u32 = 0;
        proof {
            lemma2_to64();
            assert(d * pow2(0) == d) by (nonlinear_arith)
                requires
                    pow2(0) == 1,
            ;
        }
        while k < 1075
            invariant
                k <= 1075,
                big(v@) == d * pow2(k as nat),
            decreases 1075 - k,
        {
            proof {
                let p = pow2(k as nat);
                lemma_pow2_unfold((k + 1) as nat);
                assert(d * p * 2 == d * (2 * p)) by (nonlinear_arith);
            }
            mul_add(&mut v, 2, 0);
            k += 1;
        }
        let ghost x = d * pow2(1075);
        let count: u128 = (-e) as u128;
        let mut inexact = false;
        let mut j: u128 = 0;
        proof {
            assert(pow10(0) == 1);
            assert(x / 1 == x);
            assert(x % 1 == 0);
        }
        while j < count
            invariant
                j <= count,
                big(v@) == x / pow10(j as nat),
                inexact == (x % pow10(j as nat) != 0),
            decreases count - j,
        {
            proof {
                let p = pow10(j as nat) as int;
                lemma_pow10_positive(j as nat);
                assert(pow10((j + 1) as nat) == 10 * p);
                lemma_div_denominator(x as int, p, 10);
                lemma_breakdown(x as int, p, 10);
                let digit = (x as int / p) % 10;
                assert(p * digit == 0 <==> digit == 0) by (nonlinear_arith)
                    requires
                        p > 0,
                        0 <= digit < 10,
                ;
                assert(p * 10 == 10 * p) by (nonlinear_arith);
            }
            let left = div_rem(&mut v, 10);
            inexact = inexact || left != 0;
            j += 1;
        }
        round_to_pattern(&mut v, inexact)
    }
}

/// The digits of a mantissa, without its point.
pub open spec fn mantissa_digits(m: Seq<char>) -> Seq<char> {
    match index_of(m, '.') {
        Some(point) => m.take(point) + m.skip(point + 1),
        None => m,
    }
}

/// How many digits of a mantissa stand after its point.
pub open spec fn fraction_len(m: Seq<char>) -> nat {
    match index_of(m, '.') {
        Some(point) => (m.len() - point - 1) as nat,
        None => 0,
    }
}

/// The whole number that an exponent writes, with its sign.
pub open spec fn exponent_value(x: Seq<char>) -> int {
    if x.len() > 0 && x[0] == '-' {
        -(digits_value(unsigned_part(x)) as int)
    } else {
        digits_value(unsigned_part(x)) as int
    }
}

/// The mantissa of a number: what stands before its `e` or `E`, or all of it.
pub open spec fn mantissa_of(b: Seq<char>) -> Seq<char> {
    match index_of(upper_text(b), 'E') {
        Some(e) => b.take(e),
        None => b,
    }
}

/// The exponent of a number: what its text after `e` or `E` writes, or 0.
pub open spec fn exponent_of(b: Seq<char>) -> int {
    match index_of(upper_text(b), 'E') {
        Some(e) => exponent_value(b.skip(e + 1)),
        None => 0,
    }
}

/// The pattern of the double nearest to what a number without sign writes:
/// the whole number of its digits, times ten to the power of its exponent
/// less the count of its digits after the point.
pub open spec fn number_pattern(b: Seq<char>) -> u64 {
    nearest_pattern(
        digits_value(mantissa_digits(mantissa_of(b))),
        exponent_of(b) - fraction_len(mantissa_of(b)),
    )
}

/// The pattern of the double nearest to what a decimal numeral writes, with
/// the sign bit where the numeral opens with a minus sign.
pub open spec fn decimal_pattern(s: Seq<char>) -> u64 {
    let magnitude = number_pattern(unsigned_part(s));
    if s.len() > 0 && s[0] == '-' {
        (magnitude + SIGN_BIT) as u64
    } else {
        magnitude
    }
}

/// A numeral of so many digits is worth less than ten to their count.
pub proof fn lemma_digits_below_pow10(s: Seq<char>)
    requires
        all_digits(s),
    ensures
        digits_value(s) < pow10(s.len()),
    decreases s.len(),
{
    if s.len() > 0 {
        assert forall|i: int| 0 <= i < s.drop_last().len() implies is_ascii_digit(
            #[trigger] s.drop_last()[i],
        ) by {
            assert(s.drop_last()[i] == s[i]);
        }
        lemma_digits_below_pow10(s.drop_last());
        assert(is_ascii_digit(s[s.len() - 1]));
    }
}

/// The greatest exponent that is read in full: ten to the power of 30. A
/// greater one is taken as this one, which is beyond all doubles already.
pub const EXPONENT_CAP: u128 = 1_000_000_000_000_000_000_000_000_000_000;

/// Reads an exponent: whether it is negative, and its magnitude as far as
/// the cap.
fn read_exponent(x: &Vec<char>) -> (r: (bool, u128))
    requires
        exponent_syntax(x@),
    ensures
        r.0 == (x@.len() > 0 && x@[0] == '-'),
        r.1 <= EXPONENT_CAP,
        r.1 < EXPONENT_CAP ==> r.1 == digits_value(unsigned_part(x@)),
        r.1 == EXPONENT_CAP ==> digits_value(unsigned_part(x@)) >= EXPONENT_CAP,
{
    let n = x.len();
    let negative = n > 0 && x[0] == '-';
    let first: usize = if n > 0 && (x[0] == '+' || x[0] == '-') {
        1
    } else {
        0
    };
    let ghost digits = unsigned_part(x@);
    assert(x@.subrange(first as int, n as int) =~= digits);
    let mut value: u128 = 0;
    let mut i: usize = first;
    assert(digits.take(0) =~= Seq::<char>::empty());
    while i < n
        invariant
            first <= i <= n,
            n == x.len(),
            digits == x@.subrange(first as int, n as int),
            all_digits(digits),
            value <= EXPONENT_CAP,
            value < EXPONENT_CAP ==> value == digits_value(digits.take(i - first)),
            value == EXPONENT_CAP ==> digits_value(digits.take(i - first)) >= EXPONENT_CAP,
        decreases n - i,
    {
        let c = x[i];
        proof {
            assert(digits[i - first] == c);
            assert(is_ascii_digit(digits[i - first]));
            assert(digits.take(i - first + 1).drop_last() =~= digits.take(i - first));
            assert(digits.take(i - first + 1).last() == c);
        }
        if value < EXPONENT_CAP {
            let digit: u128 = (c as u128) - 48;
            let next: u128 = value * 10 + digit;
            value = if next >= EXPONENT_CAP {
                EXPONENT_CAP
            } else {
                next
            };
        }
        i += 1;
    }
    assert(digits.take(n - first) =~= digits);
    (negative, value)
}

/// The whole number that the digits write.
fn read_digits(digits: &Vec<char>) -> (v: Vec<u32>)
    requires
        all_digits(digits@),
    ensures
        big(v@) == digits_value(digits@),
{
    let mut v: Vec<u32> = Vec::new();
    let mut i: usize = 0;
    assert(digits@.take(0) =~= Seq::<char>::empty());
    while i < digits.len()
        invariant
            i <= digits.len(),
            all_digits(digits@),
            big(v@) == digits_value(digits@.take(i as int)),
        decreases digits.len() - i,
    {
        let c = digits[i];
        proof {
            assert(is_ascii_digit(digits@[i as int]));
            assert(digits@.take(i + 1).drop_last() =~= digits@.take(i as int));
            assert(digits@.take(i + 1).last() == c);
        }
        mul_add(&mut v, 10, (c as u32) - 48);
        i += 1;
    }
    assert(digits@.take(digits.len() as int) =~= digits@);
    v
}

/// The pattern of the double nearest to what a number without sign writes.
pub fn number_to_pattern(b: &Vec<char>) -> (r: u64)
    requires
        number_syntax(b@),
    ensures
        r == number_pattern(b@),
        r <= POSITIVE_INFINITY,
{
    let up = upper_chars(b);
    let split = find_char(&up, 'E');
    let mantissa = match split {
        Some(e) => slice(b, 0, e),
        None => copy(b),
    };
    proof {
        match split {
            Some(e) => {
                assert(b@.subrange(0, e as int) =~= b@.take(e as int));
            },
            None => {},
        }
        assert(mantissa@ == mantissa_of(b@));
        assert(mantissa_syntax(mantissa@));
    }
    let point = find_char(&mantissa, '.');
    let digits = match point {
        Some(d) => {
            let mut head = slice(&mantissa, 0, d);
            let tail = slice(&mantissa, d + 1, mantissa.len());
            append(&mut head, &tail);
            head
        },
        None => copy(&mantissa),
    };
    let places: usize = match point {
        Some(d) => mantissa.len() - d - 1,
        None => 0,
    };
    proof {
        match point {
            Some(d) => {
                let head = mantissa@.take(d as int);
                let tail = mantissa@.skip(d + 1);
                assert(mantissa@.subrange(0, d as int) =~= head);
                assert(mantissa@.subrange(d + 1, mantissa.len() as int) =~= tail);
                assert forall|i: int| 0 <= i < digits@.len() implies is_ascii_digit(
                    #[trigger] digits@[i],
                ) by {
                    if i < head.len() {
                        assert(digits@[i] == head[i]);
                    } else {
                        assert(digits@[i] == tail[i - head.len()]);
                    }
                }
            },
            None => {},
        }
        assert(digits@ == mantissa_digits(mantissa@));
        assert(all_digits(digits@));
        lemma_digits_below_pow10(digits@);
    }
    let v = read_digits(&digits);
    let (negative, magnitude) = match split {
        Some(e) => {
            let exponent = slice(b, e + 1, b.len());
            assert(exponent@ =~= b@.skip(e + 1));
            read_exponent(&exponent)
        },
        None => (false, 0),
    };
    let signed: i128 = if negative {
        -(magnitude as i128)
    } else {
        magnitude as i128
    };
    let e: i128 = signed - (places as i128);
    let r = nearest_double(v, digits.len(), e);
    proof {
        let true_e = exponent_of(b@) - fraction_len(mantissa@);
        assert(places == fraction_len(mantissa@));
        if magnitude < EXPONENT_CAP {
            assert(e == true_e);
        } else if negative {
            assert(true_e <= e);
            assert(e <= -(digits.len() + 1075));
            assert(r == nearest_pattern(big(v@), true_e));
        } else {
            assert(true_e >= e);
            assert(e >= 400);
            assert(r == nearest_pattern(big(v@), true_e));
        }
    }
    r
}

/// A number times a power of two has that many binary digits more.
pub proof fn lemma_bit_length_scaled(n: nat, a: nat)
    requires
        n > 0,
    ensures
        bit_length(n * pow2(a)) == bit_length(n) + a,
{
    lemma_bit_length(n);
    let len = bit_length(n);
    lemma_pow2_adds((len - 1) as nat, a);
    lemma_pow2_adds(len, a);
    lemma_pow2_pos(a);
    let low = pow2((len - 1) as nat);
    let high = pow2(len);
    let unit = pow2(a);
    assert(low * unit <= n * unit) by (nonlinear_arith)
        requires
            low <= n,
            unit > 0,
    ;
    assert(n * unit < high * unit) by (nonlinear_arith)
        requires
            n < high,
            unit > 0,
    ;
    crate::number::lemma_bit_length_unique(n * unit, len + a);
}

/// A number times a power of two, divided by a power of two that is no
/// greater, is the number times the power that is left.
pub proof fn lemma_scaled_down_within(n: nat, a: nat, b: nat)
    requires
        b <= a,
    ensures
        (n * pow2(a)) / pow2(b) == n * pow2((a - b) as nat),
{
    lemma_pow2_adds((a - b) as nat, b);
    lemma_pow2_pos(b);
    let rest = pow2((a - b) as nat);
    let unit = pow2(b);
    assert(n * (rest * unit) == unit * (n * rest)) by (nonlinear_arith);
    vstd::arithmetic::div_mod::lemma_div_multiples_vanish((n * rest) as int, unit as int);
}

/// A number times a power of two, divided by a greater power of two, is
/// the number divided by the power that is left.
pub proof fn lemma_scaled_down_beyond(n: nat, a: nat, b: nat)
    requires
        a <= b,
    ensures
        (n * pow2(a)) / pow2(b) == n / pow2((b - a) as nat),
{
    lemma_pow2_adds(a, (b - a) as nat);
    lemma_pow2_pos(a);
    lemma_pow2_pos((b - a) as nat);
    let unit = pow2(a);
    assert(n * unit == unit * n) by (nonlinear_arith);
    vstd::arithmetic::div_mod::lemma_div_multiples_vanish(n as int, unit as int);
    lemma_div_denominator((n * unit) as int, unit as int, pow2((b - a) as nat) as int);
}

/// A whole number below two to the power of 64 is read as a numeral to the
/// same double to which it is rounded as a number: the two ways to a double
/// agree.
pub proof fn lemma_whole_numbers_agree(n: nat)
    requires
        n < pow2(64),
    ensures
        nearest_pattern(n, 0) == float_of_nat(n),
{
    lemma2_to64();
    lemma2_to64_rest();
    if n == 0 {
        lemma_zero_is_zero(0);
    } else {
        let q = scaled_floor(n, 0);
        assert(n * pow10(0) == n) by (nonlinear_arith)
            requires
                pow10(0) == 1,
        ;
        assert(q == n * pow2(1075));
        lemma_bit_length(n);
        let len = bit_length(n);
        if len > 64 {
            lemma_pow2_strictly_increases(64, (len - 1) as nat);
            assert(false);
        }
        lemma_bit_length_scaled(n, 1075);
        let s = round_shift(q);
        assert(s == len + 1022);
        let unit = MANTISSA_UNIT as int;
        assert(unit == 0x10_0000_0000_0000);
        if len <= 53 {
            let spare = (53 - len) as nat;
            lemma_scaled_down_within(n, 1075, s);
            lemma_scaled_down_within(n, 1075, (s - 1) as nat);
            lemma_pow2_unfold(spare + 1);
            let m = n * pow2(spare);
            assert(q / pow2(s) == m);
            assert(q / pow2((s - 1) as nat) == n * pow2(spare + 1));
            assert(n * (2 * pow2(spare)) == 2 * m) by (nonlinear_arith)
                requires
                    m == n * pow2(spare),
            ;
            assert((2 * m) % 2 == 0);
            lemma_pow2_adds((len - 1) as nat, spare);
            lemma_pow2_adds(len, spare);
            lemma_pow2_pos(spare);
            let low = pow2((len - 1) as nat);
            let high = pow2(len);
            let scale = pow2(spare);
            assert(low * scale <= n * scale) by (nonlinear_arith)
                requires
                    low <= n,
                    scale > 0,
            ;
            assert(n * scale < high * scale) by (nonlinear_arith)
                requires
                    n < high,
                    scale > 0,
            ;
            assert((s - 1) * unit == (len + 1021) * 0x10_0000_0000_0000) by (nonlinear_arith)
                requires
                    s == len + 1022,
                    unit == 0x10_0000_0000_0000,
            ;
        } else {
            let t = (len - 53) as nat;
            lemma_scaled_down_beyond(n, 1075, s);
            lemma_scaled_down_beyond(n, 1075, (s - 1) as nat);
            let half = pow2((t - 1) as nat) as int;
            lemma_pow2_pos((t - 1) as nat);
            lemma_pow2_unfold(t);
            lemma_pow2_adds(1075, (t - 1) as nat);
            let m = n / pow2(t);
            assert(q / pow2(s) == m);
            assert(q / pow2((s - 1) as nat) == n / pow2((t - 1) as nat));
            let g = (n as int / half) % 2;
            let l = n as int % half;
            lemma_breakdown(n as int, half, 2);
            assert(half * 2 == pow2(t));
            assert(n as int % (pow2(t) as int) == half * g + l);
            vstd::arithmetic::div_mod::lemma_truncate_middle(
                n as int,
                pow2(1075) as int,
                half,
            );
            lemma_pow2_pos(1075);
            assert(pow2(1075) * n == n * pow2(1075)) by (nonlinear_arith);
            assert(q as int % (pow2((s - 1) as nat) as int) == pow2(1075) * l);
            let big_unit = pow2(1075) as int;
            assert(big_unit * l == 0 <==> l == 0) by (nonlinear_arith)
                requires
                    big_unit > 0,
                    l >= 0,
            ;
            assert(half * g == 0 || half * g == half) by (nonlinear_arith)
                requires
                    0 <= g < 2,
            ;
            assert(g == 1 ==> half * g == half) by (nonlinear_arith);
            assert(g == 0 ==> half * g == 0) by (nonlinear_arith);
            lemma_quotient_bounds_number(n, t);
            lemma_pow2_adds(t, 53);
            lemma_pow2_adds(t, 52);
            let tiny = pow2(t) as int;
            lemma_pow2_pos(t);
            vstd::arithmetic::div_mod::lemma_div_is_ordered(
                pow2(52) as int * tiny,
                n as int,
                tiny,
            );
            vstd::arithmetic::div_mod::lemma_div_multiples_vanish(pow2(52) as int, tiny);
            assert(pow2(52) * tiny == tiny * pow2(52)) by (nonlinear_arith);
            if n / pow2(t) >= pow2(53) {
                assert(n >= pow2(len));
            }
            assert((s - 1) * unit == (len + 1021) * 0x10_0000_0000_0000) by (nonlinear_arith)
                requires
                    s == len + 1022,
                    unit == 0x10_0000_0000_0000,
            ;
        }
    }
}

} // verus!
