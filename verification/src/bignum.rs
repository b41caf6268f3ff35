//! Natural numbers of any size, held as limbs of 32 bits, the least
//! significant first.

use vstd::prelude::*;

verus! {

/// The weight of a limb against the one before it: two to the power of 32.
pub const BASE: u64 = 0x1_0000_0000;

/// The number that the limbs write.
pub open spec fn big(limbs: Seq<u32>) -> nat
    decreases limbs.len(),
{
    if limbs.len() == 0 {
        0
    } else {
        limbs[0] as nat + BASE as nat * big(limbs.skip(1))
    }
}

/// Limbs that are all zero write zero.
pub proof fn lemma_zero_limbs(limbs: Seq<u32>)
    requires
        forall|i: int| 0 <= i < limbs.len() ==> limbs[i] == 0,
    ensures
        big(limbs) == 0,
    decreases limbs.len(),
{
    if limbs.len() > 0 {
        assert forall|i: int| 0 <= i < limbs.skip(1).len() implies limbs.skip(1)[i] == 0 by {
            assert(limbs.skip(1)[i] == limbs[i + 1]);
        }
        lemma_zero_limbs(limbs.skip(1));
    }
}

/// Limbs of which one from place `from` on is not zero write a number that
/// is no less than the weight of that place: one for place 0, the base for
/// place 1, and its square from place 2 on.
pub proof fn lemma_nonzero_limb(limbs: Seq<u32>, i: int)
    requires
        0 <= i < limbs.len(),
        limbs[i] != 0,
    ensures
        big(limbs) >= 1,
        i >= 1 ==> big(limbs) >= BASE,
        i >= 2 ==> big(limbs) >= BASE * BASE,
    decreases limbs.len(),
{
    if i > 0 {
        assert(limbs.skip(1)[i - 1] == limbs[i]);
        lemma_nonzero_limb(limbs.skip(1), i - 1);
        let rest = big(limbs.skip(1));
        assert(BASE as nat * rest >= BASE) by (nonlinear_arith)
            requires
                rest >= 1,
        ;
        if i >= 2 {
            assert(BASE as nat * rest >= BASE * BASE) by (nonlinear_arith)
                requires
                    rest >= BASE,
            ;
        }
    }
}

/// Whether a number is zero.
pub fn is_zero(v: &Vec<u32>) -> (r: bool)
    ensures
        r == (big(v@) == 0),
{
    let mut i: usize = 0;
    while i < v.len()
        invariant
            i <= v.len(),
            forall|j: int| 0 <= j < i ==> v@[j] == 0,
        decreases v.len() - i,
    {
        if v[i] != 0 {
            proof {
                lemma_nonzero_limb(v@, i as int);
            }
            return false;
        }
        i += 1;
    }
    proof {
        lemma_zero_limbs(v@);
    }
    true
}

/// The number, where it is less than two to the power of 64.
pub fn small_value(v: &Vec<u32>) -> (r: Option<u64>)
    ensures
        match r {
            Some(n) => big(v@) == n,
            None => big(v@) >= BASE * BASE,
        },
{
    let mut i: usize = 2;
    while i < v.len()
        invariant
            2 <= i,
            forall|j: int| 2 <= j < i && j < v.len() ==> v@[j] == 0,
        decreases v.len() - i,
    {
        if v[i] != 0 {
            proof {
                lemma_nonzero_limb(v@, i as int);
            }
            return None;
        }
        i += 1;
    }
    let low: u64 = if v.len() > 0 {
        v[0] as u64
    } else {
        0
    };
    let high: u64 = if v.len() > 1 {
        v[1] as u64
    } else {
        0
    };
    proof {
        reveal_with_fuel(big, 3);
        if v.len() >= 2 {
            assert forall|j: int| 0 <= j < v@.skip(1).skip(1).len() implies v@.skip(1).skip(1)[j]
                == 0 by {
                assert(v@.skip(1).skip(1)[j] == v@[j + 2]);
            }
            lemma_zero_limbs(v@.skip(1).skip(1));
            assert(v@.skip(1)[0] == v@[1]);
        } else if v.len() == 1 {
            assert(v@.skip(1).len() == 0);
        }
    }
    Some(low + BASE * high)
}

/// The weight of the limb at place `i`: the base to the power of `i`.
pub open spec fn weight(i: nat) -> nat
    decreases i,
{
    if i == 0 {
        1
    } else {
        BASE as nat * weight((i - 1) as nat)
    }
}

/// One limb more at the top adds the limb at the weight of its place.
pub proof fn lemma_big_push(limbs: Seq<u32>, top: u32)
    ensures
        big(limbs.push(top)) == big(limbs) + weight(limbs.len()) * top,
    decreases limbs.len(),
{
    if limbs.len() == 0 {
        reveal_with_fuel(big, 2);
        assert(limbs.push(top).skip(1) =~= Seq::<u32>::empty());
        assert(weight(0) * top == top) by (nonlinear_arith)
            requires
                weight(0) == 1,
        ;
    } else {
        let rest = limbs.skip(1);
        assert(limbs.push(top).skip(1) =~= rest.push(top));
        lemma_big_push(rest, top);
        let w = weight(rest.len());
        let b = BASE as nat;
        let r = big(rest);
        assert(b * (r + w * top) == b * r + (b * w) * top) by (nonlinear_arith);
        assert(weight(limbs.len()) == b * w);
    }
}

/// Multiplies a number by `m` and adds `carry`.
pub fn mul_add(v: &mut Vec<u32>, m: u32, carry: u32)
    ensures
        big(final(v)@) == big(old(v)@) * m + carry,
{
    let ghost before = v@;
    let ghost added = carry;
    let n = v.len();
    let mut carry = carry;
    let mut i: usize = 0;
    proof {
        assert(before.take(0) =~= Seq::<u32>::empty());
        assert(weight(0) * carry == carry) by (nonlinear_arith)
            requires
                weight(0) == 1,
        ;
        assert(big(Seq::<u32>::empty()) * m == 0) by (nonlinear_arith)
            requires
                big(Seq::<u32>::empty()) == 0,
        ;
    }
    while i < n
        invariant
            i <= n,
            n == v.len(),
            n == before.len(),
            v@.skip(i as int) == before.skip(i as int),
            big(v@.take(i as int)) + weight(i as nat) * carry == big(before.take(i as int)) * m
                + added,
        decreases n - i,
    {
        let limb = v[i];
        assert(limb == before[i as int]) by {
            assert(v@.skip(i as int)[0] == before.skip(i as int)[0]);
        }
        assert((limb as u64) * (m as u64) <= 0xFFFF_FFFF * 0xFFFF_FFFF) by (nonlinear_arith)
            requires
                limb <= 0xFFFF_FFFF,
                m <= 0xFFFF_FFFF,
        ;
        let product: u64 = (limb as u64) * (m as u64) + (carry as u64);
        let low: u32 = (product % BASE) as u32;
        let high: u32 = (product / BASE) as u32;
        let ghost earlier = v@;
        v[i] = low;
        proof {
            assert(v@.take(i + 1) =~= earlier.take(i as int).push(low));
            assert(before.take(i + 1) =~= before.take(i as int).push(limb));
            assert(v@.skip(i + 1) =~= before.skip(i + 1)) by {
                assert forall|j: int| 0 <= j < n - i - 1 implies #[trigger] v@.skip(i + 1)[j]
                    == before.skip(i + 1)[j] by {
                    assert(earlier.skip(i as int)[j + 1] == before.skip(i as int)[j + 1]);
                }
            }
            lemma_big_push(earlier.take(i as int), low);
            lemma_big_push(before.take(i as int), limb);
            let w = weight(i as nat);
            let done = big(earlier.take(i as int));
            let source = big(before.take(i as int));
            assert(weight((i + 1) as nat) == BASE as nat * w);
            assert(done + w * low + (BASE as nat * w) * high == (source + w * limb) * m + added)
                by (nonlinear_arith)
                requires
                    done + w * carry == source * m + added,
                    low + BASE * high == limb * m + carry,
            ;
        }
        carry = high;
        i += 1;
    }
    proof {
        assert(v@.take(n as int) =~= v@);
        assert(before.take(n as int) =~= before);
    }
    if carry != 0 {
        proof {
            lemma_big_push(v@, carry);
        }
        v.push(carry);
    } else {
        assert(weight(n as nat) * 0 == 0) by (nonlinear_arith);
    }
}

/// Divides a number by `d` and gives what is left over.
pub fn div_rem(v: &mut Vec<u32>, d: u32) -> (rest: u32)
    requires
        d > 0,
    ensures
        big(final(v)@) == big(old(v)@) / (d as nat),
        rest == big(old(v)@) % (d as nat),
{
    let ghost before = v@;
    let n = v.len();
    let mut rest: u32 = 0;
    let mut i: usize = n;
    proof {
        assert(before.skip(n as int) =~= Seq::<u32>::empty());
        let zero = big(Seq::<u32>::empty());
        assert(zero * d + 0 == 0) by (nonlinear_arith)
            requires
                zero == 0,
        ;
    }
    while i > 0
        invariant
            i <= n,
            n == v.len(),
            n == before.len(),
            d > 0,
            rest < d,
            v@.take(i as int) == before.take(i as int),
            big(before.skip(i as int)) == big(v@.skip(i as int)) * d + rest,
        decreases i,
    {
        let limb = v[i - 1];
        assert(limb == before[i - 1]) by {
            assert(v@.take(i as int)[i - 1] == before.take(i as int)[i - 1]);
        }
        let current: u64 = (rest as u64) * BASE + (limb as u64);
        let quotient: u64 = current / (d as u64);
        let left: u32 = (current % (d as u64)) as u32;
        proof {
            vstd::arithmetic::div_mod::lemma_fundamental_div_mod(current as int, d as int);
            assert(current == d * quotient + left);
            assert(quotient < BASE) by (nonlinear_arith)
                requires
                    current == d * quotient + left,
                    current < d * BASE,
                    d > 0,
                    left >= 0,
            ;
        }
        let ghost earlier = v@;
        v[i - 1] = quotient as u32;
        proof {
            assert(v@.take(i - 1) =~= before.take(i - 1)) by {
                assert forall|j: int| 0 <= j < i - 1 implies #[trigger] v@.take(i - 1)[j]
                    == before.take(i - 1)[j] by {
                    assert(earlier.take(i as int)[j] == before.take(i as int)[j]);
                }
            }
            assert(v@.skip(i - 1).skip(1) =~= earlier.skip(i as int));
            assert(before.skip(i - 1).skip(1) =~= before.skip(i as int));
            assert(v@.skip(i - 1)[0] == quotient);
            assert(before.skip(i - 1)[0] == limb);
            let high_before = big(before.skip(i as int));
            let high_after = big(earlier.skip(i as int));
            assert(big(before.skip(i - 1)) == limb + BASE * high_before);
            assert(big(v@.skip(i - 1)) == quotient + BASE * high_after);
            assert(limb + BASE * high_before == (quotient + BASE * high_after) * d + left)
                by (nonlinear_arith)
                requires
                    high_before == high_after * d + rest,
                    rest * BASE + limb == d * quotient + left,
            ;
        }
        rest = left;
        i -= 1;
    }
    proof {
        assert(v@.skip(0) =~= v@);
        assert(before.skip(0) =~= before);
        vstd::arithmetic::div_mod::lemma_fundamental_div_mod_converse(
            big(before) as int,
            d as int,
            big(v@) as int,
            rest as int,
        );
    }
    rest
}

} // verus!
