//! Rounding of integers to the 53 significant bits of a binary64
//! significand, to nearest and ties to even.
use vstd::prelude::*;
use vstd::arithmetic::div_mod::{
    lemma_div_by_multiple,
    lemma_div_denominator,
    lemma_div_is_ordered,
    lemma_fundamental_div_mod,
    lemma_mod_multiples_basic,
};
use vstd::arithmetic::power2::{
    pow2,
    lemma2_to64,
    lemma2_to64_rest,
    lemma_pow2_adds,
    lemma_pow2_pos,
    lemma_pow2_strictly_increases,
    lemma_pow2_unfold,
};
use crate::double::HIDDEN_BIT;

verus! {

/// Two to the power 53: the first integer whose neighbour is not a double.
pub const TWO_53: u64 = 0x0020_0000_0000_0000;

/// Two to the power 127: integers below it are rounded here without
/// leaving `u128`.
pub const TWO_127: u128 = 0x8000_0000_0000_0000_0000_0000_0000_0000;

/// The number of low bits of `n` that a significand of 53 bits cannot hold.
pub open spec fn excess_bits(n: nat) -> nat
    decreases n,
{
    if n < TWO_53 {
        0
    } else {
        1 + excess_bits(n / 2)
    }
}

/// The multiple of `unit` nearest to `n`; of two equally near, the even
/// multiple.
pub open spec fn round_half_even(n: nat, unit: nat) -> nat {
    let q = n / unit;
    let r = n % unit;
    if 2 * r < unit || (2 * r == unit && q % 2 == 0) {
        q * unit
    } else {
        (q + 1) * unit
    }
}

/// The integer nearest to `n` that has at most 53 significant bits; of two
/// equally near, the one whose significand is even.
pub open spec fn rounded(n: nat) -> nat {
    round_half_even(n, pow2(excess_bits(n)))
}

/// An integer rounded to a significand and a count of trailing zero bits.
pub(crate) struct Rounded {
    pub significand: u64,
    pub shift: u32,
    pub value: u128,
}

/// Rounds `n` to 53 significant bits, ties to even.
pub(crate) fn round(n: u128) -> (r: Rounded)
    requires
        n < TWO_127,
    ensures
        r.value == rounded(n as nat),
        r.value == r.significand * pow2(r.shift as nat),
        r.significand <= TWO_53,
        r.shift < 128,
        r.value <= 2 * n,
        n < TWO_53 ==> r.value == n,
{
    let mut q: u128 = n;
    let mut unit: u128 = 1;
    let mut k: u32 = 0;
    proof {
        lemma2_to64();
    }
    while q >= TWO_53 as u128
        invariant
            n < TWO_127,
            0 < unit < 0x800_0000_0000_0000_0000,
            unit == pow2(k as nat),
            k < 128,
            q == n / unit,
            q * unit <= n,
            k > 0 ==> q >= HIDDEN_BIT,
            excess_bits(n as nat) == k + excess_bits(q as nat),
        decreases q,
    {
        proof {
            assert(unit < 0x400_0000_0000_0000_0000) by (nonlinear_arith)
                requires
                    q >= TWO_53,
                    q * unit <= n,
                    n < TWO_127,
            ;
            lemma_pow2_unfold((k + 1) as nat);
            lemma_div_denominator(n as int, unit as int, 2);
            lemma_fundamental_div_mod(n as int, unit as int * 2);
            if k + 1 >= 128 {
                lemma_small_unit(k as nat);
            }
        }
        q = q / 2;
        unit = unit * 2;
        k = k + 1;
    }
    proof {
        lemma_fundamental_div_mod(n as int, unit as int);
    }
    let rest: u128 = n - q * unit;
    let up: bool = rest * 2 > unit || (rest * 2 == unit && q % 2 == 1);
    let significand: u128 = if up {
        q + 1
    } else {
        q
    };
    proof {
        assert(rest == n as nat % unit as nat);
        assert(excess_bits(q as nat) == 0);
        assert(significand * unit <= 2 * n) by (nonlinear_arith)
            requires
                significand <= q + 1,
                q * unit <= n,
                k > 0 ==> q >= 1,
                k == 0 ==> significand == q,
                unit > 0,
        ;
        assert(significand * unit < 0x1_0000_0000_0000_0000_0000_0000_0000_0000)
            by (nonlinear_arith)
            requires
                significand <= TWO_53,
                unit < 0x800_0000_0000_0000_0000,
        ;
    }
    Rounded { significand: significand as u64, shift: k, value: significand * unit }
}

/// An integer of at most 53 bits, and two to the power 53 itself, is its own
/// rounding: the conversion of such an integer to a double is exact.
pub proof fn lemma_rounded_exact(n: nat)
    requires
        n <= TWO_53,
    ensures
        rounded(n) == n,
{
    lemma2_to64();
    if n < TWO_53 {
        assert(excess_bits(n) == 0);
    } else {
        assert(excess_bits(n / 2) == 0);
        assert(excess_bits(n) == 1);
    }
}

/// Rounding keeps the order of the integers.
pub proof fn lemma_rounded_increases(a: nat, b: nat)
    requires
        a <= b,
    ensures
        rounded(a) <= rounded(b),
{
    let ka = excess_bits(a);
    let kb = excess_bits(b);
    let ua = pow2(ka);
    let ub = pow2(kb);
    let qa = a / ua;
    let qb = b / ub;
    lemma_excess_bits_increases(a, b);
    lemma_excess_quotient(a);
    lemma_excess_quotient(b);
    lemma_rounded_brackets(a);
    lemma_rounded_brackets(b);
    if ka == kb {
        lemma_div_is_ordered(a as int, b as int, ua as int);
        lemma_fundamental_div_mod(a as int, ua as int);
        lemma_fundamental_div_mod(b as int, ua as int);
        if qa < qb {
            assert((qa + 1) * ua <= qb * ua) by (nonlinear_arith)
                requires
                    qa + 1 <= qb,
            ;
        } else {
            assert(ua * qa == qa * ua) by (nonlinear_arith);
            assert(a % ua <= b % ua);
        }
    } else {
        lemma2_to64_rest();
        lemma_pow2_adds(53, ka);
        lemma_pow2_adds(52, kb);
        if 53 + ka < 52 + kb {
            lemma_pow2_strictly_increases(53 + ka, 52 + kb);
        }
        assert((qa + 1) * ua <= pow2(53) * ua) by (nonlinear_arith)
            requires
                qa + 1 <= pow2(53),
        ;
        assert(pow2(52) * ub <= qb * ub) by (nonlinear_arith)
            requires
                pow2(52) <= qb,
        ;
    }
}

/// Rounding at most doubles a number.
pub proof fn lemma_rounded_bound(n: nat)
    ensures
        rounded(n) <= 2 * n,
{
    let unit = pow2(excess_bits(n));
    let q = n / unit;
    lemma_excess_quotient(n);
    lemma_rounded_brackets(n);
    lemma_fundamental_div_mod(n as int, unit as int);
    lemma2_to64();
    if excess_bits(n) == 0 {
        assert(unit == 1);
        assert(n % unit == 0);
    } else {
        assert((q + 1) * unit <= 2 * (unit * q)) by (nonlinear_arith)
            requires
                q >= 1,
                unit > 0,
        ;
    }
}

/// The rounded integer is a multiple of the unit in its last place, has at
/// most 53 significant bits counted in that unit, and is no further from
/// the integer than half a unit.
pub proof fn lemma_rounded_is_nearest(n: nat)
    ensures
        rounded(n) % pow2(excess_bits(n)) == 0,
        rounded(n) / pow2(excess_bits(n)) <= TWO_53,
        2 * (rounded(n) - n) <= pow2(excess_bits(n)),
        2 * (n - rounded(n)) <= pow2(excess_bits(n)),
{
    let unit = pow2(excess_bits(n));
    let q = n / unit;
    lemma_excess_quotient(n);
    lemma_fundamental_div_mod(n as int, unit as int);
    assert(unit * q == q * unit) by (nonlinear_arith);
    assert((q + 1) * unit == q * unit + unit) by (nonlinear_arith);
    lemma_mod_multiples_basic(q as int, unit as int);
    lemma_mod_multiples_basic(q as int + 1, unit as int);
    lemma_div_by_multiple(q as int, unit as int);
    lemma_div_by_multiple(q as int + 1, unit as int);
}

/// With its excess bits dropped, a number fits in 53 bits, and fills them
/// where any bit was dropped.
pub(crate) proof fn lemma_excess_quotient(n: nat)
    ensures
        n / pow2(excess_bits(n)) < TWO_53,
        excess_bits(n) > 0 ==> n / pow2(excess_bits(n)) >= HIDDEN_BIT,
        pow2(excess_bits(n)) > 0,
    decreases n,
{
    lemma2_to64();
    lemma_pow2_pos(excess_bits(n));
    if n >= TWO_53 {
        let k = excess_bits(n / 2);
        lemma_excess_quotient(n / 2);
        lemma_pow2_unfold(k + 1);
        lemma_pow2_pos(k);
        lemma_div_denominator(n as int, 2, pow2(k) as int);
    }
}

/// A larger number has no fewer excess bits.
proof fn lemma_excess_bits_increases(a: nat, b: nat)
    requires
        a <= b,
    ensures
        excess_bits(a) <= excess_bits(b),
    decreases a,
{
    if a >= TWO_53 {
        lemma_excess_bits_increases(a / 2, b / 2);
    }
}

/// Rounding moves a number to one of the two multiples of its unit around
/// it.
proof fn lemma_rounded_brackets(n: nat)
    ensures
        (n / pow2(excess_bits(n))) * pow2(excess_bits(n)) <= rounded(n),
        rounded(n) <= (n / pow2(excess_bits(n)) + 1) * pow2(excess_bits(n)),
{
    let unit = pow2(excess_bits(n));
    let q = n / unit;
    assert(q * unit <= (q + 1) * unit) by (nonlinear_arith);
}

/// A power of two below two to the power 75 has an exponent below 75.
pub(crate) proof fn lemma_small_unit(k: nat)
    requires
        pow2(k) < 0x800_0000_0000_0000_0000,
    ensures
        k < 75,
{
    lemma2_to64();
    lemma_pow2_adds(64, 11);
    assert(pow2(75) == 0x800_0000_0000_0000_0000) by (nonlinear_arith)
        requires
            pow2(75) == pow2(64) * pow2(11),
            pow2(64) == 0x1_0000_0000_0000_0000,
            pow2(11) == 0x800,
    ;
    if k > 75 {
        lemma_pow2_strictly_increases(75, k);
    }
}

} // verus!
