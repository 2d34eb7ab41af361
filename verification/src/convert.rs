//! Conversions between integers and binary64 values, in integer arithmetic.
//!
//! An integer becomes the nearest double, ties going to the even
//! significand, as IEEE 754 asks of a conversion and of an addition. A
//! random word becomes a number below one. A double becomes an index by
//! dropping its fractional part, with the bounds of `usize` standing in for
//! what lies beyond them.
use vstd::prelude::*;
use vstd::arithmetic::div_mod::{
    lemma_basic_div,
    lemma_div_by_multiple,
    lemma_div_is_ordered,
    lemma_div_multiples_vanish_quotient,
    lemma_fundamental_div_mod,
    lemma_multiply_divide_lt,
};
use vstd::arithmetic::power2::{
    pow2,
    lemma2_to64,
    lemma2_to64_rest,
    lemma_pow2_adds,
    lemma_pow2_pos,
    lemma_pow2_strictly_increases,
    lemma_pow2_unfold,
};
use vstd::bits::{lemma_u64_shl_is_mul, lemma_u64_shr_is_div};
use crate::double::{
    Double,
    HIDDEN_BIT,
    INFINITY_BITS,
    ONE_BITS,
    SIGN_BIT,
    UNIT_SCALE,
    lemma_of_scaled,
    lemma_order_is_numeric,
    lemma_scaled_increases,
    lemma_scaled_unfold,
};
use crate::rounding::{
    excess_bits,
    round,
    rounded,
    TWO_127,
    TWO_53,
    lemma_excess_quotient,
    lemma_rounded_exact,
    lemma_small_unit,
};

verus! {

/// The bits of a random word that do not enter a uniform draw, as a divisor:
/// two to the power 11.
pub const WORD_TAIL: u64 = 2048;

/// The binary exponent of two to the power -53 in units of the smallest
/// positive double.
pub const DRAW_SCALE: u32 = 1021;

impl Double {
    /// Whether the value is exactly the integer `n`.
    pub open spec fn is_whole(self, n: nat) -> bool {
        self.is_amount() && self.scaled() == n * pow2(UNIT_SCALE as nat)
    }

    /// The double nearest to the integer `n`, ties going to the even
    /// significand: what a conversion of `n` to binary64 gives.
    pub open spec fn nearest(n: nat) -> Double {
        Double::of_scaled(rounded(n) * pow2(UNIT_SCALE as nat))
    }

    /// The sum of the doubles nearest to `a` and to `b`: their exact sum,
    /// rounded once more.
    pub open spec fn spec_index_sum(a: usize, b: usize) -> Double {
        Double::nearest(rounded(a as nat) + rounded(b as nat))
    }

    /// The 53 high bits of `word`, read as a multiple of two to the power
    /// -53: a number in the half-open interval from zero to one.
    pub open spec fn spec_from_word(word: u64) -> Double {
        Double::of_scaled((word / WORD_TAIL) as nat * pow2(DRAW_SCALE as nat))
    }

    /// The whole part of the absolute value.
    pub open spec fn floor(self) -> nat {
        self.scaled() / pow2(UNIT_SCALE as nat)
    }

    /// The value as an index: its whole part where that is an index, zero
    /// for a NaN and for everything under a sign bit, the largest index for
    /// everything beyond it.
    pub open spec fn spec_to_index(self) -> usize {
        if self.is_nan() || self.negative() {
            0
        } else if self.floor() > usize::MAX {
            usize::MAX
        } else {
            self.floor() as usize
        }
    }

    /// The double nearest to `n`, as a conversion of an index to binary64
    /// gives it.
    pub fn from_index(n: usize) -> (d: Double)
        ensures
            d == Double::nearest(n as nat),
            d.is_whole(rounded(n as nat)),
    {
        nearest_to(n as u128)
    }

    /// The sum of `a` and `b` as binary64 arithmetic gives it: each is
    /// converted, and the exact sum of the two doubles is rounded.
    #[verifier::when_used_as_spec(spec_index_sum)]
    pub fn index_sum(a: usize, b: usize) -> (d: Double)
        ensures
            d == Double::spec_index_sum(a, b),
            d.is_whole(rounded(rounded(a as nat) + rounded(b as nat))),
    {
        let left = round(a as u128);
        let right = round(b as u128);
        nearest_to(left.value + right.value)
    }

    /// A number in the half-open interval from zero to one, from the 53
    /// high bits of a random word: those bits times two to the power -53.
    #[verifier::when_used_as_spec(spec_from_word)]
    pub fn from_word(word: u64) -> (d: Double)
        ensures
            d == Double::spec_from_word(word),
            Double::spec_zero().spec_le(d),
            d.spec_lt(Double::spec_one()),
        no_unwind
    {
        let k: u64 = word / WORD_TAIL;
        let d = compose(k, DRAW_SCALE);
        proof {
            lemma_of_scaled(d);
            lemma_word_fraction(word);
        }
        d
    }

    /// The value as an index, as a cast of a binary64 value to `usize`
    /// gives it: the fractional part is dropped, a NaN and a negative value
    /// give zero, a value beyond the largest index gives the largest index.
    #[verifier::when_used_as_spec(spec_to_index)]
    pub fn to_index(self) -> (i: usize)
        ensures
            i == self.spec_to_index(),
    {
        if self.bits >= SIGN_BIT || self.bits > INFINITY_BITS {
            return 0;
        }
        let e: u64 = self.bits / HIDDEN_BIT;
        let f: u64 = self.bits % HIDDEN_BIT;
        let m: u64 = HIDDEN_BIT + f;
        proof {
            lemma2_to64();
            lemma2_to64_rest();
            lemma_scaled_unfold(self);
            lemma_pow2_pos(UNIT_SCALE as nat);
        }
        if e < 1023 {
            proof {
                let one = pow2(UNIT_SCALE as nat) as int;
                if e == 0 {
                    lemma_pow2_strictly_increases(52, UNIT_SCALE as nat);
                } else {
                    let low = pow2((e - 1) as nat) as int;
                    lemma_pow2_pos((e - 1) as nat);
                    lemma_pow2_adds(53, (e - 1) as nat);
                    if e + 52 < UNIT_SCALE {
                        lemma_pow2_strictly_increases((e + 52) as nat, UNIT_SCALE as nat);
                    }
                    assert(m * low < pow2(53) * low) by (nonlinear_arith)
                        requires
                            m < pow2(53),
                            low > 0,
                    ;
                }
                lemma_basic_div(self.scaled() as int, one);
            }
            return 0;
        }
        if e >= 1087 {
            proof {
                let one = pow2(UNIT_SCALE as nat) as int;
                let low = pow2((e - 1) as nat) as int;
                lemma_pow2_adds(64, UNIT_SCALE as nat);
                lemma_pow2_adds(52, (e - 1) as nat);
                if 1138 < e + 51 {
                    lemma_pow2_strictly_increases(1138, (e + 51) as nat);
                }
                assert(pow2(52) * low <= m * low) by (nonlinear_arith)
                    requires
                        pow2(52) <= m,
                        low >= 0,
                ;
                lemma_div_is_ordered(pow2(64) * one, self.scaled() as int, one);
                lemma_div_by_multiple(pow2(64) as int, one);
            }
            return usize::MAX;
        }
        proof {
            lemma_floor(self);
        }
        let whole: u64 = if e >= 1075 {
            let shift: u64 = e - 1075;
            proof {
                if shift < 11 {
                    lemma_pow2_strictly_increases(shift as nat, 11);
                }
                assert(m * pow2(shift as nat) <= u64::MAX) by (nonlinear_arith)
                    requires
                        m < TWO_53,
                        pow2(shift as nat) <= 0x800,
                ;
                lemma_u64_shl_is_mul(m, shift);
            }
            m << shift
        } else {
            let shift: u64 = 1075 - e;
            proof {
                lemma_u64_shr_is_div(m, shift);
            }
            m >> shift
        };
        if whole > usize::MAX as u64 {
            usize::MAX
        } else {
            whole as usize
        }
    }
}

/// The double nearest to an integer below two to the power 127 exists, and
/// is exactly the rounded integer.
pub proof fn lemma_nearest(n: nat)
    requires
        n < TWO_127,
    ensures
        Double::nearest(n).is_whole(rounded(n)),
{
    let k = excess_bits(n);
    let unit = pow2(k);
    let q = n / unit;
    let one = pow2(UNIT_SCALE as nat);
    lemma_excess_quotient(n);
    lemma_fundamental_div_mod(n as int, unit as int);
    if k > 0 {
        assert(unit < 0x800_0000_0000_0000_0000) by (nonlinear_arith)
            requires
                q >= HIDDEN_BIT,
                unit * q <= n,
                n < TWO_127,
        ;
        lemma_small_unit(k);
    }
    let significand: nat = if rounded(n) == q * unit {
        q
    } else {
        q + 1
    };
    assert(rounded(n) == significand * unit);
    let d = if significand == TWO_53 {
        encode(HIDDEN_BIT as nat, k + UNIT_SCALE as nat + 1)
    } else {
        encode(significand, k + UNIT_SCALE as nat)
    };
    if significand == TWO_53 {
        lemma_encode(HIDDEN_BIT as nat, k + UNIT_SCALE as nat + 1);
        lemma_pow2_unfold(k + UNIT_SCALE as nat + 1);
        let p = pow2(k + UNIT_SCALE as nat);
        assert(HIDDEN_BIT * (2 * p) == TWO_53 * p) by (nonlinear_arith);
    } else {
        lemma_encode(significand, k + UNIT_SCALE as nat);
    }
    lemma_pow2_adds(k, UNIT_SCALE as nat);
    assert(significand * (unit * one) == (significand * unit) * one) by (nonlinear_arith);
    assert(d.is_amount() && d.scaled() == rounded(n) * one);
    lemma_of_scaled(d);
}

/// The number that a random word becomes exists, is the 53 high bits of the
/// word times two to the power -53, and lies in the half-open interval from
/// zero to one.
pub proof fn lemma_word_fraction(word: u64)
    ensures
        Double::spec_from_word(word).is_amount(),
        Double::spec_from_word(word).scaled() == (word / WORD_TAIL) * pow2(DRAW_SCALE as nat),
        Double::spec_zero().spec_le(Double::spec_from_word(word)),
        Double::spec_from_word(word).spec_lt(Double::spec_one()),
{
    let k = (word / WORD_TAIL) as nat;
    let p = pow2(DRAW_SCALE as nat);
    let d = encode(k, DRAW_SCALE as nat);
    lemma_encode(k, DRAW_SCALE as nat);
    lemma_of_scaled(d);
    let one = Double::spec_one();
    lemma_scaled_unfold(one);
    assert(one.exponent() == 1023 && one.fraction() == 0);
    lemma2_to64_rest();
    lemma_pow2_adds(52, 1022);
    lemma_pow2_adds(53, DRAW_SCALE as nat);
    lemma_pow2_pos(DRAW_SCALE as nat);
    assert(k * p < pow2(53) * p) by (nonlinear_arith)
        requires
            k < pow2(53),
            p > 0,
    ;
    assert(d.scaled() < one.scaled());
    if d.magnitude() > ONE_BITS {
        lemma_scaled_increases(one, d);
    }
}

/// Doubles that are integers compare as the integers do.
pub proof fn lemma_whole_order(a: Double, m: nat, b: Double, n: nat)
    requires
        a.is_whole(m),
        b.is_whole(n),
    ensures
        a.spec_le(b) <==> m <= n,
        a.spec_lt(b) <==> m < n,
        a.spec_num_eq(b) <==> m == n,
{
    let one = pow2(UNIT_SCALE as nat);
    lemma_pow2_pos(UNIT_SCALE as nat);
    lemma_order_is_numeric(a, b);
    assert(m <= n <==> m * one <= n * one) by (nonlinear_arith)
        requires
            one > 0,
    ;
    assert(m < n <==> m * one < n * one) by (nonlinear_arith)
        requires
            one > 0,
    ;
}

/// Positive zero is the integer zero.
pub proof fn lemma_zero_is_whole()
    ensures
        Double::spec_zero().is_whole(0),
{
    lemma_scaled_unfold(Double::spec_zero());
}

/// A value below a positive integer has an index below it.
pub proof fn lemma_index_below(x: Double, high: Double, n: nat)
    requires
        high.is_whole(n),
        x.spec_lt(high),
        0 < n,
    ensures
        x.spec_to_index() < n,
{
    let one = pow2(UNIT_SCALE as nat);
    lemma_pow2_pos(UNIT_SCALE as nat);
    lemma_order_is_numeric(x, high);
    if !x.negative() {
        assert(one * n == n * one) by (nonlinear_arith);
        lemma_multiply_divide_lt(x.scaled() as int, one as int, n as int);
    }
}

/// A value that is at least an integer has an index that is at least that
/// integer.
pub proof fn lemma_index_at_least(x: Double, low: Double, m: nat)
    requires
        low.is_whole(m),
        low.spec_le(x),
        m <= usize::MAX,
    ensures
        m <= x.spec_to_index(),
{
    let one = pow2(UNIT_SCALE as nat);
    lemma_pow2_pos(UNIT_SCALE as nat);
    lemma_order_is_numeric(low, x);
    if x.negative() {
        lemma_scaled_unfold(x);
        assert(m == 0) by (nonlinear_arith)
            requires
                m * one <= 0,
                one > 0,
        ;
    } else {
        lemma_div_is_ordered((m * one) as int, x.scaled() as int, one as int);
        lemma_div_by_multiple(m as int, one as int);
    }
}

/// An index that converts exactly comes back from its double unchanged.
pub proof fn lemma_index_round_trip(n: usize)
    requires
        n <= TWO_53,
    ensures
        Double::nearest(n as nat).spec_to_index() == n,
{
    let d = Double::nearest(n as nat);
    let one = pow2(UNIT_SCALE as nat);
    lemma_pow2_pos(UNIT_SCALE as nat);
    lemma_nearest(n as nat);
    lemma_rounded_exact(n as nat);
    lemma_div_by_multiple(n as int, one as int);
}

/// A larger value has no smaller index: truncation keeps the order.
pub proof fn lemma_index_increases(x: Double, y: Double)
    requires
        x.spec_le(y),
    ensures
        x.spec_to_index() <= y.spec_to_index(),
{
    let one = pow2(UNIT_SCALE as nat);
    lemma_pow2_pos(UNIT_SCALE as nat);
    lemma_order_is_numeric(x, y);
    if !x.negative() {
        if y.negative() {
            lemma_scaled_unfold(y);
            assert(x.scaled() == 0);
            lemma_basic_div(0, one as int);
        } else {
            lemma_div_is_ordered(x.scaled() as int, y.scaled() as int, one as int);
        }
    }
}

/// The amount `significand * 2^scale`, in units of the smallest positive
/// double.
fn compose(significand: u64, scale: u32) -> (d: Double)
    requires
        significand <= TWO_53,
        scale < 2045,
    ensures
        d.is_amount(),
        d.magnitude() < INFINITY_BITS,
        d.scaled() == significand * pow2(scale as nat),
    no_unwind
{
    if significand == 0 {
        let d = Double { bits: 0 };
        proof {
            lemma_scaled_unfold(d);
            assert(0 * pow2(scale as nat) == 0) by (nonlinear_arith);
        }
        return d;
    }
    let mut m: u64 = significand;
    let mut e: u32 = scale;
    if m == TWO_53 {
        m = HIDDEN_BIT;
        e = e + 1;
        proof {
            lemma_pow2_unfold(e as nat);
            let p = pow2(scale as nat);
            assert(HIDDEN_BIT * (2 * p) == TWO_53 * p) by (nonlinear_arith);
        }
    }
    while m < HIDDEN_BIT && e > 0
        invariant
            0 < m < TWO_53,
            e <= 2045,
            m * pow2(e as nat) == significand * pow2(scale as nat),
        decreases e,
    {
        proof {
            lemma_pow2_unfold(e as nat);
            let p = pow2((e - 1) as nat);
            assert((m * 2) * p == m * (2 * p)) by (nonlinear_arith);
        }
        m = m * 2;
        e = e - 1;
    }
    if m < HIDDEN_BIT {
        let d = Double { bits: m };
        proof {
            lemma_scaled_unfold(d);
            lemma2_to64();
            assert(m * pow2(0) == m) by (nonlinear_arith)
                requires
                    pow2(0) == 1,
            ;
        }
        d
    } else {
        let field: u64 = e as u64 + 1;
        let d = Double { bits: field * HIDDEN_BIT + (m - HIDDEN_BIT) };
        proof {
            lemma_scaled_unfold(d);
            assert(d.exponent() == field);
            assert(d.fraction() == m - HIDDEN_BIT);
        }
        d
    }
}

/// The double nearest to `n`.
fn nearest_to(n: u128) -> (d: Double)
    requires
        n < TWO_127,
    ensures
        d == Double::nearest(n as nat),
        d.is_whole(rounded(n as nat)),
{
    let r = round(n);
    let d = compose(r.significand, r.shift + UNIT_SCALE as u32);
    proof {
        let p = pow2(r.shift as nat);
        let one = pow2(UNIT_SCALE as nat);
        lemma_pow2_adds(r.shift as nat, UNIT_SCALE as nat);
        assert(r.significand * (p * one) == (r.significand * p) * one) by (nonlinear_arith);
        lemma_of_scaled(d);
    }
    d
}

/// The encoding of `significand * 2^scale` units of the smallest positive
/// double, for a significand of at most 53 bits.
spec fn encode(significand: nat, scale: nat) -> Double
    decreases scale,
{
    if significand >= HIDDEN_BIT {
        Double { bits: ((scale + 1) * HIDDEN_BIT + (significand - HIDDEN_BIT)) as u64 }
    } else if scale == 0 {
        Double { bits: significand as u64 }
    } else {
        encode(2 * significand, (scale - 1) as nat)
    }
}

/// `encode` gives an amount of the value that it is asked for.
proof fn lemma_encode(significand: nat, scale: nat)
    requires
        significand < TWO_53,
        scale < 2046,
    ensures
        encode(significand, scale).is_amount(),
        encode(significand, scale).scaled() == significand * pow2(scale),
    decreases scale,
{
    let d = encode(significand, scale);
    lemma2_to64();
    if significand >= HIDDEN_BIT {
        lemma_scaled_unfold(d);
        assert(d.bits == (scale + 1) * HIDDEN_BIT + (significand - HIDDEN_BIT));
        assert(d.exponent() == scale + 1);
        assert(d.fraction() == significand - HIDDEN_BIT);
    } else if scale == 0 {
        lemma_scaled_unfold(d);
        assert(significand * pow2(0) == significand) by (nonlinear_arith)
            requires
                pow2(0) == 1,
        ;
    } else {
        lemma_encode(2 * significand, (scale - 1) as nat);
        lemma_pow2_unfold(scale);
        let p = pow2((scale - 1) as nat);
        assert((2 * significand) * p == significand * (2 * p)) by (nonlinear_arith);
    }
}

/// The whole part of a normal amount, by the place of its binary point.
proof fn lemma_floor(d: Double)
    requires
        d.exponent() >= 1,
    ensures
        d.exponent() >= 1075 ==> d.floor() == (HIDDEN_BIT + d.fraction()) * pow2(
            (d.exponent() - 1075) as nat,
        ),
        d.exponent() < 1075 ==> d.floor() == (HIDDEN_BIT + d.fraction()) / (pow2(
            (1075 - d.exponent()) as nat,
        ) as int),
{
    lemma_scaled_unfold(d);
    let e = d.exponent();
    let m = HIDDEN_BIT + d.fraction();
    let one = pow2(UNIT_SCALE as nat) as int;
    lemma_pow2_pos(UNIT_SCALE as nat);
    if e >= 1075 {
        let p = pow2((e - 1075) as nat) as int;
        lemma_pow2_adds((e - 1075) as nat, UNIT_SCALE as nat);
        assert(m * (p * one) == (m * p) * one) by (nonlinear_arith);
        assert(m * p >= 0) by (nonlinear_arith)
            requires
                m >= 0,
                p >= 0,
        ;
        lemma_div_by_multiple(m * p, one);
    } else {
        let low = pow2((e - 1) as nat) as int;
        let p = pow2((1075 - e) as nat) as int;
        lemma_pow2_pos((e - 1) as nat);
        lemma_pow2_pos((1075 - e) as nat);
        lemma_pow2_adds((e - 1) as nat, (1075 - e) as nat);
        lemma_div_multiples_vanish_quotient(low, m, p);
        assert(m * low == low * m) by (nonlinear_arith);
    }
}

} // verus!
