//! IEEE 754 binary64 values as bit patterns.
//!
//! A `Double` is the 64-bit encoding of a double precision number: one sign
//! bit, eleven exponent bits and fifty-two fraction bits. Every bit pattern
//! is a `Double`. The comparisons `lt`, `le` and `num_eq` follow IEEE 754: a
//! NaN compares false with everything, and the two zeros are equal. The
//! operator `==` compares encodings instead: it tells the two zeros apart
//! and finds a NaN equal to itself.
//!
//! What a `Double` is worth is stated in integers: `scaled` gives the
//! absolute value in units of the smallest positive double, and
//! `lemma_order_is_numeric` shows that the comparisons order the encodings
//! as those values are ordered.
use vstd::prelude::*;
use vstd::arithmetic::power2::{
    pow2,
    lemma2_to64,
    lemma_pow2_pos,
    lemma_pow2_strictly_increases,
    lemma_pow2_unfold,
};

verus! {

/// The sign bit of the encoding.
pub const SIGN_BIT: u64 = 0x8000_0000_0000_0000;

/// The encoding of positive infinity; larger magnitudes encode NaNs.
pub const INFINITY_BITS: u64 = 0x7FF0_0000_0000_0000;

/// Two to the power 52: the weight of the implicit leading bit of a
/// normal significand, and the weight of the exponent field in the encoding.
pub const HIDDEN_BIT: u64 = 0x0010_0000_0000_0000;

/// The encoding of the number one.
pub const ONE_BITS: u64 = 0x3FF0_0000_0000_0000;

/// The binary exponent of the number one in units of the smallest positive
/// value: one is `pow2(UNIT_SCALE)` such units.
pub const UNIT_SCALE: u64 = 1074;

/// A binary64 value, held as its encoding.
#[derive(Clone, Copy, Debug, PartialEq, Eq, Structural)]
pub struct Double {
    pub bits: u64,
}

impl Double {
    /// Whether the sign bit is set.
    pub open spec fn negative(self) -> bool {
        self.bits >= SIGN_BIT
    }

    /// The encoding without its sign bit.
    pub open spec fn magnitude(self) -> int {
        if self.bits >= SIGN_BIT {
            self.bits - SIGN_BIT
        } else {
            self.bits as int
        }
    }

    /// Whether the encoding is that of a NaN.
    pub open spec fn is_nan(self) -> bool {
        self.magnitude() > INFINITY_BITS
    }

    /// The biased exponent field, from 0 to 2047.
    pub open spec fn exponent(self) -> int {
        self.magnitude() / (HIDDEN_BIT as int)
    }

    /// The fraction field.
    pub open spec fn fraction(self) -> int {
        self.magnitude() % (HIDDEN_BIT as int)
    }

    /// The position of the value in the order of all numbers: the magnitude
    /// of the encoding, negated under a sign bit. Both zeros have rank 0.
    pub open spec fn rank(self) -> int {
        if self.negative() {
            -self.magnitude()
        } else {
            self.magnitude()
        }
    }

    /// IEEE 754 `<`.
    pub open spec fn spec_lt(self, other: Double) -> bool {
        !self.is_nan() && !other.is_nan() && self.rank() < other.rank()
    }

    /// IEEE 754 `<=`.
    pub open spec fn spec_le(self, other: Double) -> bool {
        !self.is_nan() && !other.is_nan() && self.rank() <= other.rank()
    }

    /// IEEE 754 `==`.
    pub open spec fn spec_num_eq(self, other: Double) -> bool {
        !self.is_nan() && !other.is_nan() && self.rank() == other.rank()
    }

    /// The integer significand: the fraction field, with the implicit
    /// leading bit when the exponent field is not zero.
    pub open spec fn significand(self) -> nat {
        if self.exponent() == 0 {
            self.fraction() as nat
        } else {
            (HIDDEN_BIT + self.fraction()) as nat
        }
    }

    /// The binary exponent of the last place of the significand, counted
    /// from that of the smallest positive value.
    pub open spec fn scale(self) -> nat {
        if self.exponent() == 0 {
            0
        } else {
            (self.exponent() - 1) as nat
        }
    }

    /// The absolute value of a number in units of the smallest positive
    /// value, two to the power -1074. It is exact for every finite value;
    /// an infinity has the next power of two above all of them.
    pub open spec fn scaled(self) -> nat {
        self.significand() * pow2(self.scale())
    }

    /// The value in the same units, with its sign.
    pub open spec fn signed_scaled(self) -> int {
        if self.negative() {
            -(self.scaled() as int)
        } else {
            self.scaled() as int
        }
    }

    /// Whether the value is a number without a sign bit: positive zero, a
    /// positive finite number or positive infinity.
    pub open spec fn is_amount(self) -> bool {
        !self.negative() && !self.is_nan()
    }

    /// The amount that is `v` units of the smallest positive value, where
    /// there is one.
    pub open spec fn of_scaled(v: nat) -> Double {
        choose|d: Double| d.is_amount() && d.scaled() == v
    }

    /// Positive zero.
    pub open spec fn spec_zero() -> Double {
        Double { bits: 0 }
    }

    /// The number one.
    pub open spec fn spec_one() -> Double {
        Double { bits: ONE_BITS }
    }

    /// The value with the given encoding.
    pub fn from_bits(bits: u64) -> (d: Double)
        ensures
            d.bits == bits,
    {
        Double { bits }
    }

    /// The encoding of the value.
    pub fn to_bits(self) -> (bits: u64)
        ensures
            bits == self.bits,
    {
        self.bits
    }

    /// Positive zero.
    #[verifier::when_used_as_spec(spec_zero)]
    pub fn zero() -> (d: Double)
        ensures
            d == Double::spec_zero(),
    {
        Double { bits: 0 }
    }

    /// The number one.
    #[verifier::when_used_as_spec(spec_one)]
    pub fn one() -> (d: Double)
        ensures
            d == Double::spec_one(),
    {
        Double { bits: ONE_BITS }
    }

    /// The encoding without its sign bit.
    fn magnitude_bits(self) -> (m: u64)
        ensures
            m == self.magnitude(),
    {
        if self.bits >= SIGN_BIT {
            self.bits - SIGN_BIT
        } else {
            self.bits
        }
    }

    /// Whether the value is a NaN.
    pub fn nan(self) -> (r: bool)
        ensures
            r == self.is_nan(),
    {
        self.magnitude_bits() > INFINITY_BITS
    }

    /// IEEE 754 `<`: false when either side is a NaN.
    #[verifier::when_used_as_spec(spec_lt)]
    pub fn lt(self, other: Double) -> (r: bool)
        ensures
            r == self.spec_lt(other),
    {
        if self.nan() || other.nan() {
            return false;
        }
        let a: u64 = self.magnitude_bits();
        let b: u64 = other.magnitude_bits();
        if self.bits >= SIGN_BIT {
            if other.bits >= SIGN_BIT {
                b < a
            } else {
                a > 0 || b > 0
            }
        } else {
            if other.bits >= SIGN_BIT {
                false
            } else {
                a < b
            }
        }
    }

    /// IEEE 754 `<=`: false when either side is a NaN.
    #[verifier::when_used_as_spec(spec_le)]
    pub fn le(self, other: Double) -> (r: bool)
        ensures
            r == self.spec_le(other),
    {
        if self.nan() || other.nan() {
            return false;
        }
        let a: u64 = self.magnitude_bits();
        let b: u64 = other.magnitude_bits();
        if self.bits >= SIGN_BIT {
            if other.bits >= SIGN_BIT {
                b <= a
            } else {
                true
            }
        } else {
            if other.bits >= SIGN_BIT {
                a == 0 && b == 0
            } else {
                a <= b
            }
        }
    }

    /// IEEE 754 `==`: false when either side is a NaN, true of the two zeros.
    #[verifier::when_used_as_spec(spec_num_eq)]
    pub fn num_eq(self, other: Double) -> (r: bool)
        ensures
            r == self.spec_num_eq(other),
    {
        if self.nan() || other.nan() {
            return false;
        }
        let a: u64 = self.magnitude_bits();
        let b: u64 = other.magnitude_bits();
        self.bits == other.bits || (a == 0 && b == 0)
    }
}

/// The absolute value written out over the two fields of the encoding.
pub proof fn lemma_scaled_unfold(d: Double)
    ensures
        0 <= d.fraction() < HIDDEN_BIT,
        0 <= d.exponent() < 4096,
        d.magnitude() == d.exponent() * HIDDEN_BIT + d.fraction(),
        d.exponent() == 0 ==> d.scaled() == d.fraction(),
        d.exponent() != 0 ==> d.scaled() == (HIDDEN_BIT + d.fraction()) * pow2(
            (d.exponent() - 1) as nat,
        ),
{
    lemma2_to64();
    let f = d.fraction();
    let p = pow2(d.scale()) as int;
    if d.exponent() == 0 {
        assert(f * p == f) by (nonlinear_arith)
            requires
                p == 1,
        ;
    }
}

/// A larger encoding without sign is a larger absolute value.
pub proof fn lemma_scaled_increases(a: Double, b: Double)
    requires
        a.magnitude() < b.magnitude(),
    ensures
        a.scaled() < b.scaled(),
{
    let h = HIDDEN_BIT as int;
    let ea = a.exponent();
    let eb = b.exponent();
    let fa = a.fraction();
    let fb = b.fraction();
    lemma_scaled_unfold(a);
    lemma_scaled_unfold(b);
    if ea == eb {
        if ea != 0 {
            let p = pow2((ea - 1) as nat) as int;
            lemma_pow2_pos((ea - 1) as nat);
            assert((h + fa) * p < (h + fb) * p) by (nonlinear_arith)
                requires
                    fa < fb,
                    p > 0,
            ;
        }
    } else {
        assert(ea < eb);
        let pb = pow2((eb - 1) as nat) as int;
        lemma_pow2_pos((eb - 1) as nat);
        assert(h * pb <= (h + fb) * pb) by (nonlinear_arith)
            requires
                0 <= fb,
                pb > 0,
        ;
        if ea == 0 {
            assert(h <= h * pb) by (nonlinear_arith)
                requires
                    pb >= 1,
                    h > 0,
            ;
        } else {
            let pa = pow2((ea - 1) as nat) as int;
            lemma_pow2_pos((ea - 1) as nat);
            lemma_pow2_unfold(ea as nat);
            if ea < eb - 1 {
                lemma_pow2_strictly_increases(ea as nat, (eb - 1) as nat);
            }
            assert(pow2(ea as nat) <= pb);
            assert((h + fa) * pa < h * pb) by (nonlinear_arith)
                requires
                    0 <= fa < h,
                    pa > 0,
                    2 * pa <= pb,
            ;
        }
    }
}

/// Two amounts of the same absolute value are the same encoding.
pub proof fn lemma_scaled_determines(a: Double, b: Double)
    requires
        a.is_amount(),
        b.is_amount(),
        a.scaled() == b.scaled(),
    ensures
        a == b,
{
    if a.magnitude() < b.magnitude() {
        lemma_scaled_increases(a, b);
    }
    if b.magnitude() < a.magnitude() {
        lemma_scaled_increases(b, a);
    }
}

/// An amount is the amount of its own absolute value.
pub proof fn lemma_of_scaled(d: Double)
    requires
        d.is_amount(),
    ensures
        Double::of_scaled(d.scaled()) == d,
{
    lemma_scaled_determines(Double::of_scaled(d.scaled()), d);
}

/// The order of the encodings is the order of the numbers: for two values
/// that are not NaNs, `<=` holds exactly when the signed values compare so,
/// and `==` exactly when they are equal.
pub proof fn lemma_order_is_numeric(a: Double, b: Double)
    requires
        !a.is_nan(),
        !b.is_nan(),
    ensures
        a.spec_le(b) <==> a.signed_scaled() <= b.signed_scaled(),
        a.spec_lt(b) <==> a.signed_scaled() < b.signed_scaled(),
        a.spec_num_eq(b) <==> a.signed_scaled() == b.signed_scaled(),
{
    let zero = Double::spec_zero();
    lemma_scaled_unfold(zero);
    lemma_scaled_unfold(a);
    lemma_scaled_unfold(b);
    if a.magnitude() < b.magnitude() {
        lemma_scaled_increases(a, b);
    }
    if b.magnitude() < a.magnitude() {
        lemma_scaled_increases(b, a);
    }
    if 0 < a.magnitude() {
        lemma_scaled_increases(zero, a);
    }
    if 0 < b.magnitude() {
        lemma_scaled_increases(zero, b);
    }
    if a.magnitude() == 0 {
        assert(a.exponent() == 0 && a.fraction() == 0);
    }
    if b.magnitude() == 0 {
        assert(b.exponent() == 0 && b.fraction() == 0);
    }
    if a.magnitude() == b.magnitude() {
        assert(a.scaled() == b.scaled());
    }
}

} // verus!
