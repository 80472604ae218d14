//! Double-precision values carried by their bit patterns.
//!
//! The library never computes with rounded arithmetic. It classifies, orders
//! and selects samples, and for that the sixty-four bits of a value are
//! enough: one sign bit, eleven exponent bits and fifty-two fraction bits.
//! Callers obtain the bits of a native value with `to_bits` and turn a
//! `Double` back with `from_bits`.

use vstd::arithmetic::power2::{
    lemma2_to64, lemma_pow2_adds, lemma_pow2_pos, lemma_pow2_strictly_increases,
    lemma_pow2_unfold, pow2,
};
use vstd::prelude::*;

verus! {

/// The bit that carries the sign.
pub const SIGN_BIT: u64 = 0x8000_0000_0000_0000;

/// The magnitude of an infinity. Larger magnitudes are not numbers.
pub const INFINITY_BITS: u64 = 0x7FF0_0000_0000_0000;

/// The bits of the value one.
pub const ONE_BITS: u64 = 0x3FF0_0000_0000_0000;

/// Two to the fifty-second power: the weight of the lowest exponent bit, and
/// the implicit leading bit of a normal significand.
pub const HIDDEN_BIT: u64 = 0x0010_0000_0000_0000;

/// Two to the power 1074, the factor that makes every finite double a whole
/// number.
pub open spec fn unit() -> int {
    pow2(1074) as int
}

/// A double-precision value, given by its bits. Two doubles are equal, with
/// `==`, when their bits are; the numeric comparisons are `lt` and `le`.
#[derive(Clone, Copy, Debug, PartialEq, Eq, Structural)]
pub struct Double {
    pub bits: u64,
}

impl Double {
    /// The bits without the sign.
    pub open spec fn magnitude(self) -> int {
        if self.bits >= SIGN_BIT {
            self.bits - SIGN_BIT
        } else {
            self.bits as int
        }
    }

    /// Whether the sign bit is set. This holds of negative zero too.
    pub open spec fn sign(self) -> bool {
        self.bits >= SIGN_BIT
    }

    /// Whether the bits are no number: all exponent bits set, and a
    /// fraction that is not zero.
    pub open spec fn spec_is_nan(self) -> bool {
        self.magnitude() > INFINITY_BITS
    }

    /// Whether the bits are a number that is no infinity.
    pub open spec fn spec_is_finite(self) -> bool {
        self.magnitude() < INFINITY_BITS
    }

    /// The place of a number in the numeric order. Both zeros stand at 0, the
    /// positive numbers above in the order of their magnitudes, the negative
    /// numbers below in the reverse order.
    pub open spec fn order(self) -> int {
        if self.sign() {
            -self.magnitude()
        } else {
            self.magnitude()
        }
    }

    /// The place of a number in the total order, which agrees with the
    /// numeric order and puts negative zero just below positive zero.
    pub open spec fn total_order(self) -> int {
        if self.sign() {
            -self.magnitude() - 1
        } else {
            self.magnitude()
        }
    }

    /// Numeric `<`: false as soon as one side is not a number.
    pub open spec fn spec_lt(self, other: Double) -> bool {
        !self.spec_is_nan() && !other.spec_is_nan() && self.order() < other.order()
    }

    /// Numeric `<=`: false as soon as one side is not a number.
    pub open spec fn spec_le(self, other: Double) -> bool {
        !self.spec_is_nan() && !other.spec_is_nan() && self.order() <= other.order()
    }

    /// The exponent field, with its bias of 1023.
    pub open spec fn exponent_field(self) -> int {
        self.magnitude() / (HIDDEN_BIT as int)
    }

    /// The fraction field.
    pub open spec fn fraction_field(self) -> int {
        self.magnitude() % (HIDDEN_BIT as int)
    }

    /// The significand of a finite value as an integer. A normal number has
    /// an implicit leading bit above its fraction.
    pub open spec fn spec_significand(self) -> int {
        if self.exponent_field() == 0 {
            self.fraction_field()
        } else {
            self.fraction_field() + HIDDEN_BIT
        }
    }

    /// The power of two that scales the significand: the absolute value of a
    /// finite double is `significand * 2^exponent`.
    pub open spec fn spec_exponent(self) -> int {
        if self.exponent_field() == 0 {
            -1074
        } else {
            self.exponent_field() - 1075
        }
    }

    /// The absolute value of a finite double in units of two to the power
    /// -1074: a whole number.
    pub open spec fn scaled_magnitude(self) -> int {
        self.spec_significand() * pow2((self.spec_exponent() + 1074) as nat)
    }

    /// The value of a finite double in units of two to the power -1074: a
    /// whole number.
    pub open spec fn scaled(self) -> int {
        if self.sign() {
            -self.scaled_magnitude()
        } else {
            self.scaled_magnitude()
        }
    }

    /// The zero with a clear sign bit.
    pub open spec fn spec_zero() -> Double {
        Double { bits: 0 }
    }

    /// The value one.
    pub open spec fn spec_one() -> Double {
        Double { bits: ONE_BITS }
    }

    /// The double with the given bits.
    pub fn from_bits(bits: u64) -> (d: Double)
        ensures
            d.bits == bits,
    {
        Double { bits }
    }

    /// The bits of the double.
    pub fn to_bits(self) -> (bits: u64)
        ensures
            bits == self.bits,
    {
        self.bits
    }

    /// The zero with a clear sign bit.
    #[verifier::when_used_as_spec(spec_zero)]
    pub fn zero() -> (d: Double)
        ensures
            d == Double::spec_zero(),
    {
        Double { bits: 0 }
    }

    /// The value one.
    #[verifier::when_used_as_spec(spec_one)]
    pub fn one() -> (d: Double)
        ensures
            d == Double::spec_one(),
    {
        Double { bits: ONE_BITS }
    }

    /// The bits without the sign, as executable code sees them.
    fn magnitude_bits(self) -> (m: u64)
        ensures
            m == self.magnitude(),
            m < SIGN_BIT,
    {
        if self.bits >= SIGN_BIT {
            self.bits - SIGN_BIT
        } else {
            self.bits
        }
    }

    /// Decides whether the bits are no number.
    #[verifier::when_used_as_spec(spec_is_nan)]
    pub fn is_nan(self) -> (r: bool)
        ensures
            r == self.spec_is_nan(),
    {
        self.magnitude_bits() > INFINITY_BITS
    }

    /// Decides whether the bits are a number that is no infinity.
    #[verifier::when_used_as_spec(spec_is_finite)]
    pub fn is_finite(self) -> (r: bool)
        ensures
            r == self.spec_is_finite(),
    {
        self.magnitude_bits() < INFINITY_BITS
    }

    /// The place of the double in the numeric order.
    pub fn key(self) -> (k: i64)
        ensures
            k == self.order(),
    {
        let m: u64 = self.magnitude_bits();
        if self.bits >= SIGN_BIT {
            -(m as i64)
        } else {
            m as i64
        }
    }

    /// The place of the double in the total order.
    pub fn total_key(self) -> (k: i64)
        ensures
            k == self.total_order(),
    {
        let m: u64 = self.magnitude_bits();
        if self.bits >= SIGN_BIT {
            -(m as i64) - 1
        } else {
            m as i64
        }
    }

    /// Numeric `<`.
    #[verifier::when_used_as_spec(spec_lt)]
    pub fn lt(self, other: Double) -> (r: bool)
        ensures
            r == self.spec_lt(other),
    {
        !self.is_nan() && !other.is_nan() && self.key() < other.key()
    }

    /// Numeric `<=`.
    #[verifier::when_used_as_spec(spec_le)]
    pub fn le(self, other: Double) -> (r: bool)
        ensures
            r == self.spec_le(other),
    {
        !self.is_nan() && !other.is_nan() && self.key() <= other.key()
    }

    /// The significand as an integer.
    pub fn significand(self) -> (m: u64)
        ensures
            m == self.spec_significand(),
            m < 2 * HIDDEN_BIT,
    {
        let magnitude: u64 = self.magnitude_bits();
        if magnitude / HIDDEN_BIT == 0 {
            magnitude % HIDDEN_BIT
        } else {
            magnitude % HIDDEN_BIT + HIDDEN_BIT
        }
    }

    /// The power of two that scales the significand.
    pub fn exponent(self) -> (e: i32)
        ensures
            e == self.spec_exponent(),
            -1074 <= e <= 972,
    {
        let field: u64 = self.magnitude_bits() / HIDDEN_BIT;
        if field == 0 {
            -1074
        } else {
            field as i32 - 1075
        }
    }
}

/// The total order refines the numeric order: what it puts first is
/// nowhere numerically greater.
pub proof fn lemma_total_order_refines(a: Double, b: Double)
    requires
        !a.is_nan(),
        !b.is_nan(),
    ensures
        a.total_order() <= b.total_order() ==> a.le(b),
        a.lt(b) ==> a.total_order() < b.total_order(),
        a.total_order() == b.total_order() <==> a == b,
{
}

/// The bits of a whole number: a double whose significand, cut off `shift`
/// bits from its low end, is `whole`, and whose exponent makes up for the
/// cut, has the value `whole`.
pub proof fn lemma_whole_value(d: Double, whole: int, shift: nat)
    requires
        !d.sign(),
        shift <= 52,
        d.exponent_field() == 1075 - shift,
        d.spec_significand() == whole * pow2(shift),
    ensures
        d.scaled() == whole * unit(),
{
    lemma_pow2_adds(shift, (1074 - shift) as nat);
    let (low, high) = (pow2(shift) as int, pow2((1074 - shift) as nat) as int);
    assert((whole * low) * high == whole * (low * high)) by (nonlinear_arith);
}

/// Among finite doubles a greater magnitude of the bits is a greater
/// absolute value.
proof fn lemma_scaled_magnitude_grows(a: Double, b: Double)
    requires
        a.is_finite(),
        b.is_finite(),
        a.magnitude() < b.magnitude(),
    ensures
        0 <= a.scaled_magnitude() < b.scaled_magnitude(),
{
    let h = HIDDEN_BIT as int;
    let (ea, fa) = (a.exponent_field(), a.fraction_field());
    let (eb, fb) = (b.exponent_field(), b.fraction_field());
    let (ma, mb) = (a.spec_significand(), b.spec_significand());
    let pa = pow2((a.spec_exponent() + 1074) as nat) as int;
    let pb = pow2((b.spec_exponent() + 1074) as nat) as int;
    lemma_pow2_pos((a.spec_exponent() + 1074) as nat);
    lemma_pow2_pos((b.spec_exponent() + 1074) as nat);
    assert(0 <= ma * pa) by (nonlinear_arith)
        requires
            0 <= ma,
            0 < pa,
    ;
    if ea == eb {
        // With the same exponent the significands decide.
        assert(ma * pa < mb * pb) by (nonlinear_arith)
            requires
                ma < mb,
                0 < pa,
                pa == pb,
        ;
    } else {
        // With a smaller exponent `a` stays below the least value that the
        // exponent of `b` can give, which has the significand `h`.
        assert(h * pb <= mb * pb) by (nonlinear_arith)
            requires
                mb == h + fb,
                0 <= fb,
                0 < pb,
        ;
        if ea == 0 {
            assert(pa == 1) by {
                lemma2_to64();
            }
            assert(ma * pa < h * pb) by (nonlinear_arith)
                requires
                    0 <= ma < h,
                    pa == 1,
                    1 <= pb,
            ;
        } else {
            lemma_pow2_unfold(ea as nat);
            let pa2 = pow2(ea as nat) as int;
            if ea < eb - 1 {
                lemma_pow2_strictly_increases(ea as nat, (eb - 1) as nat);
            }
            assert(ma * pa < h * pb) by (nonlinear_arith)
                requires
                    ma == h + fa,
                    0 <= fa < h,
                    0 < pa,
                    pa2 == 2 * pa,
                    pa2 <= pb,
            ;
        }
    }
}

/// The numeric order of finite doubles is the order of their values.
pub proof fn lemma_order_is_value_order(a: Double, b: Double)
    requires
        a.is_finite(),
        b.is_finite(),
    ensures
        a.order() < b.order() <==> a.scaled() < b.scaled(),
        a.order() <= b.order() <==> a.scaled() <= b.scaled(),
        a.order() == 0 <==> a.scaled() == 0,
        a.order() > 0 <==> a.scaled() > 0,
{
    lemma_zero_magnitude(a);
    lemma_zero_magnitude(b);
    if a.magnitude() < b.magnitude() {
        lemma_scaled_magnitude_grows(a, b);
    } else if b.magnitude() < a.magnitude() {
        lemma_scaled_magnitude_grows(b, a);
    }
}

/// Only the two zeros have the absolute value zero.
proof fn lemma_zero_magnitude(a: Double)
    requires
        a.is_finite(),
    ensures
        0 <= a.scaled_magnitude(),
        a.magnitude() == 0 <==> a.scaled_magnitude() == 0,
{
    let zero = Double { bits: 0 };
    let p = pow2((zero.spec_exponent() + 1074) as nat) as int;
    assert(zero.spec_significand() * p == 0) by (nonlinear_arith)
        requires
            zero.spec_significand() == 0,
    ;
    if a.magnitude() > 0 {
        lemma_scaled_magnitude_grows(zero, a);
    }
}

} // verus!
