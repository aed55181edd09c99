//! IEEE 754 binary64 numbers, held as their bit patterns.
//!
//! A [`Scalar`] is the 64-bit pattern of a double: one sign bit, eleven bits
//! of exponent field, fifty-two bits of fraction. What a pattern stands for is
//! fixed by [`Scalar::units`], the value counted in steps of 2^-1074, the
//! smallest step a double can make. Classification, order and negation are
//! computed on the bits and proved against that model; so is the arithmetic,
//! in [`crate::arith`].

use vstd::arithmetic::div_mod::{lemma_div_is_ordered, lemma_fundamental_div_mod};
use vstd::arithmetic::power2::{
    lemma_pow2_pos, lemma_pow2_strictly_increases, lemma_pow2_unfold, pow2,
};
use vstd::prelude::*;
use vstd::std_specs::ops::NegSpec;

verus! {

/// The sign bit of a pattern.
pub const SIGN_BIT: u64 = 0x8000_0000_0000_0000;

/// The lowest bit of the exponent field: 2^52.
pub const HIDDEN_BIT: u64 = 0x0010_0000_0000_0000;

/// The pattern of positive infinity: every bit of the exponent field set.
pub const INFINITY_BITS: u64 = 0x7ff0_0000_0000_0000;

/// The pattern of 1.
pub const ONE_BITS: u64 = 0x3ff0_0000_0000_0000;

/// The pattern of 1/2.
pub const HALF_BITS: u64 = 0x3fe0_0000_0000_0000;

/// A double, as its bit pattern.
#[derive(Clone, Copy, Debug)]
pub struct Scalar {
    pub bits: u64,
}

/// The value, in steps of 2^-1074, of a pattern with a clear sign bit.
///
/// A pattern with exponent field `e > 0` and fraction `f` stands for
/// `(2^52 + f) * 2^(e - 1075)`; with `e == 0` it stands for `f * 2^-1074`.
/// Infinity is counted by the same rule, which puts it above every finite
/// value.
pub open spec fn units_of(magnitude: nat) -> int {
    let field = magnitude / (HIDDEN_BIT as nat);
    let fraction = magnitude % (HIDDEN_BIT as nat);
    if field == 0 {
        fraction as int
    } else {
        (HIDDEN_BIT + fraction) * pow2((field - 1) as nat)
    }
}

/// How many steps of 2^-1074 make one: 2^1074.
pub open spec fn steps_per_unit() -> int {
    pow2(1074) as int
}

/// A larger pattern stands for a larger value.
pub proof fn lemma_units_increase(a: nat, b: nat)
    requires
        a < b,
    ensures
        units_of(a) < units_of(b),
{
    let h = HIDDEN_BIT as nat;
    let ea = a / h;
    let fa = a % h;
    let eb = b / h;
    let fb = b % h;
    assert(a == h * ea + fa && b == h * eb + fb) by {
        lemma_fundamental_div_mod(a as int, h as int);
        lemma_fundamental_div_mod(b as int, h as int);
    }
    assert(ea <= eb) by {
        lemma_div_is_ordered(a as int, b as int, h as int);
    }
    if ea == eb {
        assert(fa < fb);
        if ea > 0 {
            let p = pow2((ea - 1) as nat);
            lemma_pow2_pos((ea - 1) as nat);
            assert((h + fa) * p < (h + fb) * p) by (nonlinear_arith)
                requires
                    fa < fb,
                    p > 0,
            ;
        }
    } else {
        let pb = pow2((eb - 1) as nat);
        lemma_pow2_pos((eb - 1) as nat);
        assert(h * pb <= (h + fb) * pb) by (nonlinear_arith)
            requires
                pb > 0,
        ;
        if ea == 0 {
            assert(h <= h * pb) by (nonlinear_arith)
                requires
                    pb >= 1,
            ;
        } else {
            let pa = pow2((ea - 1) as nat);
            lemma_pow2_pos((ea - 1) as nat);
            lemma_pow2_unfold(ea);
            assert(pow2(ea) <= pb) by {
                if ea < eb - 1 {
                    lemma_pow2_strictly_increases(ea, (eb - 1) as nat);
                }
            }
            assert((h + fa) * pa < h * (2 * pa)) by (nonlinear_arith)
                requires
                    fa < h,
                    pa > 0,
            ;
            assert(h * (2 * pa) <= h * pb) by (nonlinear_arith)
                requires
                    2 * pa <= pb,
            ;
        }
    }
}

/// The order of two patterns is the order of the values they stand for.
pub proof fn lemma_units_order(a: nat, b: nat)
    ensures
        a < b <==> units_of(a) < units_of(b),
        a == b <==> units_of(a) == units_of(b),
{
    if a < b {
        lemma_units_increase(a, b);
    }
    if b < a {
        lemma_units_increase(b, a);
    }
}

/// Two patterns stand for values in the order of their ranks, so that
/// numbers are compared by comparing integers.
pub proof fn lemma_rank_orders(a: Scalar, b: Scalar)
    ensures
        a.rank() < b.rank() <==> a.units() < b.units(),
        a.rank() == b.rank() <==> a.units() == b.units(),
        a.lt_spec(b) <==> !a.is_nan_spec() && !b.is_nan_spec() && a.rank() < b.rank(),
        a.le_spec(b) <==> !a.is_nan_spec() && !b.is_nan_spec() && a.rank() <= b.rank(),
        a.equal(b) <==> !a.is_nan_spec() && !b.is_nan_spec() && a.rank() == b.rank(),
{
    lemma_units_order(a.magnitude(), b.magnitude());
    lemma_units_order(0, a.magnitude());
    lemma_units_order(0, b.magnitude());
}

impl Scalar {
    /// The pattern with the sign bit cleared.
    pub open spec fn magnitude(self) -> nat {
        if self.bits >= SIGN_BIT {
            (self.bits - SIGN_BIT) as nat
        } else {
            self.bits as nat
        }
    }

    /// Whether the sign bit is set.
    pub open spec fn sign(self) -> bool {
        self.bits >= SIGN_BIT
    }

    /// The value in steps of 2^-1074. It is meant for patterns that are no
    /// NaN.
    pub open spec fn units(self) -> int {
        if self.sign() {
            -units_of(self.magnitude())
        } else {
            units_of(self.magnitude())
        }
    }

    /// The pattern as a signed integer: the pattern without its sign bit,
    /// negated where the sign bit is set. Its order is the order of
    /// [`Scalar::units`]: see [`lemma_rank_orders`].
    pub open spec fn rank(self) -> int {
        if self.sign() {
            -(self.magnitude() as int)
        } else {
            self.magnitude() as int
        }
    }

    /// No number: the exponent field is full and the fraction is not zero.
    pub open spec fn is_nan_spec(self) -> bool {
        self.magnitude() > INFINITY_BITS
    }

    /// A number that is not infinite.
    pub open spec fn is_finite_spec(self) -> bool {
        self.magnitude() < INFINITY_BITS
    }

    /// Zero, with either sign.
    pub open spec fn is_zero_spec(self) -> bool {
        self.magnitude() == 0
    }

    /// Infinity, with either sign.
    pub open spec fn is_infinite_spec(self) -> bool {
        self.magnitude() == INFINITY_BITS
    }

    /// Above zero and below infinity.
    pub open spec fn is_positive_finite_spec(self) -> bool {
        0 < self.bits < INFINITY_BITS
    }

    /// Numerically less: false as soon as one side is a NaN.
    pub open spec fn lt_spec(self, other: Scalar) -> bool {
        !self.is_nan_spec() && !other.is_nan_spec() && self.units() < other.units()
    }

    /// Numerically less or equal: false as soon as one side is a NaN.
    pub open spec fn le_spec(self, other: Scalar) -> bool {
        !self.is_nan_spec() && !other.is_nan_spec() && self.units() <= other.units()
    }

    /// Numerically equal: zero equals zero whatever the signs, and a NaN
    /// equals nothing, itself included.
    pub open spec fn equal(self, other: Scalar) -> bool {
        !self.is_nan_spec() && !other.is_nan_spec() && self.units() == other.units()
    }

    /// The sign bit, and the pattern with its sign bit cleared.
    pub fn split(self) -> (r: (bool, u64))
        ensures
            r.0 == self.sign(),
            r.1 == self.magnitude(),
            r.1 < SIGN_BIT,
    {
        if self.bits >= SIGN_BIT {
            (true, self.bits - SIGN_BIT)
        } else {
            (false, self.bits)
        }
    }

    pub fn from_bits(bits: u64) -> (r: Scalar)
        ensures
            r.bits == bits,
    {
        Scalar { bits }
    }

    pub fn to_bits(self) -> (r: u64)
        ensures
            r == self.bits,
    {
        self.bits
    }

    /// Zero, with a clear sign bit.
    #[verifier::when_used_as_spec(zero_spec)]
    pub fn zero() -> (r: Scalar)
        ensures
            r == Scalar::zero_spec(),
    {
        Scalar { bits: 0 }
    }

    pub open spec fn zero_spec() -> Scalar {
        Scalar { bits: 0 }
    }

    /// One.
    #[verifier::when_used_as_spec(one_spec)]
    pub fn one() -> (r: Scalar)
        ensures
            r == Scalar::one_spec(),
    {
        Scalar { bits: ONE_BITS }
    }

    pub open spec fn one_spec() -> Scalar {
        Scalar { bits: ONE_BITS }
    }

    /// One half.
    #[verifier::when_used_as_spec(half_spec)]
    pub fn half() -> (r: Scalar)
        ensures
            r == Scalar::half_spec(),
    {
        Scalar { bits: HALF_BITS }
    }

    pub open spec fn half_spec() -> Scalar {
        Scalar { bits: HALF_BITS }
    }

    /// Positive infinity.
    #[verifier::when_used_as_spec(infinity_spec)]
    pub fn infinity() -> (r: Scalar)
        ensures
            r == Scalar::infinity_spec(),
    {
        Scalar { bits: INFINITY_BITS }
    }

    pub open spec fn infinity_spec() -> Scalar {
        Scalar { bits: INFINITY_BITS }
    }

    /// The smallest value above zero: one step, 2^-1074.
    #[verifier::when_used_as_spec(min_positive_spec)]
    pub fn min_positive() -> (r: Scalar)
        ensures
            r == Scalar::min_positive_spec(),
    {
        Scalar { bits: 1 }
    }

    pub open spec fn min_positive_spec() -> Scalar {
        Scalar { bits: 1 }
    }

    #[verifier::when_used_as_spec(is_nan_spec)]
    pub fn is_nan(self) -> (r: bool)
        ensures
            r == self.is_nan_spec(),
    {
        self.split().1 > INFINITY_BITS
    }

    #[verifier::when_used_as_spec(is_finite_spec)]
    pub fn is_finite(self) -> (r: bool)
        ensures
            r == self.is_finite_spec(),
    {
        self.split().1 < INFINITY_BITS
    }

    #[verifier::when_used_as_spec(is_infinite_spec)]
    pub fn is_infinite(self) -> (r: bool)
        ensures
            r == self.is_infinite_spec(),
    {
        self.split().1 == INFINITY_BITS
    }

    #[verifier::when_used_as_spec(is_zero_spec)]
    pub fn is_zero(self) -> (r: bool)
        ensures
            r == self.is_zero_spec(),
    {
        self.split().1 == 0
    }

    #[verifier::when_used_as_spec(is_positive_finite_spec)]
    pub fn is_positive_finite(self) -> (r: bool)
        ensures
            r == self.is_positive_finite_spec(),
    {
        0 < self.bits && self.bits < INFINITY_BITS
    }

    /// Whether `self` is numerically less than `other`.
    #[verifier::when_used_as_spec(lt_spec)]
    pub fn lt(self, other: Scalar) -> (r: bool)
        ensures
            r == self.lt_spec(other),
    {
        let (sa, a) = self.split();
        let (sb, b) = other.split();
        proof {
            lemma_rank_orders(self, other);
        }
        if a > INFINITY_BITS || b > INFINITY_BITS {
            false
        } else if sa {
            if sb {
                b < a
            } else {
                a != 0 || b != 0
            }
        } else {
            !sb && a < b
        }
    }

    /// Whether `self` is numerically less than `other` or equal to it.
    #[verifier::when_used_as_spec(le_spec)]
    pub fn le(self, other: Scalar) -> (r: bool)
        ensures
            r == self.le_spec(other),
    {
        let (sa, a) = self.split();
        let (sb, b) = other.split();
        proof {
            lemma_rank_orders(self, other);
        }
        if a > INFINITY_BITS || b > INFINITY_BITS {
            false
        } else if sa {
            !sb || b <= a
        } else if sb {
            a == 0 && b == 0
        } else {
            a <= b
        }
    }
}

/// `==` is numerical equality, [`Scalar::equal`].
impl PartialEq for Scalar {
    fn eq(&self, other: &Scalar) -> (r: bool) {
        let (sa, a) = self.split();
        let (sb, b) = other.split();
        proof {
            lemma_rank_orders(*self, *other);
        }
        a <= INFINITY_BITS && b <= INFINITY_BITS && a == b && (sa == sb || a == 0)
    }
}

impl vstd::std_specs::cmp::PartialEqSpecImpl for Scalar {
    open spec fn obeys_eq_spec() -> bool {
        true
    }

    open spec fn eq_spec(&self, other: &Scalar) -> bool {
        self.equal(*other)
    }
}

/// Negation flips the sign bit and leaves the rest.
impl core::ops::Neg for Scalar {
    type Output = Scalar;

    fn neg(self) -> (r: Scalar) {
        if self.bits >= SIGN_BIT {
            Scalar { bits: self.bits - SIGN_BIT }
        } else {
            Scalar { bits: self.bits + SIGN_BIT }
        }
    }
}

impl vstd::std_specs::ops::NegSpecImpl for Scalar {
    open spec fn obeys_neg_spec() -> bool {
        true
    }

    open spec fn neg_req(self) -> bool {
        true
    }

    open spec fn neg_spec(self) -> Scalar {
        if self.bits >= SIGN_BIT {
            Scalar { bits: (self.bits - SIGN_BIT) as u64 }
        } else {
            Scalar { bits: (self.bits + SIGN_BIT) as u64 }
        }
    }
}

/// Negation mirrors the value about zero, and twice is no change.
pub proof fn lemma_neg_mirrors(a: Scalar)
    ensures
        a.neg_spec().neg_spec() == a,
        a.neg_spec().magnitude() == a.magnitude(),
        a.neg_spec().sign() != a.sign(),
        a.neg_spec().units() == -a.units(),
        a.neg_spec().is_nan_spec() == a.is_nan_spec(),
{
}

} // verus!
