//! Arithmetic on [`Scalar`]: every result is the exact one, rounded to the
//! nearest double.
//!
//! The rules for the numbers that are no finite numbers are those of IEEE
//! 754: a NaN gives a NaN, and so does a result that has no value, such as
//! zero times infinity. Every NaN that is made here has the pattern
//! [`NAN_BITS`].

use crate::round::{
    grow, highest_bit128, integer_root, lemma_brackets_ratio, lemma_brackets_root,
    lemma_exact_is_nearest,
    lemma_nearest_ratio_is_monotone, lemma_pow2_to128, lemma_rounded_exists, lemma_rounded_is,
    lemma_rounded_root_exists, lemma_rounded_root_is, nearest_pattern, power_of_two128,
    round_units, rounded, rounded_root, shrink,
};
use crate::scalar::{
    lemma_neg_mirrors, lemma_rank_orders, lemma_units_increase, lemma_units_order, steps_per_unit,
    units_of, Scalar, HIDDEN_BIT, INFINITY_BITS, SIGN_BIT,
};
use core::ops::Neg;
use vstd::arithmetic::div_mod::lemma_fundamental_div_mod;
use vstd::arithmetic::power2::{
    lemma2_to64, lemma2_to64_rest, lemma_pow2_adds, lemma_pow2_pos, lemma_pow2_strictly_increases,
    lemma_pow2_unfold, pow2,
};
use vstd::prelude::*;
use vstd::std_specs::ops::NegSpec;

verus! {

/// The pattern of the NaN that the arithmetic returns.
pub const NAN_BITS: u64 = 0x7ff8_0000_0000_0000;

/// The significand of a pattern with a clear sign bit: its fraction, and the
/// hidden bit where the exponent field is not zero.
pub open spec fn significand(magnitude: nat) -> nat {
    if magnitude / (HIDDEN_BIT as nat) == 0 {
        magnitude % (HIDDEN_BIT as nat)
    } else {
        HIDDEN_BIT as nat + magnitude % (HIDDEN_BIT as nat)
    }
}

/// The exponent of the quantum of a pattern with a clear sign bit: the
/// pattern stands for `significand * 2^quantum` steps.
pub open spec fn quantum(magnitude: nat) -> nat {
    if magnitude / (HIDDEN_BIT as nat) == 0 {
        0
    } else {
        (magnitude / (HIDDEN_BIT as nat) - 1) as nat
    }
}

/// The significand and the quantum of a pattern.
pub fn parts(magnitude: u64) -> (r: (u64, u64))
    requires
        magnitude <= INFINITY_BITS,
    ensures
        r.0 == significand(magnitude as nat),
        r.1 == quantum(magnitude as nat),
        units_of(magnitude as nat) == r.0 * pow2(r.1 as nat),
        r.0 < 2 * HIDDEN_BIT,
        r.1 <= 2046,
        r.0 == 0 <==> magnitude == 0,
{
    let field = magnitude / HIDDEN_BIT;
    let fraction = magnitude % HIDDEN_BIT;
    proof {
        lemma2_to64();
    }
    if field == 0 {
        (fraction, 0)
    } else {
        (HIDDEN_BIT + fraction, field - 1)
    }
}

/// The double of the given sign and the given pattern without the sign.
pub fn with_sign(negative: bool, magnitude: u64) -> (r: Scalar)
    requires
        magnitude < SIGN_BIT,
    ensures
        r.magnitude() == magnitude,
        r.sign() == negative,
        r.bits == magnitude + if negative {
            SIGN_BIT as int
        } else {
            0
        },
{
    if negative {
        Scalar { bits: magnitude + SIGN_BIT }
    } else {
        Scalar { bits: magnitude }
    }
}

/// Infinity with a sign.
pub open spec fn signed_infinity(negative: bool) -> Scalar {
    Scalar {
        bits: if negative {
            (INFINITY_BITS + SIGN_BIT) as u64
        } else {
            INFINITY_BITS
        },
    }
}

/// Zero with a sign.
pub open spec fn signed_zero(negative: bool) -> Scalar {
    Scalar {
        bits: if negative {
            SIGN_BIT
        } else {
            0
        },
    }
}

/// Zero is the double nearest to zero.
pub proof fn lemma_rounded_zero(negative: bool, den: int)
    requires
        den > 0,
    ensures
        rounded(negative, 0, den) == signed_zero(negative),
{
    lemma_units_increase(0, 1);
    assert((units_of(0) + units_of(1)) * den > 0) by (nonlinear_arith)
        requires
            units_of(0) + units_of(1) > 0,
            den > 0,
    ;
    lemma_rounded_is(negative, 0, 0, den);
}

/// A number that a double stands for is rounded to that double.
pub proof fn lemma_rounded_exact(x: Scalar, num: int, den: int)
    requires
        !x.is_nan_spec(),
        den > 0,
        units_of(x.magnitude()) * den == num,
    ensures
        rounded(x.sign(), num, den) == x,
{
    lemma_exact_is_nearest(x.magnitude(), num, den);
    lemma_rounded_is(x.sign(), x.magnitude(), num, den);
}

/// The product: a NaN where one factor is a NaN and for zero times infinity,
/// infinity where one factor is infinite, and else the exact product, rounded.
/// The sign is negative where the signs of the factors differ.
pub open spec fn product(a: Scalar, b: Scalar) -> Scalar {
    let negative = a.sign() != b.sign();
    if a.is_nan_spec() || b.is_nan_spec() {
        Scalar { bits: NAN_BITS }
    } else if a.is_infinite_spec() || b.is_infinite_spec() {
        if a.is_zero_spec() || b.is_zero_spec() {
            Scalar { bits: NAN_BITS }
        } else {
            signed_infinity(negative)
        }
    } else {
        rounded(negative, units_of(a.magnitude()) * units_of(b.magnitude()), steps_per_unit())
    }
}

/// The exact product of two finite numbers lies where its parts say.
proof fn lemma_product_bracket(na: int, ga: nat, nb: int, gb: nat)
    requires
        na >= 0,
        nb >= 0,
    ensures
        (na * nb) * grow(ga + gb - 1074) * steps_per_unit() == ((na * pow2(ga)) * (nb * pow2(gb)))
            * shrink(ga + gb - 1074),
        ((na * pow2(ga)) * (nb * pow2(gb))) * shrink(ga + gb - 1074) < (na * nb + 1) * grow(
            ga + gb - 1074,
        ) * steps_per_unit(),
{
    let e = ga + gb - 1074;
    let u = steps_per_unit();
    let pa = pow2(ga) as int;
    let pb = pow2(gb) as int;
    let m = na * nb;
    lemma_pow2_adds(ga, gb);
    lemma_pow2_pos(1074);
    lemma_pow2_pos(ga + gb);
    let pab = pow2(ga + gb) as int;
    assert((na * pa) * (nb * pb) == m * pab) by (nonlinear_arith)
        requires
            m == na * nb,
            pab == pa * pb,
    ;
    if e > 0 {
        lemma_pow2_adds(e as nat, 1074);
        lemma_pow2_pos(e as nat);
        assert(m * grow(e) * u == (m * pab) * shrink(e)) by (nonlinear_arith)
            requires
                grow(e) * u == pab,
                shrink(e) == 1,
        ;
        assert((m * pab) * shrink(e) < (m + 1) * grow(e) * u) by (nonlinear_arith)
            requires
                grow(e) * u == pab,
                shrink(e) == 1,
                pab > 0,
        ;
    } else {
        lemma_pow2_adds(ga + gb, (-e) as nat);
        lemma_pow2_pos((-e) as nat);
        lemma2_to64();
        assert(m * grow(e) * u == (m * pab) * shrink(e)) by (nonlinear_arith)
            requires
                grow(e) == 1,
                pab * shrink(e) == u,
        ;
        assert((m * pab) * shrink(e) < (m + 1) * grow(e) * u) by (nonlinear_arith)
            requires
                grow(e) == 1,
                pab * shrink(e) == u,
                u > 0,
        ;
    }
}

/// The product of two doubles.
pub fn times(a: Scalar, b: Scalar) -> (r: Scalar)
    ensures
        r == product(a, b),
{
    let (sa, ma) = a.split();
    let (sb, mb) = b.split();
    let negative = sa != sb;
    if ma > INFINITY_BITS || mb > INFINITY_BITS {
        return Scalar { bits: NAN_BITS };
    }
    if ma == INFINITY_BITS || mb == INFINITY_BITS {
        if ma == 0 || mb == 0 {
            return Scalar { bits: NAN_BITS };
        }
        return with_sign(negative, INFINITY_BITS);
    }
    let (na, ga) = parts(ma);
    let (nb, gb) = parts(mb);
    assert(na as u128 * nb as u128 <= 0x20_0000_0000_0000 * 0x20_0000_0000_0000)
        by (nonlinear_arith)
        requires
            na <= 0x20_0000_0000_0000,
            nb <= 0x20_0000_0000_0000,
    ;
    let m: u128 = na as u128 * nb as u128;
    let e: i64 = ga as i64 + gb as i64 - 1074;
    let k = round_units(m, e, false);
    proof {
        let num = units_of(ma as nat) * units_of(mb as nat);
        lemma_pow2_pos(1074);
        lemma_product_bracket(na as int, ga as nat, nb as int, gb as nat);
        lemma_brackets_ratio(k as nat, m as int, e as int, false, num, steps_per_unit());
        lemma_rounded_is(negative, k as nat, num, steps_per_unit());
    }
    with_sign(negative, k)
}

/// `*` is [`product`].
impl core::ops::Mul for Scalar {
    type Output = Scalar;

    fn mul(self, rhs: Scalar) -> (r: Scalar) {
        times(self, rhs)
    }
}

impl vstd::std_specs::ops::MulSpecImpl for Scalar {
    open spec fn obeys_mul_spec() -> bool {
        true
    }

    open spec fn mul_req(self, rhs: Scalar) -> bool {
        true
    }

    open spec fn mul_spec(self, rhs: Scalar) -> Scalar {
        product(self, rhs)
    }
}

/// A size with a sign in front.
pub open spec fn signed(negative: bool, size: int) -> int {
    if negative {
        -size
    } else {
        size
    }
}

/// The double nearest to `exact` steps. An exact zero has a clear sign bit,
/// but for the sum of two numbers that both have the sign bit set.
pub open spec fn rounded_sum(exact: int, both_negative: bool) -> Scalar {
    if exact == 0 {
        signed_zero(both_negative)
    } else if exact < 0 {
        rounded(true, -exact, 1)
    } else {
        rounded(false, exact, 1)
    }
}

/// The sum: a NaN where one term is a NaN and for infinity less infinity,
/// infinity where one term is infinite, and else the exact sum, rounded.
pub open spec fn sum(a: Scalar, b: Scalar) -> Scalar {
    if a.is_nan_spec() || b.is_nan_spec() {
        Scalar { bits: NAN_BITS }
    } else if a.is_infinite_spec() {
        if b.is_infinite_spec() && a.sign() != b.sign() {
            Scalar { bits: NAN_BITS }
        } else {
            a
        }
    } else if b.is_infinite_spec() {
        b
    } else {
        rounded_sum(a.units() + b.units(), a.sign() && b.sign())
    }
}

/// The sum of `nx * 2^gx` and `ny * 2^gy` steps with their signs, where the
/// quanta are at most 64 places apart, so that the sum is formed exactly.
fn add_near(sx: bool, nx: u64, gx: u64, sy: bool, ny: u64, gy: u64) -> (r: Scalar)
    requires
        nx < 2 * HIDDEN_BIT,
        ny < 2 * HIDDEN_BIT,
        gy <= gx <= 2046,
        gx - gy <= 64,
    ensures
        r == rounded_sum(
            signed(sx, nx * pow2(gx as nat)) + signed(sy, ny * pow2(gy as nat)),
            sx && sy,
        ),
{
    let c = power_of_two128(gx - gy);
    proof {
        lemma_pow2_to128();
        lemma_pow2_adds((gx - gy) as nat, gy as nat);
        if gx - gy < 64 {
            lemma_pow2_strictly_increases((gx - gy) as nat, 64);
        }
        assert(nx * c <= 0x20_0000_0000_0000 * 0x1_0000_0000_0000_0000) by (nonlinear_arith)
            requires
                nx <= 0x20_0000_0000_0000,
                c <= 0x1_0000_0000_0000_0000,
        ;
    }
    let x: u128 = nx as u128 * c;
    let y: u128 = ny as u128;
    let ghost q = pow2(gy as nat) as int;
    proof {
        lemma_pow2_pos(gy as nat);
        assert(nx * pow2(gx as nat) == x * q) by (nonlinear_arith)
            requires
                x == nx * c,
                pow2(gx as nat) == c * q,
        ;
    }
    let (negative, m): (bool, u128) = if sx == sy {
        (sx, x + y)
    } else if x >= y {
        (sx, x - y)
    } else {
        (sy, y - x)
    };
    proof {
        assert((x + y) * q == x * q + y * q) by (nonlinear_arith);
        assert((x - y) * q == x * q - y * q) by (nonlinear_arith);
        assert((y - x) * q == y * q - x * q) by (nonlinear_arith);
        assert(m * q == 0 <==> m == 0) by (nonlinear_arith)
            requires
                q >= 1,
                m >= 0,
        ;
        assert(m * q >= 0) by (nonlinear_arith)
            requires
                q >= 1,
                m >= 0,
        ;
    }
    if m == 0 {
        return with_sign(sx && sy, 0);
    }
    let k = round_units(m, gy as i64, false);
    proof {
        lemma2_to64();
        let num = m * q;
        assert(m * grow(gy as int) * 1 == num * shrink(gy as int)) by (nonlinear_arith)
            requires
                num == m * q,
                grow(gy as int) == q,
                shrink(gy as int) == 1,
        ;
        assert(num * shrink(gy as int) < (m + 1) * grow(gy as int) * 1) by (nonlinear_arith)
            requires
                num == m * q,
                grow(gy as int) == q,
                shrink(gy as int) == 1,
                q >= 1,
        ;
        lemma_brackets_ratio(k as nat, m as int, gy as int, false, num, 1);
        lemma_rounded_is(negative, k as nat, num, 1);
    }
    with_sign(negative, k)
}

/// The sum of `nx * 2^gx` and `ny * 2^gy` steps with their signs, where the
/// second is so much smaller that it can only tip the rounding of the first.
fn add_far(sx: bool, nx: u64, gx: u64, sy: bool, ny: u64, gy: u64) -> (r: Scalar)
    requires
        HIDDEN_BIT <= nx < 2 * HIDDEN_BIT,
        0 < ny < 2 * HIDDEN_BIT,
        gy + 64 < gx <= 2046,
    ensures
        r == rounded_sum(
            signed(sx, nx * pow2(gx as nat)) + signed(sy, ny * pow2(gy as nat)),
            sx && sy,
        ),
{
    let m: u128 = if sx == sy {
        4 * nx as u128
    } else {
        4 * nx as u128 - 1
    };
    let e: i64 = gx as i64 - 2;
    let k = round_units(m, e, true);
    proof {
        let q = pow2((gx - 2) as nat) as int;
        let big = nx * pow2(gx as nat);
        let tiny = ny * pow2(gy as nat);
        lemma2_to64();
        lemma2_to64_rest();
        lemma_pow2_adds(2, (gx - 2) as nat);
        lemma_pow2_adds(53, gy as nat);
        lemma_pow2_pos(gy as nat);
        lemma_pow2_pos((gx - 2) as nat);
        lemma_pow2_strictly_increases((53 + gy) as nat, (gx - 2) as nat);
        assert(big == (4 * nx) * q) by (nonlinear_arith)
            requires
                big == nx * pow2(gx as nat),
                pow2(gx as nat) == 4 * q,
        ;
        assert(0 < tiny < q) by (nonlinear_arith)
            requires
                tiny == ny * pow2(gy as nat),
                0 < ny < 0x20_0000_0000_0000,
                pow2(gy as nat) >= 1,
                0x20_0000_0000_0000 * pow2(gy as nat) < q,
        ;
        let num = if sx == sy {
            big + tiny
        } else {
            big - tiny
        };
        assert((m + 1) * q == m * q + q) by (nonlinear_arith);
        assert((4 * nx - 1) * q == (4 * nx) * q - q) by (nonlinear_arith);
        assert(m * grow(e as int) * 1 == m * q && (m + 1) * grow(e as int) * 1 == (m + 1) * q
            && num * shrink(e as int) == num) by (nonlinear_arith)
            requires
                grow(e as int) == q,
                shrink(e as int) == 1,
        ;
        lemma_brackets_ratio(k as nat, m as int, e as int, true, num, 1);
        lemma_rounded_is(sx, k as nat, num, 1);
    }
    with_sign(sx, k)
}

/// The sum of two doubles.
pub fn plus(a: Scalar, b: Scalar) -> (r: Scalar)
    ensures
        r == sum(a, b),
{
    let (sa, ma) = a.split();
    let (sb, mb) = b.split();
    if ma > INFINITY_BITS || mb > INFINITY_BITS {
        return Scalar { bits: NAN_BITS };
    }
    if ma == INFINITY_BITS {
        if mb == INFINITY_BITS && sa != sb {
            return Scalar { bits: NAN_BITS };
        }
        return a;
    }
    if mb == INFINITY_BITS {
        return b;
    }
    let (na, ga) = parts(ma);
    let (nb, gb) = parts(mb);
    // The term with the larger quantum comes first.
    let (sx, nx, gx, sy, ny, gy) = if ga >= gb {
        (sa, na, ga, sb, nb, gb)
    } else {
        (sb, nb, gb, sa, na, ga)
    };
    if gx - gy <= 64 {
        add_near(sx, nx, gx, sy, ny, gy)
    } else if ny == 0 {
        add_near(sx, nx, gx, sy, 0, gx)
    } else {
        add_far(sx, nx, gx, sy, ny, gy)
    }
}

/// `+` is [`sum`].
impl core::ops::Add for Scalar {
    type Output = Scalar;

    fn add(self, rhs: Scalar) -> (r: Scalar) {
        plus(self, rhs)
    }
}

impl vstd::std_specs::ops::AddSpecImpl for Scalar {
    open spec fn obeys_add_spec() -> bool {
        true
    }

    open spec fn add_req(self, rhs: Scalar) -> bool {
        true
    }

    open spec fn add_spec(self, rhs: Scalar) -> Scalar {
        sum(self, rhs)
    }
}

/// The difference: the sum with the negated right-hand side.
pub open spec fn difference(a: Scalar, b: Scalar) -> Scalar {
    sum(a, b.neg_spec())
}

/// The difference of two doubles.
pub fn minus(a: Scalar, b: Scalar) -> (r: Scalar)
    ensures
        r == difference(a, b),
{
    plus(a, b.neg())
}

/// `-` is [`difference`].
impl core::ops::Sub for Scalar {
    type Output = Scalar;

    fn sub(self, rhs: Scalar) -> (r: Scalar) {
        minus(self, rhs)
    }
}

impl vstd::std_specs::ops::SubSpecImpl for Scalar {
    open spec fn obeys_sub_spec() -> bool {
        true
    }

    open spec fn sub_req(self, rhs: Scalar) -> bool {
        true
    }

    open spec fn sub_spec(self, rhs: Scalar) -> Scalar {
        difference(self, rhs)
    }
}

/// A zero, added to a number that is not zero or taken from it, changes
/// nothing.
pub proof fn lemma_sum_with_zero(x: Scalar, zero: Scalar)
    requires
        zero.is_zero_spec(),
        !x.is_zero_spec(),
        !x.is_nan_spec(),
    ensures
        sum(x, zero) == x,
        difference(x, zero) == x,
{
    lemma_rounded_exact(x, units_of(x.magnitude()), 1);
    lemma_units_order(0, x.magnitude());
}

/// The quotient: a NaN where one side is a NaN, for infinity by infinity and
/// for zero by zero; infinity for infinity by a finite number and for a
/// number by zero; zero for a finite number by infinity; and else the exact
/// quotient, rounded. The sign is negative where the signs of the two sides
/// differ.
pub open spec fn quotient(a: Scalar, b: Scalar) -> Scalar {
    let negative = a.sign() != b.sign();
    if a.is_nan_spec() || b.is_nan_spec() {
        Scalar { bits: NAN_BITS }
    } else if a.is_infinite_spec() {
        if b.is_infinite_spec() {
            Scalar { bits: NAN_BITS }
        } else {
            signed_infinity(negative)
        }
    } else if b.is_infinite_spec() {
        signed_zero(negative)
    } else if b.is_zero_spec() {
        if a.is_zero_spec() {
            Scalar { bits: NAN_BITS }
        } else {
            signed_infinity(negative)
        }
    } else {
        rounded(negative, units_of(a.magnitude()) * steps_per_unit(), units_of(b.magnitude()))
    }
}

/// Where the exact quotient of two finite numbers lies, given the whole
/// quotient `m` and the remainder of their significands, the first shifted by
/// `sh` places.
proof fn lemma_quotient_bracket(
    na: int,
    ga: nat,
    nb: int,
    gb: nat,
    sh: nat,
    m: int,
    rem: int,
    e: int,
)
    requires
        na >= 0,
        nb > 0,
        m >= 0,
        na * pow2(sh) == m * nb + rem,
        0 <= rem < nb,
        e == ga - gb + 1074 - sh,
    ensures
        m * grow(e) * (nb * pow2(gb)) <= ((na * pow2(ga)) * steps_per_unit()) * shrink(e),
        ((na * pow2(ga)) * steps_per_unit()) * shrink(e) < (m + 1) * grow(e) * (nb * pow2(gb)),
        rem > 0 <==> m * grow(e) * (nb * pow2(gb)) < ((na * pow2(ga)) * steps_per_unit())
            * shrink(e),
{
    let u = steps_per_unit();
    let a = grow(e);
    let b = shrink(e);
    let pa = pow2(ga) as int;
    let pb = pow2(gb) as int;
    let ps = pow2(sh) as int;
    lemma_pow2_pos(ga);
    lemma_pow2_pos(gb);
    lemma_pow2_pos(sh);
    lemma_pow2_pos(1074);
    lemma2_to64();
    // The scales on both sides agree: a * pb * ps == pa * u * b.
    let w = a * pb * ps;
    if e >= 0 {
        lemma_pow2_adds(e as nat, gb);
        lemma_pow2_adds((e + gb) as nat, sh);
        lemma_pow2_adds(ga, 1074);
        lemma_pow2_pos(e as nat);
        assert(w == pa * u * b) by (nonlinear_arith)
            requires
                w == a * pb * ps,
                a * pb == pow2((e + gb) as nat),
                pow2((e + gb) as nat) * ps == pa * u,
                b == 1,
        ;
    } else {
        lemma_pow2_adds(gb, sh);
        lemma_pow2_adds(ga, 1074);
        lemma_pow2_adds(ga + 1074, (-e) as nat);
        lemma_pow2_pos((-e) as nat);
        assert(w == pa * u * b) by (nonlinear_arith)
            requires
                w == a * pb * ps,
                a == 1,
                pb * ps == pow2(ga + 1074) * b,
                pow2(ga + 1074) == pa * u,
        ;
    }
    assert(w > 0) by (nonlinear_arith)
        requires
            w == a * pb * ps,
            a >= 1,
            pb >= 1,
            ps >= 1,
    ;
    let lo = m * a * (nb * pb);
    let mid = ((na * pa) * u) * b;
    let hi = (m + 1) * a * (nb * pb);
    assert(lo * ps == (m * nb) * w) by (nonlinear_arith)
        requires
            lo == m * a * (nb * pb),
            w == a * pb * ps,
    ;
    assert(hi * ps == (m * nb + nb) * w) by (nonlinear_arith)
        requires
            hi == (m + 1) * a * (nb * pb),
            w == a * pb * ps,
    ;
    assert(mid * ps == (m * nb + rem) * w) by (nonlinear_arith)
        requires
            mid == ((na * pa) * u) * b,
            w == pa * u * b,
            na * ps == m * nb + rem,
    ;
    assert(lo * ps <= mid * ps && mid * ps < hi * ps && (rem > 0 <==> lo * ps < mid * ps))
        by (nonlinear_arith)
        requires
            lo * ps == (m * nb) * w,
            mid * ps == (m * nb + rem) * w,
            hi * ps == (m * nb + nb) * w,
            0 <= rem < nb,
            w > 0,
    ;
    assert(lo <= mid && mid < hi && (rem > 0 <==> lo < mid)) by (nonlinear_arith)
        requires
            lo * ps <= mid * ps,
            mid * ps < hi * ps,
            rem > 0 <==> lo * ps < mid * ps,
            ps >= 1,
    ;
}

/// The quotient of two doubles.
pub fn over(a: Scalar, b: Scalar) -> (r: Scalar)
    ensures
        r == quotient(a, b),
{
    let (sa, ma) = a.split();
    let (sb, mb) = b.split();
    let negative = sa != sb;
    if ma > INFINITY_BITS || mb > INFINITY_BITS {
        return Scalar { bits: NAN_BITS };
    }
    if ma == INFINITY_BITS {
        if mb == INFINITY_BITS {
            return Scalar { bits: NAN_BITS };
        }
        return with_sign(negative, INFINITY_BITS);
    }
    if mb == INFINITY_BITS {
        return with_sign(negative, 0);
    }
    if mb == 0 {
        if ma == 0 {
            return Scalar { bits: NAN_BITS };
        }
        return with_sign(negative, INFINITY_BITS);
    }
    let (na, ga) = parts(ma);
    let (nb, gb) = parts(mb);
    proof {
        lemma_units_order(0, mb as nat);
        lemma_pow2_pos(gb as nat);
        lemma_pow2_pos(1074);
        assert(nb > 0);
        assert(nb * pow2(gb as nat) > 0) by (nonlinear_arith)
            requires
                nb > 0,
                pow2(gb as nat) > 0,
        ;
    }
    if na == 0 {
        proof {
            assert(units_of(ma as nat) * steps_per_unit() == 0) by (nonlinear_arith)
                requires
                    units_of(ma as nat) == 0,
            ;
            lemma_rounded_zero(negative, units_of(mb as nat));
        }
        return with_sign(negative, 0);
    }
    divide_parts(negative, na, ga, nb, gb)
}

/// The rounded quotient of `na * 2^ga` by `nb * 2^gb`, with a sign.
fn divide_parts(negative: bool, na: u64, ga: u64, nb: u64, gb: u64) -> (r: Scalar)
    requires
        0 < na < 2 * HIDDEN_BIT,
        0 < nb < 2 * HIDDEN_BIT,
        ga <= 2046,
        gb <= 2046,
    ensures
        r == rounded(
            negative,
            (na * pow2(ga as nat)) * steps_per_unit(),
            nb * pow2(gb as nat),
        ),
{
    let (pa, _) = highest_bit128(na as u128);
    let (pb, _) = highest_bit128(nb as u128);
    proof {
        lemma2_to64_rest();
        lemma2_to64();
        if pa > 53 {
            lemma_pow2_strictly_increases(53, pa as nat);
        }
        if pb > 53 {
            lemma_pow2_strictly_increases(53, pb as nat);
        }
        assert(pa <= 52 && pb <= 52);
    }
    let sh: u64 = 64 + pb - pa;
    let c = power_of_two128(sh);
    proof {
        lemma_pow2_pos(sh as nat);
        // na * 2^sh has its highest bit at 64 + pb
        lemma_pow2_to128();
        lemma_pow2_adds(pa as nat, sh as nat);
        lemma_pow2_adds((pa + 1) as nat, sh as nat);
        lemma_pow2_unfold((pa + 1) as nat);
        lemma_pow2_unfold((pb + 1) as nat);
        lemma_pow2_unfold((65 + pb) as nat);
        lemma_pow2_adds(63, (pb + 1) as nat);
        if 65 + pb < 127 {
            lemma_pow2_strictly_increases((65 + pb) as nat, 127);
        }
        assert(na * c < pow2((pa + 1) as nat) * c) by (nonlinear_arith)
            requires
                na < pow2((pa + 1) as nat),
                c >= 1,
        ;
        assert(na * c >= pow2(pa as nat) * c) by (nonlinear_arith)
            requires
                na >= pow2(pa as nat),
                c >= 1,
        ;
    }
    let x: u128 = na as u128 * c;
    let m = x / nb as u128;
    let rem = x % nb as u128;
    let e: i64 = ga as i64 - gb as i64 + 1074 - sh as i64;
    proof {
        lemma_fundamental_div_mod(x as int, nb as int);
        // The quotient has at least 54 bits.
        assert(m >= 0x8000_0000_0000_0000) by (nonlinear_arith)
            requires
                x == nb * m + rem,
                rem < nb,
                x >= 0x8000_0000_0000_0000 * pow2((pb + 1) as nat),
                nb < pow2((pb + 1) as nat),
                m >= 0,
        ;
    }
    let k = round_units(m, e, rem != 0);
    proof {
        let num = (na * pow2(ga as nat)) * steps_per_unit();
        let den = nb * pow2(gb as nat);
        lemma_pow2_pos(gb as nat);
        assert(den > 0) by (nonlinear_arith)
            requires
                den == nb * pow2(gb as nat),
                nb > 0,
                pow2(gb as nat) > 0,
        ;
        assert(na * pow2(sh as nat) == m * nb + rem) by (nonlinear_arith)
            requires
                x == na * c,
                c == pow2(sh as nat),
                x == nb * m + rem,
        ;
        lemma_quotient_bracket(
            na as int,
            ga as nat,
            nb as int,
            gb as nat,
            sh as nat,
            m as int,
            rem as int,
            e as int,
        );
        lemma_brackets_ratio(k as nat, m as int, e as int, rem != 0, num, den);
        lemma_rounded_is(negative, k as nat, num, den);
    }
    with_sign(negative, k)
}

/// `/` is [`quotient`].
impl core::ops::Div for Scalar {
    type Output = Scalar;

    fn div(self, rhs: Scalar) -> (r: Scalar) {
        over(self, rhs)
    }
}

impl vstd::std_specs::ops::DivSpecImpl for Scalar {
    open spec fn obeys_div_spec() -> bool {
        true
    }

    open spec fn div_req(self, rhs: Scalar) -> bool {
        true
    }

    open spec fn div_spec(self, rhs: Scalar) -> Scalar {
        quotient(self, rhs)
    }
}

/// The square root: a NaN for a NaN and for every number below zero, zero
/// for zero with its sign, infinity for infinity, and else the exact root,
/// rounded.
pub open spec fn root(a: Scalar) -> Scalar {
    if a.is_nan_spec() {
        Scalar { bits: NAN_BITS }
    } else if a.is_zero_spec() {
        a
    } else if a.sign() {
        Scalar { bits: NAN_BITS }
    } else if a.is_infinite_spec() {
        a
    } else {
        rounded_root(units_of(a.magnitude()) * steps_per_unit())
    }
}

/// Where the exact root lies, given the whole root `r` of the significand
/// shifted by `j` places.
proof fn lemma_root_bracket(na: int, ga: nat, j: nat, big: int, r: int, e: nat)
    requires
        big == na * pow2(j),
        r >= 0,
        r * r <= big < (r + 1) * (r + 1),
        2 * e + j == ga + 1074,
    ensures
        (r * grow(e as int)) * (r * grow(e as int)) <= (na * pow2(ga)) * steps_per_unit(),
        (na * pow2(ga)) * steps_per_unit() < ((r + 1) * grow(e as int)) * ((r + 1) * grow(
            e as int,
        )),
        r * r < big <==> (r * grow(e as int)) * (r * grow(e as int)) < (na * pow2(ga))
            * steps_per_unit(),
{
    let a = grow(e as int);
    let x = (na * pow2(ga)) * steps_per_unit();
    lemma2_to64();
    lemma_pow2_pos(e);
    lemma_pow2_adds(e, e);
    lemma_pow2_adds(j, 2 * e);
    lemma_pow2_adds(ga, 1074);
    assert(a == pow2(e));
    let aa = a * a;
    assert(aa > 0) by (nonlinear_arith)
        requires
            aa == a * a,
            a >= 1,
    ;
    assert(x == big * aa) by (nonlinear_arith)
        requires
            x == (na * pow2(ga)) * steps_per_unit(),
            pow2(ga) * steps_per_unit() == pow2(j) * aa,
            big == na * pow2(j),
    ;
    assert((r * a) * (r * a) == (r * r) * aa) by (nonlinear_arith)
        requires
            aa == a * a,
    ;
    assert(((r + 1) * a) * ((r + 1) * a) == ((r + 1) * (r + 1)) * aa) by (nonlinear_arith)
        requires
            aa == a * a,
    ;
    assert((r * r) * aa <= big * aa && big * aa < ((r + 1) * (r + 1)) * aa && (r * r < big <==> (r
        * r) * aa < big * aa)) by (nonlinear_arith)
        requires
            r * r <= big < (r + 1) * (r + 1),
            aa > 0,
    ;
}

/// The square root of a double.
pub fn square_root(a: Scalar) -> (r: Scalar)
    ensures
        r == root(a),
        r.is_nan_spec() || Scalar::zero_spec().le_spec(r),
{
    let (sa, ma) = a.split();
    proof {
        lemma_rank_orders(Scalar::zero_spec(), a);
    }
    if ma > INFINITY_BITS {
        return Scalar { bits: NAN_BITS };
    }
    if ma == 0 || (!sa && ma == INFINITY_BITS) {
        return a;
    }
    if sa {
        return Scalar { bits: NAN_BITS };
    }
    let (na, ga) = parts(ma);
    let r = Scalar { bits: root_of_parts(na, ga) };
    proof {
        lemma_rank_orders(Scalar::zero_spec(), r);
    }
    r
}

/// The pattern of the rounded root of `na * 2^ga` steps.
fn root_of_parts(na: u64, ga: u64) -> (k: u64)
    requires
        0 < na < 2 * HIDDEN_BIT,
        ga <= 2046,
    ensures
        k == rounded_root((na * pow2(ga as nat)) * steps_per_unit()).bits,
        k <= INFINITY_BITS,
{
    let (pa, _) = highest_bit128(na as u128);
    proof {
        lemma2_to64_rest();
        lemma2_to64();
        if pa > 53 {
            lemma_pow2_strictly_increases(53, pa as nat);
        }
        assert(pa <= 52);
    }
    let j: u64 = if (124 - pa) % 2 == ga % 2 {
        124 - pa
    } else {
        125 - pa
    };
    let c = power_of_two128(j);
    proof {
        lemma_pow2_to128();
        lemma_pow2_pos(j as nat);
        lemma_pow2_adds(pa as nat, j as nat);
        lemma_pow2_adds((pa + 1) as nat, j as nat);
        lemma_pow2_unfold((pa + 1) as nat);
        lemma_pow2_adds(62, 62);
        lemma_pow2_adds(63, 63);
        if pa + j > 124 {
            lemma_pow2_strictly_increases(124, (pa + j) as nat);
        }
        if pa + 1 + j < 126 {
            lemma_pow2_strictly_increases((pa + 1 + j) as nat, 126);
        }
        lemma_pow2_strictly_increases(126, 127);
        assert(na * c < pow2((pa + 1) as nat) * c) by (nonlinear_arith)
            requires
                na < pow2((pa + 1) as nat),
                c >= 1,
        ;
        assert(na * c >= pow2(pa as nat) * c) by (nonlinear_arith)
            requires
                na >= pow2(pa as nat),
                c >= 1,
        ;
    }
    let big: u128 = na as u128 * c;
    let r = integer_root(big);
    proof {
        // The root has 63 bits.
        assert(r >= 0x4000_0000_0000_0000) by (nonlinear_arith)
            requires
                big < (r + 1) * (r + 1),
                big >= 0x4000_0000_0000_0000 * 0x4000_0000_0000_0000,
                r >= 0,
        ;
        assert(r as u128 * r as u128 == r * r);
    }
    let sticky = r as u128 * r as u128 != big;
    let e: i64 = (ga as i64 + 1074 - j as i64) / 2;
    let k = round_units(r as u128, e, sticky);
    proof {
        let x = (na * pow2(ga as nat)) * steps_per_unit();
        lemma_root_bracket(na as int, ga as nat, j as nat, big as int, r as int, e as nat);
        lemma_brackets_root(k as nat, r as int, e as int, sticky, x);
        lemma_rounded_root_is(k as nat, x);
    }
    k
}

impl Scalar {
    /// The square root, [`root`].
    pub open spec fn sqrt_spec(self) -> Scalar {
        root(self)
    }

    /// The square root. It is a NaN or at least zero, and the root of a zero
    /// is that zero.
    pub fn sqrt(self) -> (r: Scalar)
        ensures
            r == self.sqrt_spec(),
            r.is_nan_spec() || Scalar::zero_spec().le_spec(r),
            self.is_zero_spec() ==> r == self,
    {
        square_root(self)
    }
}

/// The product does not depend on the order of its factors.
pub proof fn lemma_product_commutes(a: Scalar, b: Scalar)
    ensures
        product(a, b) == product(b, a),
{
    assert(units_of(a.magnitude()) * units_of(b.magnitude()) == units_of(b.magnitude()) * units_of(
        a.magnitude(),
    )) by (nonlinear_arith);
}

/// The sum does not depend on the order of its terms.
pub proof fn lemma_sum_commutes(a: Scalar, b: Scalar)
    ensures
        sum(a, b) == sum(b, a),
{
}

/// Swapping the two sides of a difference negates it: the two results are
/// numerically equal, unless the difference is a NaN.
pub proof fn lemma_difference_swaps(a: Scalar, b: Scalar)
    requires
        !difference(a, b).is_nan_spec(),
    ensures
        difference(a, b).equal(difference(b, a).neg_spec()),
{
    let forth = a.units() + b.neg_spec().units();
    let back = b.units() + a.neg_spec().units();
    assert(back == -forth);
    if !a.is_infinite_spec() && !b.is_infinite_spec() && forth != 0 {
        let size = if forth < 0 {
            -forth
        } else {
            forth
        };
        lemma_rounded_exists(forth < 0, size, 1);
        lemma_rounded_exists(back < 0, size, 1);
    }
}

/// A square root is a NaN or at least zero.
pub proof fn lemma_root_is_not_negative(a: Scalar)
    ensures
        root(a).is_nan_spec() || Scalar::zero_spec().le_spec(root(a)),
{
    lemma_rounded_root_exists(units_of(a.magnitude()) * steps_per_unit());
    lemma_rank_orders(Scalar::zero_spec(), root(a));
}

/// Rounding a sum keeps the order of the exact sums.
pub proof fn lemma_rounded_sum_is_monotone(
    exact1: int,
    exact2: int,
    both_negative1: bool,
    both_negative2: bool,
)
    requires
        exact1 <= exact2,
    ensures
        rounded_sum(exact1, both_negative1).le_spec(rounded_sum(exact2, both_negative2)),
{
    let size1 = if exact1 < 0 {
        -exact1
    } else {
        exact1
    };
    let size2 = if exact2 < 0 {
        -exact2
    } else {
        exact2
    };
    lemma_rounded_exists(exact1 < 0, size1, 1);
    lemma_rounded_exists(exact2 < 0, size2, 1);
    let k1 = nearest_pattern(size1, 1);
    let k2 = nearest_pattern(size2, 1);
    lemma_units_order(0, k1);
    lemma_units_order(0, k2);
    lemma_units_order(0, 0);
    if exact2 < 0 {
        lemma_nearest_ratio_is_monotone(k2, k1, size2, size1, 1);
        lemma_units_order(k2, k1);
    } else if exact1 > 0 {
        lemma_nearest_ratio_is_monotone(k1, k2, size1, size2, 1);
        lemma_units_order(k1, k2);
    }
}

/// The sum grows with its second term: of two terms in order, the sums with
/// one number are in order, unless one of the sums is a NaN.
pub proof fn lemma_sum_is_monotone(x: Scalar, y1: Scalar, y2: Scalar)
    requires
        y1.le_spec(y2),
        !sum(x, y1).is_nan_spec(),
        !sum(x, y2).is_nan_spec(),
    ensures
        sum(x, y1).le_spec(sum(x, y2)),
{
    lemma_rank_orders(y1, y2);
    lemma_rank_orders(sum(x, y1), sum(x, y2));
    if !x.is_infinite_spec() && !y1.is_infinite_spec() && !y2.is_infinite_spec() {
        lemma_rounded_sum_is_monotone(
            x.units() + y1.units(),
            x.units() + y2.units(),
            x.sign() && y1.sign(),
            x.sign() && y2.sign(),
        );
    } else if !x.is_infinite_spec() {
        // One of the terms is infinite, and so is its sum.
        lemma_rounded_exists(
            x.units() + y1.units() < 0,
            if x.units() + y1.units() < 0 {
                -(x.units() + y1.units())
            } else {
                x.units() + y1.units()
            },
            1,
        );
        lemma_rounded_exists(
            x.units() + y2.units() < 0,
            if x.units() + y2.units() < 0 {
                -(x.units() + y2.units())
            } else {
                x.units() + y2.units()
            },
            1,
        );
        lemma_units_order(INFINITY_BITS as nat, sum(x, y1).magnitude());
        lemma_units_order(INFINITY_BITS as nat, sum(x, y2).magnitude());
        lemma_units_order(0, 0);
    }
}

/// The quotient by a number above zero and below infinity grows with what is
/// divided: of two numbers in order, the quotients are in order.
pub proof fn lemma_quotient_is_monotone(p: Scalar, q: Scalar, a: Scalar)
    requires
        p.le_spec(q),
        a.is_positive_finite_spec(),
    ensures
        quotient(p, a).le_spec(quotient(q, a)),
{
    let den = units_of(a.magnitude());
    let u = steps_per_unit();
    let np = units_of(p.magnitude()) * u;
    let nq = units_of(q.magnitude()) * u;
    lemma_units_order(0, a.magnitude());
    lemma_units_order(p.magnitude(), q.magnitude());
    lemma_units_order(0, p.magnitude());
    lemma_units_order(0, q.magnitude());
    lemma_pow2_pos(1074);
    lemma_rounded_exists(p.sign(), np, den);
    lemma_rounded_exists(q.sign(), nq, den);
    let kp = nearest_pattern(np, den);
    let kq = nearest_pattern(nq, den);
    lemma_units_order(0, kp);
    lemma_units_order(0, kq);
    lemma_units_order(kp, INFINITY_BITS as nat);
    lemma_units_order(kq, INFINITY_BITS as nat);
    assert(np == 0 <==> p.is_zero_spec()) by (nonlinear_arith)
        requires
            np == units_of(p.magnitude()) * u,
            u > 0,
            units_of(p.magnitude()) == 0 <==> p.is_zero_spec(),
    ;
    assert(nq == 0 <==> q.is_zero_spec()) by (nonlinear_arith)
        requires
            nq == units_of(q.magnitude()) * u,
            u > 0,
            units_of(q.magnitude()) == 0 <==> q.is_zero_spec(),
    ;
    lemma_rounded_zero(p.sign(), den);
    lemma_rounded_zero(q.sign(), den);
    lemma_units_order(0, 0);
    if p.is_zero_spec() || q.is_zero_spec() {
    } else if !p.is_infinite_spec() && !q.is_infinite_spec() {
        if q.sign() {
            // Both are below zero, or zero with the sign bit set.
            assert(nq <= np) by (nonlinear_arith)
                requires
                    np == units_of(p.magnitude()) * u,
                    nq == units_of(q.magnitude()) * u,
                    units_of(q.magnitude()) <= units_of(p.magnitude()),
                    u > 0,
            ;
            lemma_nearest_ratio_is_monotone(kq, kp, nq, np, den);
            lemma_units_order(kq, kp);
        } else if !p.sign() {
            assert(np <= nq) by (nonlinear_arith)
                requires
                    np == units_of(p.magnitude()) * u,
                    nq == units_of(q.magnitude()) * u,
                    units_of(p.magnitude()) <= units_of(q.magnitude()),
                    u > 0,
            ;
            lemma_nearest_ratio_is_monotone(kp, kq, np, nq, den);
            lemma_units_order(kp, kq);
        }
    }
}

/// Negating one factor negates the product, unless the product is a NaN.
pub proof fn lemma_product_negates(a: Scalar, b: Scalar)
    requires
        !product(a, b).is_nan_spec(),
    ensures
        product(a, b.neg_spec()) == product(a, b).neg_spec(),
{
    lemma_neg_mirrors(b);
    let num = units_of(a.magnitude()) * units_of(b.magnitude());
    lemma_pow2_pos(1074);
    lemma_rounded_exists(a.sign() != b.sign(), num, steps_per_unit());
    lemma_rounded_exists(a.sign() != b.neg_spec().sign(), num, steps_per_unit());
}

/// The sum of two negations is the negation of the sum: the two are
/// numerically equal, unless the sum is a NaN.
pub proof fn lemma_sum_negates(a: Scalar, b: Scalar)
    requires
        !sum(a, b).is_nan_spec(),
    ensures
        sum(a.neg_spec(), b.neg_spec()).equal(sum(a, b).neg_spec()),
{
    lemma_neg_mirrors(a);
    lemma_neg_mirrors(b);
    lemma_neg_mirrors(sum(a, b));
    let forth = a.units() + b.units();
    if !a.is_infinite_spec() && !b.is_infinite_spec() && forth != 0 {
        let size = if forth < 0 {
            -forth
        } else {
            forth
        };
        lemma_rounded_exists(forth < 0, size, 1);
        lemma_rounded_exists(-forth < 0, size, 1);
    }
}

/// The sum of numerically equal terms is numerically equal, unless it is a
/// NaN.
pub proof fn lemma_sum_respects_equality(a: Scalar, a2: Scalar, b: Scalar, b2: Scalar)
    requires
        a.equal(a2),
        b.equal(b2),
        !sum(a, b).is_nan_spec(),
    ensures
        sum(a, b).equal(sum(a2, b2)),
{
    lemma_rank_orders(a, a2);
    lemma_rank_orders(b, b2);
    let exact = a.units() + b.units();
    if !a.is_infinite_spec() && !b.is_infinite_spec() && exact != 0 {
        let size = if exact < 0 {
            -exact
        } else {
            exact
        };
        lemma_rounded_exists(exact < 0, size, 1);
    }
}

/// A product that is a double is returned as it is: where the factors are
/// finite and `r` stands for their exact product with its sign, `r` is the
/// product.
pub proof fn lemma_product_of_exact(a: Scalar, b: Scalar, r: Scalar)
    requires
        a.is_finite_spec(),
        b.is_finite_spec(),
        !r.is_nan_spec(),
        r.sign() == (a.sign() != b.sign()),
        units_of(r.magnitude()) * steps_per_unit() == units_of(a.magnitude()) * units_of(
            b.magnitude(),
        ),
    ensures
        product(a, b) == r,
{
    lemma_pow2_pos(1074);
    lemma_rounded_exact(
        r,
        units_of(a.magnitude()) * units_of(b.magnitude()),
        steps_per_unit(),
    );
}

/// A sum that is a double is returned as it is: where the terms are finite
/// and `r` stands for their exact sum, which is not zero, `r` is the sum.
pub proof fn lemma_sum_of_exact(a: Scalar, b: Scalar, r: Scalar)
    requires
        a.is_finite_spec(),
        b.is_finite_spec(),
        !r.is_nan_spec(),
        !r.is_zero_spec(),
        r.units() == a.units() + b.units(),
    ensures
        sum(a, b) == r,
{
    lemma_units_order(0, r.magnitude());
    lemma_rounded_exact(r, units_of(r.magnitude()), 1);
}

/// A quotient that is a double is returned as it is: where both sides are
/// finite, the divisor is not zero, and `r` times the divisor is exactly what
/// is divided, `r` is the quotient.
pub proof fn lemma_quotient_of_exact(a: Scalar, b: Scalar, r: Scalar)
    requires
        a.is_finite_spec(),
        b.is_finite_spec(),
        !b.is_zero_spec(),
        !r.is_nan_spec(),
        r.sign() == (a.sign() != b.sign()),
        units_of(r.magnitude()) * units_of(b.magnitude()) == units_of(a.magnitude())
            * steps_per_unit(),
    ensures
        quotient(a, b) == r,
{
    lemma_units_order(0, b.magnitude());
    lemma_rounded_exact(
        r,
        units_of(a.magnitude()) * steps_per_unit(),
        units_of(b.magnitude()),
    );
}

/// A square root that is a double is returned as it is: where `a` is above
/// zero and finite, and `r` is not below zero and its square is exactly `a`,
/// `r` is the root.
pub proof fn lemma_root_of_exact(a: Scalar, r: Scalar)
    requires
        a.is_positive_finite_spec(),
        !r.is_nan_spec(),
        !r.sign(),
        units_of(r.magnitude()) * units_of(r.magnitude()) == units_of(a.magnitude())
            * steps_per_unit(),
    ensures
        root(a) == r,
{
    let k = r.magnitude();
    let here = units_of(k);
    let x = units_of(a.magnitude()) * steps_per_unit();
    lemma_units_order(0, k);
    lemma_units_increase(k, k + 1);
    let above = here + units_of(k + 1);
    assert(4 * (here * here) < above * above) by (nonlinear_arith)
        requires
            0 <= 2 * here < above,
    ;
    if k > 0 {
        lemma_units_order(0, (k - 1) as nat);
        lemma_units_increase((k - 1) as nat, k);
        let below = units_of((k - 1) as nat) + here;
        assert(below * below < 4 * (here * here)) by (nonlinear_arith)
            requires
                0 <= below < 2 * here,
        ;
    }
    lemma_rounded_root_is(k, x);
}

/// The product with a finite number that is not below zero grows with the
/// other factor: of two factors in order, the products are in order.
pub proof fn lemma_product_is_monotone(c: Scalar, x: Scalar, y: Scalar)
    requires
        c.is_finite_spec(),
        !c.sign(),
        x.is_finite_spec(),
        y.is_finite_spec(),
        x.le_spec(y),
    ensures
        product(c, x).le_spec(product(c, y)),
{
    let u = steps_per_unit();
    let uc = units_of(c.magnitude());
    let nx = uc * units_of(x.magnitude());
    let ny = uc * units_of(y.magnitude());
    lemma_pow2_pos(1074);
    lemma_units_order(0, c.magnitude());
    lemma_units_order(0, x.magnitude());
    lemma_units_order(0, y.magnitude());
    lemma_units_order(x.magnitude(), y.magnitude());
    lemma_rounded_exists(x.sign(), nx, u);
    lemma_rounded_exists(y.sign(), ny, u);
    let kx = nearest_pattern(nx, u);
    let ky = nearest_pattern(ny, u);
    lemma_units_order(0, kx);
    lemma_units_order(0, ky);
    if y.sign() && x.sign() {
        assert(ny <= nx) by (nonlinear_arith)
            requires
                nx == uc * units_of(x.magnitude()),
                ny == uc * units_of(y.magnitude()),
                units_of(y.magnitude()) <= units_of(x.magnitude()),
                uc >= 0,
        ;
        lemma_nearest_ratio_is_monotone(ky, kx, ny, nx, u);
        lemma_units_order(ky, kx);
    } else if !x.sign() && !y.sign() {
        assert(nx <= ny) by (nonlinear_arith)
            requires
                nx == uc * units_of(x.magnitude()),
                ny == uc * units_of(y.magnitude()),
                units_of(x.magnitude()) <= units_of(y.magnitude()),
                uc >= 0,
        ;
        lemma_nearest_ratio_is_monotone(kx, ky, nx, ny, u);
        lemma_units_order(kx, ky);
    } else if !x.sign() {
        // `x` is zero with a clear sign bit, and `y` is zero with it set.
        assert(nx == 0 && ny == 0) by (nonlinear_arith)
            requires
                nx == uc * units_of(x.magnitude()),
                ny == uc * units_of(y.magnitude()),
                units_of(x.magnitude()) == 0,
                units_of(y.magnitude()) == 0,
        ;
        lemma_rounded_zero(false, u);
        lemma_rounded_zero(true, u);
        lemma_units_order(0, 0);
    }
}

/// One is 2^1074 steps.
pub proof fn lemma_units_of_one()
    ensures
        Scalar::one_spec().units() == steps_per_unit(),
        Scalar::one_spec().is_finite_spec(),
{
    lemma_pow2_adds(52, 1022);
    lemma2_to64_rest();
}

/// A number times one is that number.
pub proof fn lemma_product_by_one(x: Scalar)
    requires
        !x.is_nan_spec(),
    ensures
        product(x, Scalar::one_spec()) == x,
{
    lemma_units_of_one();
    if x.is_finite_spec() {
        lemma_product_of_exact(x, Scalar::one_spec(), x);
    }
}

} // verus!
