//! Between integers and [`Scalar`].
//!
//! Both directions are computed on the bits and proved against the value that
//! a pattern stands for: [`to_u64`] cuts off what follows the point, and
//! [`from_i64`] gives the nearest double.

use crate::round::{grow, lemma_brackets_ratio, lemma_rounded_is, round_units, rounded, shrink};
use crate::scalar::{
    lemma_units_order, steps_per_unit, units_of, Scalar, HIDDEN_BIT, INFINITY_BITS, SIGN_BIT,
};
use vstd::arithmetic::div_mod::{
    lemma_basic_div, lemma_div_by_multiple, lemma_div_is_ordered,
    lemma_div_multiples_vanish_quotient,
};
use vstd::arithmetic::power2::{
    lemma2_to64, lemma2_to64_rest, lemma_pow2_adds, lemma_pow2_pos, lemma_pow2_strictly_increases,
    lemma_pow2_unfold, pow2,
};
use vstd::prelude::*;

verus! {

/// The exponent field of 1.
pub const ONE_FIELD: u64 = 1023;

/// The step between neighbours in the binade of `2^p`, and the size of one:
/// `2^(1022 + p) == 2^1022 * 2^p` and `2^1074 == 2^52 * 2^1022`.
pub proof fn lemma_binade(p: nat)
    ensures
        pow2(1022 + p) == pow2(1022) * pow2(p),
        steps_per_unit() == HIDDEN_BIT * pow2(1022),
        pow2(52) == HIDDEN_BIT,
        pow2(1022) > 0,
{
    lemma_pow2_adds(1022, p);
    lemma_pow2_adds(52, 1022);
    lemma2_to64_rest();
    lemma_pow2_pos(1022);
}

/// `2^e`, for an `e` that leaves it within 64 bits.
pub fn power_of_two(e: u64) -> (r: u64)
    requires
        e <= 63,
    ensures
        r == pow2(e as nat),
{
    let mut r: u64 = 1;
    let mut i: u64 = 0;
    proof {
        lemma2_to64();
    }
    while i < e
        invariant
            i <= e <= 63,
            r == pow2(i as nat),
        decreases e - i,
    {
        proof {
            lemma_pow2_unfold((i + 1) as nat);
            lemma2_to64_rest();
            if i + 1 < 63 {
                lemma_pow2_strictly_increases((i + 1) as nat, 63);
            }
        }
        r = r * 2;
        i += 1;
    }
    r
}

/// The whole part of a value, kept within `0 ..= u64::MAX`: zero for a NaN
/// and for everything below one, `u64::MAX` for everything from 2^64 on.
pub open spec fn truncated(s: Scalar) -> int {
    if s.is_nan_spec() || s.sign() {
        0
    } else {
        let whole = units_of(s.magnitude()) / steps_per_unit();
        if whole > u64::MAX {
            u64::MAX as int
        } else {
            whole
        }
    }
}

/// The value without what follows the point, as an unsigned integer.
pub fn to_u64(s: Scalar) -> (r: u64)
    ensures
        r == truncated(s),
{
    if s.bits >= SIGN_BIT || s.bits > INFINITY_BITS {
        return 0;
    }
    let field = s.bits / HIDDEN_BIT;
    let fraction = s.bits % HIDDEN_BIT;
    let ghost g = pow2(1022) as int;
    let ghost units = units_of(s.bits as nat);
    proof {
        lemma_binade(0);
        assert(field <= 2047);
    }
    if field < ONE_FIELD {
        proof {
            if field > 0 {
                let low = pow2((field - 1) as nat) as int;
                lemma_pow2_pos((field - 1) as nat);
                lemma_pow2_unfold(field as nat);
                if field < 1022 {
                    lemma_pow2_strictly_increases(field as nat, 1022);
                }
                assert((HIDDEN_BIT + fraction) * low < HIDDEN_BIT * (2 * low))
                    by (nonlinear_arith)
                    requires
                        fraction < HIDDEN_BIT,
                        low > 0,
                ;
                assert(HIDDEN_BIT * (2 * low) <= HIDDEN_BIT * g) by (nonlinear_arith)
                    requires
                        2 * low <= g,
                ;
            } else {
                assert(HIDDEN_BIT <= HIDDEN_BIT * g) by (nonlinear_arith)
                    requires
                        g >= 1,
                ;
            }
            lemma_basic_div(units, steps_per_unit());
        }
        return 0;
    }
    if field >= ONE_FIELD + 64 {
        proof {
            let high = pow2((field - 1) as nat) as int;
            let huge = pow2(64) as int;
            lemma2_to64();
            lemma_binade(64);
            if field - 1 > 1086 {
                lemma_pow2_strictly_increases(1086, (field - 1) as nat);
            }
            assert(units >= HIDDEN_BIT * (g * huge)) by (nonlinear_arith)
                requires
                    units == (HIDDEN_BIT + fraction) * high,
                    high >= g * huge,
                    g * huge > 0,
            ;
            assert(HIDDEN_BIT * (g * huge) == huge * steps_per_unit()) by (nonlinear_arith)
                requires
                    steps_per_unit() == HIDDEN_BIT * g,
            ;
            lemma_div_by_multiple(huge, steps_per_unit());
            lemma_div_is_ordered(
                huge * steps_per_unit(),
                units,
                steps_per_unit(),
            );
        }
        return u64::MAX;
    }
    let shift = field - ONE_FIELD;
    let q = HIDDEN_BIT + fraction;
    proof {
        lemma_binade(shift as nat);
        assert(units == q * (g * pow2(shift as nat)));
    }
    if shift <= 52 {
        let d = power_of_two(52 - shift);
        proof {
            let up = pow2(shift as nat) as int;
            lemma_pow2_adds(shift as nat, (52 - shift) as nat);
            lemma_pow2_pos(shift as nat);
            assert(units == (g * up) * q) by (nonlinear_arith)
                requires
                    units == q * (g * up),
            ;
            assert(steps_per_unit() == (g * up) * d) by (nonlinear_arith)
                requires
                    steps_per_unit() == HIDDEN_BIT * g,
                    HIDDEN_BIT == up * d,
            ;
            assert(g * up > 0) by (nonlinear_arith)
                requires
                    g > 0,
                    up > 0,
            ;
            lemma_div_multiples_vanish_quotient(
                g * up,
                q as int,
                d as int,
            );
        }
        q / d
    } else {
        let d = power_of_two(shift - 52);
        proof {
            lemma_pow2_adds(52, (shift - 52) as nat);
            lemma2_to64();
            if shift - 52 < 11 {
                lemma_pow2_strictly_increases((shift - 52) as nat, 11);
            }
            assert(q * d <= 0x1f_ffff_ffff_ffff * 0x800) by (nonlinear_arith)
                requires
                    q <= 0x1f_ffff_ffff_ffff,
                    d <= 0x800,
            ;
            assert(units == (q * d) * steps_per_unit()) by (nonlinear_arith)
                requires
                    units == q * (g * pow2(shift as nat)),
                    pow2(shift as nat) == HIDDEN_BIT * d,
                    steps_per_unit() == HIDDEN_BIT * g,
            ;
            lemma_div_by_multiple((q * d) as int, steps_per_unit());
        }
        q * d
    }
}

/// Cutting off keeps the order: of two numbers in order, the whole parts are
/// in order.
pub proof fn lemma_truncated_is_monotone(x: Scalar, y: Scalar)
    requires
        x.le_spec(y),
    ensures
        truncated(x) <= truncated(y),
{
    lemma_units_order(x.magnitude(), y.magnitude());
    lemma_units_order(0, x.magnitude());
    lemma_units_order(0, y.magnitude());
    lemma_pow2_pos(1074);
    if !x.sign() && !y.sign() {
        lemma_div_is_ordered(
            units_of(x.magnitude()),
            units_of(y.magnitude()),
            steps_per_unit(),
        );
    } else if !x.sign() {
        lemma_basic_div(0, steps_per_unit());
    } else if !y.sign() {
        lemma_basic_div(0, steps_per_unit());
        lemma_div_is_ordered(0, units_of(y.magnitude()), steps_per_unit());
    }
}

/// The double nearest to the integer `n`, the one with the even pattern where
/// two are equally near.
pub open spec fn nearest_double(n: int) -> Scalar {
    if n < 0 {
        rounded(true, -n * steps_per_unit(), 1)
    } else {
        rounded(false, n * steps_per_unit(), 1)
    }
}

/// The double nearest to `n`. An integer of at most 53 bits is converted
/// exactly.
pub fn from_i64(n: i64) -> (r: Scalar)
    ensures
        r == nearest_double(n as int),
        -0x20_0000_0000_0000 < n < 0x20_0000_0000_0000 ==> r.units() == n * steps_per_unit(),
{
    let m: u64 = if n == i64::MIN {
        SIGN_BIT
    } else if n < 0 {
        (-n) as u64
    } else {
        n as u64
    };
    let k = round_units(m as u128, 1074, false);
    proof {
        let num = m * steps_per_unit();
        assert(grow(1074) == steps_per_unit() && shrink(1074) == 1);
        lemma_pow2_pos(1074);
        assert(m * grow(1074) * 1 == num * shrink(1074) && num * shrink(1074) < (m + 1) * grow(
            1074,
        ) * 1) by (nonlinear_arith)
            requires
                num == m * steps_per_unit(),
                grow(1074) == steps_per_unit(),
                shrink(1074) == 1,
                steps_per_unit() > 0,
        ;
        lemma_brackets_ratio(k as nat, m as int, 1074, false, num, 1);
        lemma_rounded_is(n < 0, k as nat, num, 1);
        assert(n < 0 ==> -n * steps_per_unit() == num && n * steps_per_unit() == -num)
            by (nonlinear_arith)
            requires
                num == m * steps_per_unit(),
                n < 0 ==> m == -n,
        ;
    }
    if n < 0 {
        Scalar { bits: k + SIGN_BIT }
    } else {
        Scalar { bits: k }
    }
}

} // verus!
