//! Rounding to the nearest double.
//!
//! Every result of the arithmetic is an exact number that is then rounded:
//! to the nearest double, and to the one with the even pattern where two are
//! equally near. Doubles of one sign follow each other as their patterns do,
//! so "nearest" is stated on the neighbours of a pattern: the exact number
//! lies between the middle of the pattern and its lower neighbour and the
//! middle of the pattern and its upper neighbour. Infinity takes part as the
//! number 2^1024, which is where the patterns lead after the largest double.

use crate::scalar::{
    lemma_units_increase, lemma_units_order, units_of, Scalar, HIDDEN_BIT, INFINITY_BITS, SIGN_BIT,
};
use vstd::arithmetic::div_mod::{lemma_fundamental_div_mod, lemma_fundamental_div_mod_converse};
use vstd::arithmetic::power2::{
    lemma2_to64, lemma2_to64_rest, lemma_pow2_adds, lemma_pow2_pos, lemma_pow2_strictly_increases,
    lemma_pow2_unfold, pow2,
};
use vstd::prelude::*;

verus! {

/// Twice the middle between the pattern `k` and its lower neighbour, in steps
/// of 2^-1074.
pub open spec fn lower_middle_twice(k: nat) -> int {
    units_of((k - 1) as nat) + units_of(k)
}

/// Twice the middle between the pattern `k` and its upper neighbour, in steps
/// of 2^-1074.
pub open spec fn upper_middle_twice(k: nat) -> int {
    units_of(k) + units_of(k + 1)
}

/// Whether the pattern `k`, with a clear sign bit, stands for the double
/// nearest to `num / den`, a number that is not below zero, counted in steps
/// of 2^-1074.
///
/// Twice the number lies between the sum of `k` with its lower neighbour and
/// the sum of `k` with its upper neighbour; where it meets one of the sums,
/// the number is half-way between two doubles, and `k` is even.
pub open spec fn is_nearest_ratio(k: nat, num: int, den: int) -> bool {
    let below = lower_middle_twice(k);
    let above = upper_middle_twice(k);
    &&& k <= INFINITY_BITS
    &&& k > 0 ==> below * den <= 2 * num
    &&& k > 0 && below * den == 2 * num ==> k % 2 == 0
    &&& k < INFINITY_BITS ==> 2 * num <= above * den
    &&& k < INFINITY_BITS && 2 * num == above * den ==> k % 2 == 0
}

/// No two patterns are nearest to one number.
pub proof fn lemma_nearest_ratio_is_unique(k1: nat, k2: nat, num: int, den: int)
    requires
        den > 0,
        is_nearest_ratio(k1, num, den),
        is_nearest_ratio(k2, num, den),
    ensures
        k1 == k2,
{
    if k1 + 1 < k2 {
        lemma_middles_increase(k1, k2, den);
    }
    if k2 + 1 < k1 {
        lemma_middles_increase(k2, k1, den);
    }
}

/// The middle above a pattern lies below the middle below a pattern that is
/// not its upper neighbour.
proof fn lemma_middles_increase(lo: nat, hi: nat, den: int)
    requires
        den > 0,
        lo + 1 < hi,
    ensures
        upper_middle_twice(lo) * den < lower_middle_twice(hi) * den,
{
    let above = units_of(lo) + units_of(lo + 1);
    let below = units_of((hi - 1) as nat) + units_of(hi);
    lemma_units_increase(lo, (hi - 1) as nat);
    lemma_units_increase(lo + 1, hi);
    assert(above * den < below * den) by (nonlinear_arith)
        requires
            above < below,
            den > 0,
    ;
}

/// A number that a pattern stands for has that pattern for its nearest.
pub proof fn lemma_exact_is_nearest(k: nat, num: int, den: int)
    requires
        den > 0,
        k <= INFINITY_BITS,
        units_of(k) * den == num,
    ensures
        is_nearest_ratio(k, num, den),
{
    let here = units_of(k);
    lemma_units_increase(k, k + 1);
    let above = here + units_of(k + 1);
    assert(2 * (here * den) < above * den) by (nonlinear_arith)
        requires
            2 * here < above,
            den > 0,
    ;
    if k > 0 {
        lemma_units_increase((k - 1) as nat, k);
        let below = units_of((k - 1) as nat) + here;
        assert(below * den < 2 * (here * den)) by (nonlinear_arith)
            requires
                below < 2 * here,
                den > 0,
        ;
    }
}

/// Rounding keeps the order: of two numbers, the larger has the larger
/// nearest pattern, or the same.
pub proof fn lemma_nearest_ratio_is_monotone(k1: nat, k2: nat, num1: int, num2: int, den: int)
    requires
        den > 0,
        num1 <= num2,
        is_nearest_ratio(k1, num1, den),
        is_nearest_ratio(k2, num2, den),
    ensures
        k1 <= k2,
{
    if k1 > k2 + 1 {
        lemma_middles_increase(k2, k1, den);
    }
}

/// How far apart two integers are.
pub open spec fn distance(a: int, b: int) -> int {
    if a < b {
        b - a
    } else {
        a - b
    }
}

/// The nearest pattern is nearest: no pattern up to that of infinity stands
/// for a number that is nearer to `num / den`.
pub proof fn lemma_nearest_ratio_is_nearest(k: nat, other: nat, num: int, den: int)
    requires
        den > 0,
        is_nearest_ratio(k, num, den),
        other <= INFINITY_BITS,
    ensures
        distance(units_of(k) * den, num) <= distance(units_of(other) * den, num),
{
    let here = units_of(k) * den;
    let there = units_of(other) * den;
    if other > k {
        let next = units_of(k + 1) * den;
        lemma_units_increase(k, k + 1);
        if other > k + 1 {
            lemma_units_increase(k + 1, other);
        }
        assert(here < next && next <= there) by (nonlinear_arith)
            requires
                here == units_of(k) * den,
                next == units_of(k + 1) * den,
                there == units_of(other) * den,
                units_of(k) < units_of(k + 1) <= units_of(other),
                den > 0,
        ;
        assert((units_of(k) + units_of(k + 1)) * den == here + next) by (nonlinear_arith)
            requires
                here == units_of(k) * den,
                next == units_of(k + 1) * den,
        ;
    }
    if other < k {
        let last = units_of((k - 1) as nat) * den;
        lemma_units_increase((k - 1) as nat, k);
        if other < k - 1 {
            lemma_units_increase(other, (k - 1) as nat);
        }
        assert(there <= last && last < here) by (nonlinear_arith)
            requires
                here == units_of(k) * den,
                last == units_of((k - 1) as nat) * den,
                there == units_of(other) * den,
                units_of(other) <= units_of((k - 1) as nat) < units_of(k),
                den > 0,
        ;
        assert((units_of((k - 1) as nat) + units_of(k)) * den == last + here) by (nonlinear_arith)
            requires
                here == units_of(k) * den,
                last == units_of((k - 1) as nat) * den,
        ;
    }
}

/// The pattern nearest to `num / den`.
pub open spec fn nearest_pattern(num: int, den: int) -> nat {
    choose|k: nat| is_nearest_ratio(k, num, den)
}

/// The double of the given sign that is nearest in size to `num / den`.
pub open spec fn rounded(negative: bool, num: int, den: int) -> Scalar {
    Scalar {
        bits: (nearest_pattern(num, den) + if negative {
            SIGN_BIT
        } else {
            0
        }) as u64,
    }
}

/// What a pattern stands for, written with its quantum: the pattern
/// `g * 2^52 + n` stands for `n * 2^g` steps, where `n` has exactly 53 bits,
/// or `g` is zero and `n` has at most 53 bits, or `n` is `2^53`.
pub proof fn lemma_units_of_quantum(g: nat, n: nat)
    requires
        n <= 2 * HIDDEN_BIT,
        g == 0 || n >= HIDDEN_BIT,
    ensures
        units_of((g * HIDDEN_BIT + n) as nat) == n * pow2(g),
{
    let h = HIDDEN_BIT as int;
    let k = (g * HIDDEN_BIT + n) as int;
    let q = pow2(g) as int;
    lemma2_to64();
    if n < HIDDEN_BIT {
        lemma_fundamental_div_mod_converse(k, h, 0, n as int);
        assert(units_of(k as nat) == n);
        assert(n * q == n) by (nonlinear_arith)
            requires
                q == 1,
        ;
    } else if n < 2 * HIDDEN_BIT {
        assert(k == (g + 1) * h + (n - h)) by (nonlinear_arith)
            requires
                k == g * h + n,
        ;
        lemma_fundamental_div_mod_converse(k, h, g as int + 1, n - h);
        assert(k / h == g + 1 && k % h == n - h);
        assert(units_of(k as nat) == (h + (n - h)) * q);
    } else {
        assert(k == (g + 2) * h + 0) by (nonlinear_arith)
            requires
                k == g * h + n,
                n == 2 * h,
        ;
        lemma_fundamental_div_mod_converse(k, h, g as int + 2, 0);
        assert(k / h == g + 2 && k % h == 0);
        lemma_pow2_unfold(g + 1);
        assert(units_of(k as nat) == h * pow2(g + 1));
        assert(h * (2 * q) == (2 * h) * q) by (nonlinear_arith);
    }
}

/// `2^e` for an `e` above zero, and one for every other `e`.
pub open spec fn grow(e: int) -> int {
    if e > 0 {
        pow2(e as nat) as int
    } else {
        1
    }
}

/// `2^-e` for an `e` below zero, and one for every other `e`.
pub open spec fn shrink(e: int) -> int {
    if e < 0 {
        pow2((-e) as nat) as int
    } else {
        1
    }
}

/// Whether the pattern `k` stands for the double nearest to every number from
/// `m * 2^e` up to, but not including, `(m + 1) * 2^e`; without `sticky`,
/// whether it stands for the double nearest to `m * 2^e` itself.
///
/// The numbers are counted in steps of 2^-1074, and `m * 2^e` is written as
/// `m * grow(e) / shrink(e)`.
pub open spec fn brackets(k: nat, m: int, e: int, sticky: bool) -> bool {
    let below = lower_middle_twice(k);
    let above = upper_middle_twice(k);
    &&& k <= INFINITY_BITS
    &&& k > 0 ==> below * shrink(e) <= 2 * m * grow(e)
    &&& k > 0 && !sticky && below * shrink(e) == 2 * m * grow(e) ==> k % 2 == 0
    &&& k < INFINITY_BITS && sticky ==> 2 * (m + 1) * grow(e) <= above * shrink(e)
    &&& k < INFINITY_BITS && !sticky ==> 2 * m * grow(e) <= above * shrink(e)
    &&& k < INFINITY_BITS && !sticky && 2 * m * grow(e) == above * shrink(e) ==> k % 2 == 0
}

/// The values of the two largest powers of two that fit 128 bits.
pub proof fn lemma_pow2_to128()
    ensures
        pow2(64) == 0x1_0000_0000_0000_0000,
        pow2(127) == 0x8000_0000_0000_0000_0000_0000_0000_0000,
        pow2(128) == 0x1_0000_0000_0000_0000_0000_0000_0000_0000,
{
    lemma2_to64();
    lemma2_to64_rest();
    lemma_pow2_adds(64, 63);
    lemma_pow2_adds(64, 64);
}

/// `2^e`, for an `e` that leaves it within 128 bits.
pub fn power_of_two128(e: u64) -> (r: u128)
    requires
        e <= 127,
    ensures
        r == pow2(e as nat),
{
    let mut r: u128 = 1;
    let mut i: u64 = 0;
    proof {
        lemma2_to64();
    }
    while i < e
        invariant
            i <= e <= 127,
            r == pow2(i as nat),
        decreases e - i,
    {
        proof {
            lemma_pow2_to128();
            lemma_pow2_unfold((i + 1) as nat);
            if i + 1 < 127 {
                lemma_pow2_strictly_increases((i + 1) as nat, 127);
            }
        }
        r = r * 2;
        i += 1;
    }
    r
}

/// The position `p` of the highest set bit of `m`, and `2^p`.
pub fn highest_bit128(m: u128) -> (r: (u64, u128))
    requires
        m >= 1,
    ensures
        r.0 <= 127,
        r.1 == pow2(r.0 as nat),
        r.1 <= m,
        m - r.1 < r.1,
{
    let mut p: u64 = 0;
    let mut top: u128 = 1;
    proof {
        lemma2_to64();
    }
    while top <= m / 2
        invariant
            top == pow2(p as nat),
            1 <= top <= m,
            p <= 127,
        decreases m - top,
    {
        proof {
            lemma_pow2_to128();
            lemma_pow2_unfold((p + 1) as nat);
            if p + 1 > 127 {
                lemma_pow2_unfold((p + 1) as nat);
                if p + 1 > 128 {
                    lemma_pow2_strictly_increases(128, (p + 1) as nat);
                }
            }
        }
        top = top * 2;
        p += 1;
    }
    (p, top)
}

/// The arithmetic of one rounding step. A number `m = n0 * 2 * half + w` is
/// cut down to `n0`; `q * b == 2 * half * a` relates the quantum `q` of the
/// result to the scale `a / b` of `m`.
proof fn lemma_round_step(n0: int, w: int, half: int, m: int, a: int, b: int, q: int)
    requires
        half >= 1,
        0 <= w < 2 * half,
        n0 >= 0,
        m == n0 * (2 * half) + w,
        a >= 1,
        b >= 1,
        q >= 1,
        q * b == (2 * half) * a,
    ensures
        2 * (n0 * q) * b <= 2 * m * a,
        2 * (m + 1) * a <= 2 * ((n0 + 1) * q) * b,
        (n0 * q + (n0 + 1) * q) * b - 2 * m * a == (2 * half - 2 * w) * a,
        (n0 * q + (n0 + 1) * q) * b - 2 * (m + 1) * a == (2 * half - 2 * w - 2) * a,
{
    let x = q * b;
    assert((n0 * q) * b == n0 * x) by (nonlinear_arith)
        requires
            x == q * b,
    ;
    assert(((n0 + 1) * q) * b == n0 * x + x) by (nonlinear_arith)
        requires
            x == q * b,
    ;
    assert(m * a == n0 * x + w * a) by (nonlinear_arith)
        requires
            m == n0 * (2 * half) + w,
            x == (2 * half) * a,
    ;
    assert(x == 2 * half * a) by (nonlinear_arith)
        requires
            x == (2 * half) * a,
    ;
    assert(0 <= w * a && w * a + a <= 2 * half * a) by (nonlinear_arith)
        requires
            0 <= w,
            w + 1 <= 2 * half,
            a >= 1,
    ;
    assert((2 * half - 2 * w) * a == 2 * half * a - 2 * (w * a)) by (nonlinear_arith);
    assert((2 * half - 2 * w - 2) * a == 2 * half * a - 2 * (w * a) - 2 * a) by (nonlinear_arith);
    assert(2 * (n0 * q) * b == 2 * (n0 * x)) by (nonlinear_arith)
        requires
            (n0 * q) * b == n0 * x,
    ;
    assert(2 * ((n0 + 1) * q) * b == 2 * (n0 * x + x)) by (nonlinear_arith)
        requires
            ((n0 + 1) * q) * b == n0 * x + x,
    ;
    assert(2 * m * a == 2 * (n0 * x + w * a)) by (nonlinear_arith)
        requires
            m * a == n0 * x + w * a,
    ;
    assert(2 * (m + 1) * a == 2 * (n0 * x + w * a) + 2 * a) by (nonlinear_arith)
        requires
            m * a == n0 * x + w * a,
    ;
    assert((n0 * q + (n0 + 1) * q) * b == 2 * (n0 * x) + x) by (nonlinear_arith)
        requires
            (n0 * q) * b == n0 * x,
            ((n0 + 1) * q) * b == n0 * x + x,
    ;
}

/// Zero is nearest to zero, and to everything below half a step.
proof fn lemma_round_tiny(m: int, e: int, sticky: bool)
    requires
        0 <= m < 0x1_0000_0000_0000_0000_0000_0000_0000_0000,
        m == 0 ==> !sticky,
        m > 0 ==> e < -128,
    ensures
        brackets(0, m, e, sticky),
{
    lemma_units_increase(0, 1);
    lemma_pow2_to128();
    if m > 0 {
        let b = shrink(e);
        lemma_pow2_unfold(129);
        if -e > 129 {
            lemma_pow2_strictly_increases(129, (-e) as nat);
        }
        assert(units_of(1) == 1);
        assert(2 * (m + 1) * 1 <= 1 * b);
        assert(2 * (m + 1) * grow(e) <= (units_of(0) + units_of(1)) * b) by (nonlinear_arith)
            requires
                grow(e) == 1,
                units_of(0) == 0,
                units_of(1) == 1,
                2 * (m + 1) <= b,
        ;
        assert(2 * m * grow(e) < (units_of(0) + units_of(1)) * b) by (nonlinear_arith)
            requires
                grow(e) == 1,
                units_of(0) == 0,
                units_of(1) == 1,
                2 * (m + 1) <= b,
        ;
    } else {
        lemma_pow2_pos((-e) as nat);
        assert(2 * m * grow(e) == 0) by (nonlinear_arith)
            requires
                m == 0,
        ;
        assert((units_of(0) + units_of(1)) * shrink(e) > 0) by (nonlinear_arith)
            requires
                units_of(0) + units_of(1) > 0,
                shrink(e) > 0,
        ;
    }
}

/// Infinity is nearest to everything from 2^1024 on.
proof fn lemma_round_overflow(m: int, e: int, p: nat, sticky: bool)
    requires
        m >= pow2(p),
        p + e >= 2098,
        e >= 0,
    ensures
        brackets(INFINITY_BITS as nat, m, e, sticky),
{
    let a = grow(e);
    let top = pow2(2098) as int;
    lemma_units_of_quantum(2045, 2 * HIDDEN_BIT as nat);
    lemma_units_increase((INFINITY_BITS - 1) as nat, INFINITY_BITS as nat);
    lemma_pow2_pos(e as nat);
    lemma_pow2_adds(p, e as nat);
    lemma_pow2_adds(53, 2045);
    lemma2_to64_rest();
    lemma2_to64();
    if p + e > 2098 {
        lemma_pow2_strictly_increases(2098, (p + e) as nat);
    }
    assert(units_of(INFINITY_BITS as nat) == top);
    assert(a == pow2(e as nat));
    assert(pow2(p) * a >= top);
    assert(m * a >= top) by (nonlinear_arith)
        requires
            m >= pow2(p),
            pow2(p) * a >= top,
            a >= 1,
    ;
    assert(2 * m * a >= 2 * top) by (nonlinear_arith)
        requires
            m * a >= top,
    ;
}

/// A number that needs no rounding stands for itself.
proof fn lemma_round_exact(m: int, e: int, g: nat, n: nat)
    requires
        e >= g,
        n == m * pow2((e - g) as nat),
        n < 2 * HIDDEN_BIT,
        g <= 2045,
        g == 0 || n >= HIDDEN_BIT,
    ensures
        brackets((g * HIDDEN_BIT + n) as nat, m, e, false),
        units_of((g * HIDDEN_BIT + n) as nat) == m * grow(e),
{
    let k = (g * HIDDEN_BIT + n) as nat;
    let a = grow(e);
    let q = pow2(g) as int;
    let c = pow2((e - g) as nat) as int;
    lemma_units_of_quantum(g, n);
    lemma_pow2_adds((e - g) as nat, g);
    lemma2_to64();
    assert(a == c * q);
    assert(m * a == n * q) by (nonlinear_arith)
        requires
            n == m * c,
            a == c * q,
    ;
    assert(2 * m * a == 2 * units_of(k)) by (nonlinear_arith)
        requires
            m * a == units_of(k),
    ;
    lemma_units_increase(k, k + 1);
    if k > 0 {
        lemma_units_increase((k - 1) as nat, k);
    }
}

/// Whether the number `(2 * n0 + halfbit) * h + r1`, cut down to `n0`, is
/// rounded up: where what is cut off is more than half of the last place
/// kept, or is half of it and `n0` is odd.
pub open spec fn rounds_up(n0: int, halfbit: int, r1: int, sticky: bool) -> bool {
    halfbit == 1 && (r1 != 0 || sticky || n0 % 2 == 1)
}

/// What is known of a number `m = (2 * n0 + halfbit) * h + r1` that is cut
/// down to `n0`: what the pattern `g * 2^52 + n0` and its upper neighbour
/// stand for, and how far `m * 2^e` lies from their middle.
proof fn lemma_cut_facts(
    m: int,
    e: int,
    g: nat,
    s: nat,
    n0: nat,
    halfbit: int,
    r1: int,
    h: int,
)
    requires
        1 <= s <= 128,
        g == s + e,
        g <= 2045,
        h == pow2((s - 1) as nat),
        m == (2 * n0 + halfbit) * h + r1,
        0 <= r1 < h,
        halfbit == 0 || halfbit == 1,
        n0 < 2 * HIDDEN_BIT,
        g == 0 || n0 >= HIDDEN_BIT,
    ensures
        grow(e) >= 1,
        shrink(e) >= 1,
        h >= 1,
        units_of((g * HIDDEN_BIT + n0) as nat) == n0 * pow2(g),
        units_of((g * HIDDEN_BIT + n0 + 1) as nat) == (n0 + 1) * pow2(g),
        (g * HIDDEN_BIT + n0) % 2 == n0 % 2,
        2 * (n0 * pow2(g)) * shrink(e) <= 2 * m * grow(e),
        2 * (m + 1) * grow(e) <= 2 * ((n0 + 1) * pow2(g)) * shrink(e),
        (n0 * pow2(g) + (n0 + 1) * pow2(g)) * shrink(e) - 2 * m * grow(e) == (2 * h - 2 * (halfbit
            * h + r1)) * grow(e),
        (n0 * pow2(g) + (n0 + 1) * pow2(g)) * shrink(e) - 2 * (m + 1) * grow(e) == (2 * h - 2 * (
        halfbit * h + r1) - 2) * grow(e),
{
    let a = grow(e);
    let b = shrink(e);
    let q = pow2(g) as int;
    let w = halfbit * h + r1;
    lemma_pow2_unfold(s);
    lemma_pow2_pos((s - 1) as nat);
    lemma_pow2_pos(g);
    lemma2_to64();
    if e >= 0 {
        lemma_pow2_adds(s, e as nat);
        lemma_pow2_pos(e as nat);
        assert(q * b == (2 * h) * a) by (nonlinear_arith)
            requires
                q == (2 * h) * a,
                b == 1,
        ;
    } else {
        lemma_pow2_adds(g, (-e) as nat);
        lemma_pow2_pos((-e) as nat);
        assert(q * b == (2 * h) * a) by (nonlinear_arith)
            requires
                q * b == 2 * h,
                a == 1,
        ;
    }
    assert(m == n0 * (2 * h) + w && 0 <= w < 2 * h) by (nonlinear_arith)
        requires
            m == (2 * n0 + halfbit) * h + r1,
            w == halfbit * h + r1,
            0 <= r1 < h,
            halfbit == 0 || halfbit == 1,
    ;
    lemma_round_step(n0 as int, w, h, m, a, b, q);
    lemma_units_of_quantum(g, n0);
    lemma_units_of_quantum(g, n0 + 1);
    assert(g * HIDDEN_BIT == 2 * (g * 0x8_0000_0000_0000)) by (nonlinear_arith);
}

/// A number that is cut down to 53 bits, or to the steps of the subnormal
/// range, and rounded up or down, is rounded to the nearest double.
proof fn lemma_round_cut(
    m: int,
    e: int,
    g: nat,
    s: nat,
    n0: nat,
    halfbit: int,
    r1: int,
    h: int,
    sticky: bool,
)
    requires
        1 <= s <= 128,
        g == s + e,
        g <= 2045,
        h == pow2((s - 1) as nat),
        m == (2 * n0 + halfbit) * h + r1,
        0 <= r1 < h,
        halfbit == 0 || halfbit == 1,
        n0 < 2 * HIDDEN_BIT,
        g == 0 || n0 >= HIDDEN_BIT,
    ensures
        brackets(
            (g * HIDDEN_BIT + n0 + if rounds_up(n0 as int, halfbit, r1, sticky) {
                1int
            } else {
                0int
            }) as nat,
            m,
            e,
            sticky,
        ),
{
    let a = grow(e);
    let b = shrink(e);
    let w = halfbit * h + r1;
    let k0 = (g * HIDDEN_BIT + n0) as nat;
    let u0 = units_of(k0);
    let u1 = units_of(k0 + 1);
    lemma_cut_facts(m, e, g, s, n0, halfbit, r1, h);
    assert(halfbit == 0 ==> w == r1);
    assert(halfbit == 1 ==> w == h + r1) by (nonlinear_arith)
        requires
            w == halfbit * h + r1,
    ;
    assert((2 * h - 2 * w) * a > 0 <==> h > w) by (nonlinear_arith)
        requires
            a >= 1,
    ;
    assert((2 * h - 2 * w) * a == 0 <==> h == w) by (nonlinear_arith)
        requires
            a >= 1,
    ;
    assert((2 * h - 2 * w - 2) * a >= 0 <==> h >= w + 1) by (nonlinear_arith)
        requires
            a >= 1,
    ;
    if rounds_up(n0 as int, halfbit, r1, sticky) {
        lemma_units_increase(k0 + 1, k0 + 2);
        let above = u1 + units_of(k0 + 2);
        assert(2 * u1 * b < above * b) by (nonlinear_arith)
            requires
                2 * u1 < above,
                b >= 1,
        ;
        assert(2 * m * a < 2 * (m + 1) * a) by (nonlinear_arith)
            requires
                a >= 1,
        ;
    } else if k0 > 0 {
        lemma_units_increase((k0 - 1) as nat, k0);
        let below = units_of((k0 - 1) as nat) + u0;
        assert(below * b < 2 * u0 * b) by (nonlinear_arith)
            requires
                below < 2 * u0,
                b >= 1,
        ;
    }
}

/// The quantum of the result: `2^g` steps, where `g` is the distance of the
/// highest bit of `m * 2^e` from the 53rd, and zero in the subnormal range.
pub open spec fn quantum_exponent(p: int, e: int) -> int {
    if p + e > 52 {
        p + e - 52
    } else {
        0
    }
}

/// Rounds where nothing has to be cut off.
fn round_exact(m: u128, p: u64, e: i64) -> (k: u64)
    requires
        m >= 1,
        p <= 127,
        pow2(p as nat) <= m < 2 * pow2(p as nat),
        -5000 <= e <= 5000,
        0 <= quantum_exponent(p as int, e as int) <= 2045,
        quantum_exponent(p as int, e as int) <= e,
    ensures
        brackets(k as nat, m as int, e as int, false),
        units_of(k as nat) == m * grow(e as int),
{
    let eu: i64 = p as i64 + e;
    let g: i64 = if eu > 52 {
        eu - 52
    } else {
        0
    };
    let c = power_of_two128((e - g) as u64);
    proof {
        lemma2_to64_rest();
        lemma2_to64();
        lemma_pow2_adds((p + 1) as nat, (e - g) as nat);
        lemma_pow2_unfold((p + 1) as nat);
        if p + 1 + e - g < 53 {
            lemma_pow2_strictly_increases((p + 1 + e - g) as nat, 53);
        }
        assert(m * c < pow2((p + 1) as nat) * c) by (nonlinear_arith)
            requires
                m < pow2((p + 1) as nat),
                c >= 1,
        ;
        if g > 0 {
            lemma_pow2_adds(p as nat, (e - g) as nat);
            assert(m * c >= pow2(p as nat) * c) by (nonlinear_arith)
                requires
                    m >= pow2(p as nat),
                    c >= 1,
            ;
        }
    }
    let n = (m * c) as u64;
    proof {
        lemma_round_exact(m as int, e as int, g as nat, n as nat);
    }
    g as u64 * HIDDEN_BIT + n
}

/// Rounds where the lowest `s` bits of `m` are cut off.
fn round_cut(m: u128, p: u64, e: i64, s: u64, sticky: bool) -> (k: u64)
    requires
        m >= 1,
        p <= 127,
        pow2(p as nat) <= m < 2 * pow2(p as nat),
        -5000 <= e <= 5000,
        0 <= quantum_exponent(p as int, e as int) <= 2045,
        1 <= s <= 128,
        s == quantum_exponent(p as int, e as int) - e,
    ensures
        brackets(k as nat, m as int, e as int, sticky),
{
    let g: u64 = (s as i64 + e) as u64;
    proof {
        lemma_pow2_pos((s - 1) as nat);
    }
    let h = power_of_two128(s - 1);
    let t = m / h;
    let r1 = m % h;
    let n0 = t / 2;
    let halfbit = t % 2;
    proof {
        lemma2_to64_rest();
        lemma2_to64();
        lemma_fundamental_div_mod(m as int, h as int);
        lemma_pow2_unfold(s as nat);
        lemma_pow2_adds(53, s as nat);
        lemma_pow2_unfold((p + 1) as nat);
        if p + 1 < 53 + s {
            lemma_pow2_strictly_increases((p + 1) as nat, (53 + s) as nat);
        }
        assert(m == (2 * n0 + halfbit) * h + r1) by (nonlinear_arith)
            requires
                m == h * t + r1,
                t == 2 * n0 + halfbit,
        ;
        assert(n0 < 2 * HIDDEN_BIT) by (nonlinear_arith)
            requires
                m == (2 * n0 + halfbit) * h + r1,
                m < (2 * HIDDEN_BIT) * (2 * h),
                h >= 1,
                halfbit >= 0,
                r1 >= 0,
        ;
        if g > 0 {
            lemma_pow2_adds(52, s as nat);
            assert(n0 >= HIDDEN_BIT) by (nonlinear_arith)
                requires
                    m == (2 * n0 + halfbit) * h + r1,
                    m >= HIDDEN_BIT * (2 * h),
                    h >= 1,
                    halfbit <= 1,
                    r1 < h,
            ;
        }
        lemma_round_cut(
            m as int,
            e as int,
            g as nat,
            s as nat,
            n0 as nat,
            halfbit as int,
            r1 as int,
            h as int,
            sticky,
        );
    }
    let k0 = g * HIDDEN_BIT + n0 as u64;
    if halfbit == 1 && (r1 != 0 || sticky || n0 % 2 == 1) {
        k0 + 1
    } else {
        k0
    }
}

/// The pattern of the double nearest to `m * 2^e` steps of 2^-1074, and with
/// `sticky` to every number from there up to, but not including,
/// `(m + 1) * 2^e` steps. Where two doubles are equally near, it is the even
/// pattern; from 2^1024 on it is infinity. A whole number of steps that has
/// at most 53 bits before it is scaled up is a double, and is kept as it is.
pub fn round_units(m: u128, e: i64, sticky: bool) -> (k: u64)
    requires
        -0x4000_0000_0000_0000 <= e <= 0x4000_0000_0000_0000,
        sticky ==> m >= 2 * HIDDEN_BIT,
    ensures
        brackets(k as nat, m as int, e as int, sticky),
        m < 2 * HIDDEN_BIT && 0 <= e <= 2045 ==> units_of(k as nat) == m * grow(e as int),
{
    if m == 0 {
        proof {
            lemma_round_tiny(0, e as int, false);
            assert(0 * grow(e as int) == 0) by (nonlinear_arith);
        }
        return 0;
    }
    let (p, top) = highest_bit128(m);
    let eu: i64 = p as i64 + e;
    let g: i64 = if eu > 52 {
        eu - 52
    } else {
        0
    };
    proof {
        if m < 2 * HIDDEN_BIT && p > 52 {
            // `m` has at most 53 bits.
            lemma2_to64_rest();
            if p > 53 {
                lemma_pow2_strictly_increases(53, p as nat);
            }
        }
    }
    if g >= 2046 {
        proof {
            lemma_round_overflow(m as int, e as int, p as nat, sticky);
        }
        return INFINITY_BITS;
    }
    let s: i64 = g - e;
    if s <= 0 {
        proof {
            if sticky {
                // `m` has at least 54 bits, so that some of them are cut off.
                lemma2_to64_rest();
                lemma_pow2_unfold((p + 1) as nat);
                if p + 1 < 53 {
                    lemma_pow2_strictly_increases((p + 1) as nat, 53);
                }
                assert(p >= 53);
            }
        }
        round_exact(m, p, e)
    } else if s > 128 {
        proof {
            lemma_pow2_to128();
            lemma_round_tiny(m as int, e as int, sticky);
        }
        0
    } else {
        round_cut(m, p, e, s as u64, sticky)
    }
}

/// A pattern that is nearest to every number of a bracket is nearest to the
/// number `num / den` that lies in it.
pub proof fn lemma_brackets_ratio(k: nat, m: int, e: int, sticky: bool, num: int, den: int)
    requires
        den > 0,
        brackets(k, m, e, sticky),
        m * grow(e) * den <= num * shrink(e),
        num * shrink(e) < (m + 1) * grow(e) * den,
        sticky <==> m * grow(e) * den < num * shrink(e),
    ensures
        is_nearest_ratio(k, num, den),
{
    let a = grow(e);
    let b = shrink(e);
    let below = units_of((k - 1) as nat) + units_of(k);
    let above = units_of(k) + units_of(k + 1);
    if e < 0 {
        lemma_pow2_pos((-e) as nat);
    }
    assert(b >= 1);
    let lo = m * a * den;
    let hi = (m + 1) * a * den;
    let t = num * b;
    assert((2 * m * a) * den == 2 * lo) by (nonlinear_arith)
        requires
            lo == m * a * den,
    ;
    assert((2 * (m + 1) * a) * den == 2 * hi) by (nonlinear_arith)
        requires
            hi == (m + 1) * a * den,
    ;
    assert((2 * num) * b == 2 * t) by (nonlinear_arith)
        requires
            t == num * b,
    ;
    if k > 0 {
        let x = below * b;
        assert(x * den <= (2 * m * a) * den) by (nonlinear_arith)
            requires
                x <= 2 * m * a,
                den > 0,
        ;
        assert((below * den) * b == x * den) by (nonlinear_arith)
            requires
                x == below * b,
        ;
        assert(below * den <= 2 * num) by (nonlinear_arith)
            requires
                (below * den) * b <= (2 * num) * b,
                b >= 1,
        ;
        if below * den == 2 * num {
            assert(x * den == 2 * lo);
            assert(x == 2 * m * a) by (nonlinear_arith)
                requires
                    x * den == (2 * m * a) * den,
                    den > 0,
            ;
        }
    }
    if k < INFINITY_BITS {
        let y = above * b;
        assert((above * den) * b == y * den) by (nonlinear_arith)
            requires
                y == above * b,
        ;
        if sticky {
            assert((2 * (m + 1) * a) * den <= y * den) by (nonlinear_arith)
                requires
                    2 * (m + 1) * a <= y,
                    den > 0,
            ;
            assert(2 * num < above * den) by (nonlinear_arith)
                requires
                    (2 * num) * b < (above * den) * b,
                    b >= 1,
            ;
        } else {
            assert((2 * m * a) * den <= y * den) by (nonlinear_arith)
                requires
                    2 * m * a <= y,
                    den > 0,
            ;
            assert(2 * num <= above * den) by (nonlinear_arith)
                requires
                    (2 * num) * b <= (above * den) * b,
                    b >= 1,
            ;
            if 2 * num == above * den {
                assert(2 * m * a == y) by (nonlinear_arith)
                    requires
                        (2 * m * a) * den == y * den,
                        den > 0,
                ;
            }
        }
    }
}

/// Every number that is not below zero has a nearest pattern: the search
/// goes up from a pattern whose lower middle is not above the number.
proof fn lemma_search_nearest(k: nat, num: int, den: int)
    requires
        den > 0,
        k <= INFINITY_BITS,
        k > 0 ==> lower_middle_twice(k) * den <= 2 * num,
        k > 0 && lower_middle_twice(k) * den == 2 * num ==> k % 2 == 0,
    ensures
        exists|n: nat| is_nearest_ratio(n, num, den),
    decreases INFINITY_BITS - k,
{
    let above = units_of(k) + units_of(k + 1);
    if k == INFINITY_BITS || 2 * num < above * den || (2 * num == above * den && k % 2 == 0) {
        assert(is_nearest_ratio(k, num, den));
    } else if 2 * num == above * den {
        if k + 1 < INFINITY_BITS {
            lemma_units_increase(k, k + 1);
            lemma_units_increase(k + 1, k + 2);
            let next = units_of(k + 1) + units_of(k + 2);
            assert(above * den < next * den) by (nonlinear_arith)
                requires
                    above < next,
                    den > 0,
            ;
        }
        assert(is_nearest_ratio(k + 1, num, den));
    } else {
        lemma_search_nearest(k + 1, num, den);
    }
}

/// Rounding is defined for every number that is not below zero: the rounded
/// double is nearest to it, has the sign that was asked for, and is no NaN.
pub proof fn lemma_rounded_exists(negative: bool, num: int, den: int)
    requires
        den > 0,
    ensures
        is_nearest_ratio(nearest_pattern(num, den), num, den),
        rounded(negative, num, den).magnitude() == nearest_pattern(num, den),
        rounded(negative, num, den).sign() == negative,
        !rounded(negative, num, den).is_nan_spec(),
{
    lemma_search_nearest(0, num, den);
}

/// The double of the given sign with the pattern `k` is the rounded one,
/// where `k` is nearest to `num / den`.
pub proof fn lemma_rounded_is(negative: bool, k: nat, num: int, den: int)
    requires
        den > 0,
        is_nearest_ratio(k, num, den),
    ensures
        rounded(negative, num, den).magnitude() == k,
        rounded(negative, num, den).sign() == negative,
        rounded(negative, num, den).bits == k + if negative {
            SIGN_BIT as int
        } else {
            0
        },
{
    lemma_nearest_ratio_is_unique(k, nearest_pattern(num, den), num, den);
}

/// Whether the pattern `k`, with a clear sign bit, stands for the double
/// nearest to the square root of `x`, a number that is not below zero,
/// counted in steps of 2^-1074. It is [`is_nearest_ratio`] with both sides
/// squared.
pub open spec fn is_nearest_root(k: nat, x: int) -> bool {
    let below = lower_middle_twice(k);
    let above = upper_middle_twice(k);
    &&& k <= INFINITY_BITS
    &&& k > 0 ==> below * below <= 4 * x
    &&& k > 0 && below * below == 4 * x ==> k % 2 == 0
    &&& k < INFINITY_BITS ==> 4 * x <= above * above
    &&& k < INFINITY_BITS && 4 * x == above * above ==> k % 2 == 0
}

/// No two patterns are nearest to one square root.
pub proof fn lemma_nearest_root_is_unique(k1: nat, k2: nat, x: int)
    requires
        is_nearest_root(k1, x),
        is_nearest_root(k2, x),
    ensures
        k1 == k2,
{
    if k1 + 1 < k2 {
        lemma_squared_middles_increase(k1, k2);
    }
    if k2 + 1 < k1 {
        lemma_squared_middles_increase(k2, k1);
    }
}

proof fn lemma_squared_middles_increase(lo: nat, hi: nat)
    requires
        lo + 1 < hi,
    ensures
        upper_middle_twice(lo) * upper_middle_twice(lo) < lower_middle_twice(hi)
            * lower_middle_twice(hi),
{
    let above = units_of(lo) + units_of(lo + 1);
    let below = units_of((hi - 1) as nat) + units_of(hi);
    lemma_units_order(0, lo);
    lemma_units_increase(lo, lo + 1);
    lemma_units_increase(lo, (hi - 1) as nat);
    lemma_units_increase(lo + 1, hi);
    assert(above * above < below * below) by (nonlinear_arith)
        requires
            0 <= above < below,
    ;
}

/// The pattern nearest to the square root of `x`.
pub open spec fn nearest_root_pattern(x: int) -> nat {
    choose|k: nat| is_nearest_root(k, x)
}

/// The double nearest to the square root of `x`.
pub open spec fn rounded_root(x: int) -> Scalar {
    Scalar { bits: nearest_root_pattern(x) as u64 }
}

/// Every square root has a nearest pattern: the search goes up from a
/// pattern whose lower middle is not above the root.
proof fn lemma_search_nearest_root(k: nat, x: int)
    requires
        k <= INFINITY_BITS,
        k > 0 ==> lower_middle_twice(k) * lower_middle_twice(k) <= 4 * x,
        k > 0 && lower_middle_twice(k) * lower_middle_twice(k) == 4 * x ==> k % 2 == 0,
    ensures
        exists|n: nat| is_nearest_root(n, x),
    decreases INFINITY_BITS - k,
{
    let above = units_of(k) + units_of(k + 1);
    if k == INFINITY_BITS || 4 * x < above * above || (4 * x == above * above && k % 2 == 0) {
        assert(is_nearest_root(k, x));
    } else if 4 * x == above * above {
        if k + 1 < INFINITY_BITS {
            lemma_units_order(0, k);
            lemma_units_increase(k, k + 1);
            lemma_units_increase(k + 1, k + 2);
            let next = units_of(k + 1) + units_of(k + 2);
            assert(above * above < next * next) by (nonlinear_arith)
                requires
                    0 <= above < next,
            ;
        }
        assert(is_nearest_root(k + 1, x));
    } else {
        lemma_search_nearest_root(k + 1, x);
    }
}

/// The rounded root is defined for every number: it is nearest to the root,
/// has a clear sign bit, and is no NaN.
pub proof fn lemma_rounded_root_exists(x: int)
    ensures
        is_nearest_root(nearest_root_pattern(x), x),
        rounded_root(x).magnitude() == nearest_root_pattern(x),
        !rounded_root(x).sign(),
        !rounded_root(x).is_nan_spec(),
{
    lemma_search_nearest_root(0, x);
}

/// The double with the pattern `k` is the rounded root, where `k` is nearest
/// to the square root of `x`.
pub proof fn lemma_rounded_root_is(k: nat, x: int)
    requires
        is_nearest_root(k, x),
    ensures
        rounded_root(x).bits == k,
{
    lemma_nearest_root_is_unique(k, nearest_root_pattern(x), x);
}

/// A pattern that is nearest to every number of a bracket is nearest to the
/// square root of `x` that lies in it.
pub proof fn lemma_brackets_root(k: nat, m: int, e: int, sticky: bool, x: int)
    requires
        e >= 0,
        m >= 0,
        brackets(k, m, e, sticky),
        (m * grow(e)) * (m * grow(e)) <= x,
        x < ((m + 1) * grow(e)) * ((m + 1) * grow(e)),
        sticky <==> (m * grow(e)) * (m * grow(e)) < x,
    ensures
        is_nearest_root(k, x),
{
    let a = grow(e);
    let below = units_of((k - 1) as nat) + units_of(k);
    let above = units_of(k) + units_of(k + 1);
    let lo = m * a;
    let hi = (m + 1) * a;
    if e > 0 {
        lemma_pow2_pos(e as nat);
    }
    assert(lo >= 0 && hi >= 0) by (nonlinear_arith)
        requires
            lo == m * a,
            hi == (m + 1) * a,
            m >= 0,
            a >= 1,
    ;
    assert(2 * m * a == 2 * lo && 2 * (m + 1) * a == 2 * hi) by (nonlinear_arith)
        requires
            lo == m * a,
            hi == (m + 1) * a,
    ;
    lemma_units_order(0, k);
    lemma_units_order(0, k + 1);
    if k > 0 {
        lemma_units_order(0, (k - 1) as nat);
        assert(below * 1 == below) by (nonlinear_arith);
        assert(below * below <= 4 * (lo * lo)) by (nonlinear_arith)
            requires
                0 <= below <= 2 * lo,
        ;
        if below * below == 4 * x {
            assert(below == 2 * lo) by (nonlinear_arith)
                requires
                    0 <= below <= 2 * lo,
                    below * below >= 4 * (lo * lo),
            ;
        }
    }
    if k < INFINITY_BITS {
        assert(above * 1 == above) by (nonlinear_arith);
        if sticky {
            assert(4 * (hi * hi) <= above * above) by (nonlinear_arith)
                requires
                    0 <= 2 * hi <= above,
            ;
        } else {
            assert(4 * (lo * lo) <= above * above) by (nonlinear_arith)
                requires
                    0 <= 2 * lo <= above,
            ;
            if 4 * x == above * above {
                assert(above == 2 * lo) by (nonlinear_arith)
                    requires
                        0 <= 2 * lo <= above,
                        above * above <= 4 * (lo * lo),
                ;
            }
        }
    }
}

/// The whole part of the square root of `x`.
pub fn integer_root(x: u128) -> (r: u64)
    ensures
        r * r <= x < (r + 1) * (r + 1),
{
    let mut r: u64 = 0;
    let mut bit: u64 = 64;
    proof {
        lemma_pow2_to128();
    }
    while bit > 0
        invariant
            bit <= 64,
            r * r <= x,
            x < (r + pow2(bit as nat)) * (r + pow2(bit as nat)),
            r + pow2(bit as nat) <= 0x1_0000_0000_0000_0000,
        decreases bit,
    {
        bit -= 1;
        let step = power_of_two128(bit);
        proof {
            lemma_pow2_unfold((bit + 1) as nat);
            lemma_pow2_pos(bit as nat);
        }
        let candidate: u128 = r as u128 + step;
        assert(candidate * candidate <= 0xffff_ffff_ffff_ffff * 0xffff_ffff_ffff_ffff)
            by (nonlinear_arith)
            requires
                0 <= candidate <= 0xffff_ffff_ffff_ffff,
        ;
        if candidate * candidate <= x {
            r = candidate as u64;
        }
    }
    proof {
        lemma2_to64();
    }
    r
}

} // verus!
