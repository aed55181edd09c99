//! From a colour to the integers of an image file.

use crate::arith::{
    lemma_product_by_one, lemma_product_is_monotone, lemma_units_of_one, product,
};
use crate::convert::{lemma_truncated_is_monotone, to_u64, truncated};
use crate::scalar::{lemma_rank_orders, steps_per_unit, units_of, Scalar};
use crate::vec3::Vec3;
use vstd::arithmetic::div_mod::lemma_div_multiples_vanish_quotient;
use vstd::arithmetic::power2::{lemma2_to64_rest, lemma_pow2_adds, lemma_pow2_pos, pow2};
use vstd::prelude::*;

verus! {

/// The pattern of the double nearest to 255.999, by which a channel is
/// multiplied before it is cut off: a channel of one then gives 255.
pub const CHANNEL_SCALE_BITS: u64 = 0x406f_fff7_ced9_1687;

/// The integer of a channel: what is in front of the point of
/// `255.999 * value`, and zero where that is below zero or a NaN.
pub open spec fn channel_spec(value: Scalar) -> int {
    truncated(product(channel_scale(), value))
}

/// The scale as a number: 255.999.
pub open spec fn channel_scale() -> Scalar {
    Scalar { bits: CHANNEL_SCALE_BITS }
}

/// The integer of one channel.
pub fn channel(value: Scalar) -> (r: u64)
    ensures
        r == channel_spec(value),
{
    to_u64(Scalar::from_bits(CHANNEL_SCALE_BITS) * value)
}

/// The three integers of a colour, in the order red, green, blue.
pub fn quantize(pixel: &Vec3) -> (r: (u64, u64, u64))
    ensures
        r.0 == channel_spec(pixel.x),
        r.1 == channel_spec(pixel.y),
        r.2 == channel_spec(pixel.z),
{
    (channel(pixel.x()), channel(pixel.y()), channel(pixel.z()))
}

/// The scale is a little below 256: its whole part is 255.
pub proof fn lemma_scale_is_below_256()
    ensures
        truncated(channel_scale()) == 255,
        channel_scale().is_finite_spec(),
        !channel_scale().sign(),
{
    let n: int = 0x1f_fff7_ced9_1687;
    let low = pow2(1029) as int;
    let cut = pow2(45) as int;
    lemma_pow2_adds(1029, 45);
    lemma_pow2_pos(1029);
    lemma2_to64_rest();
    assert(units_of(CHANNEL_SCALE_BITS as nat) == n * low);
    assert(n * low == low * n && steps_per_unit() == low * cut) by (nonlinear_arith)
        requires
            steps_per_unit() == low * cut,
    ;
    lemma_div_multiples_vanish_quotient(low, n, cut);
}

/// A channel between zero and one becomes an integer between 0 and 255.
pub proof fn lemma_channel_fits_a_byte(value: Scalar)
    requires
        Scalar::zero_spec().le_spec(value),
        value.le_spec(Scalar::one_spec()),
    ensures
        0 <= channel_spec(value) <= 255,
{
    let scale = channel_scale();
    lemma_scale_is_below_256();
    lemma_units_of_one();
    lemma_rank_orders(value, Scalar::one_spec());
    lemma_rank_orders(Scalar::zero_spec(), value);
    lemma_product_is_monotone(scale, value, Scalar::one_spec());
    lemma_product_by_one(scale);
    lemma_truncated_is_monotone(product(scale, value), scale);
}

} // verus!
