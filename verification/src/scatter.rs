//! The decisions that materials and their random sampling rest on.

use vstd::prelude::*;
use crate::scalar::{Scalar, Vec3};

verus! {

/// Bit pattern of 1e-7: a diffuse direction whose components add up, in
/// absolute value, to less than this is taken for no direction at all.
pub const DEGENERATE_SPREAD_BITS: u32 = 0x33d6_bf95;

/// Bit pattern of 1.
pub const ONE_BITS: u32 = 0x3f80_0000;

/// Whether a point drawn from the cube `[-1, 1)^3` may be scaled to a unit
/// vector: it lies in the unit ball and is not the origin.
pub open spec fn usable_sample(length_squared: Scalar) -> bool {
    Scalar::zero().below(length_squared) && length_squared.at_most(Scalar { bits: ONE_BITS })
}

/// Whether a diffuse direction is too short to be used.
pub open spec fn degenerate(spread: Scalar) -> bool {
    spread.below(Scalar { bits: DEGENERATE_SPREAD_BITS })
}

/// Decides one round of the rejection sampling of a random unit vector, from
/// the squared length of the point drawn.
pub fn accepts_sample(length_squared: Scalar) -> (accepted: bool)
    ensures
        accepted == usable_sample(length_squared),
{
    Scalar::zero().lt(length_squared) && length_squared.le(Scalar::from_bits(ONE_BITS))
}

/// The direction in which a diffuse surface scatters: `direction`, the
/// normal plus a random unit vector, unless its `spread` (the sum of the
/// absolute values of its components) is below 1e-7; then the bare normal.
pub fn lambertian_direction(normal: Vec3, direction: Vec3, spread: Scalar) -> (scattered: Vec3)
    ensures
        degenerate(spread) ==> scattered == normal,
        !degenerate(spread) ==> scattered == direction,
{
    if spread.lt(Scalar::from_bits(DEGENERATE_SPREAD_BITS)) {
        normal
    } else {
        direction
    }
}

} // verus!
