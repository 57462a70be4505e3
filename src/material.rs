use vstd::prelude::*;

use crate::scalar::{Scalar, ONE_BITS};

verus! {

/// Which way a ray leaves a glass surface.
#[derive(Clone, Copy, Debug, PartialEq, Eq, Structural)]
pub enum Bend {
    Reflect,
    Refract,
}

/// The choice a dielectric makes, given `eta_sin` (the ratio of refractive indices times the
/// sine of the angle of incidence), a uniform draw from `[0, 1)` and the Schlick reflectance.
/// From `eta_sin == 1` on there is total internal reflection and the ray is reflected;
/// below it the ray is reflected with probability equal to the reflectance.
pub open spec fn dielectric_choice(eta_sin: Scalar, draw: Scalar, reflectance: Scalar) -> Bend {
    if eta_sin.rank >= ONE_BITS {
        Bend::Reflect
    } else if draw.rank < reflectance.rank {
        Bend::Reflect
    } else {
        Bend::Refract
    }
}

/// Chooses between reflection and refraction at a dielectric surface.
pub fn choose_bend(eta_sin: Scalar, draw: Scalar, reflectance: Scalar) -> (r: Bend)
    ensures
        r == dielectric_choice(eta_sin, draw, reflectance),
{
    let one = Scalar::one();
    if eta_sin.rank >= one.rank {
        Bend::Reflect
    } else if draw.rank < reflectance.rank {
        Bend::Reflect
    } else {
        Bend::Refract
    }
}

/// Total internal reflection: when `eta_sin` is 1 or more (1 exactly included) the ray is
/// reflected whatever the draw and the reflectance, and never refracted.
pub proof fn lemma_total_internal_reflection(eta_sin: Scalar, draw: Scalar, reflectance: Scalar)
    requires
        eta_sin.rank >= ONE_BITS,
    ensures
        dielectric_choice(eta_sin, draw, reflectance) == Bend::Reflect,
{
}

/// The fuzz of a metal, clamped to `[0, 1]`: negative values are raised to 0 and values
/// above 1 lowered to 1.
pub fn metal_fuzz(fuzz: Scalar) -> (r: Scalar)
    ensures
        0 <= r.rank <= ONE_BITS,
        0 <= fuzz.rank <= ONE_BITS ==> r == fuzz,
        fuzz.rank < 0 ==> r.rank == 0,
        fuzz.rank > ONE_BITS ==> r.rank == ONE_BITS,
{
    let zero = Scalar::zero();
    let one = Scalar::one();
    if fuzz.rank < zero.rank {
        zero
    } else if fuzz.rank > one.rank {
        one
    } else {
        fuzz
    }
}

/// A metal scatters only when the scattered direction points away from the surface, that
/// is when its dot product with the normal is positive; otherwise the ray is absorbed.
pub fn metal_scatters(dot: Scalar) -> (r: bool)
    ensures
        r == (dot.rank > 0),
{
    dot.rank > Scalar::zero().rank
}

} // verus!
