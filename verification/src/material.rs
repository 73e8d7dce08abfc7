//! What the materials decide: how rough a mirror may be, from which side a
//! ray meets glass, and whether glass reflects or refracts it.

use vstd::prelude::*;
use crate::scalar::{Scalar, ONE_BITS};

verus! {

/// The roughness that a reflective material keeps of the one it is given:
/// the given one where it is below 1, else 1.
pub open spec fn clamped_fuzz(fuzz: Scalar) -> Scalar {
    if fuzz.below(Scalar { bits: ONE_BITS }) {
        fuzz
    } else {
        Scalar { bits: ONE_BITS }
    }
}

/// The roughness of a reflective material.
#[derive(Clone, Copy, Debug, PartialEq, Eq, Structural)]
pub struct Metal {
    pub fuzz: Scalar,
}

impl Metal {
    /// The roughness is a number and not above 1.
    pub open spec fn well_formed(self) -> bool {
        self.fuzz@ is Some && self.fuzz.rank() <= ONE_BITS
    }

    /// A reflective material of the given roughness, cut off at 1. A
    /// roughness that is no number becomes 1.
    pub fn new(fuzz: Scalar) -> (metal: Metal)
        ensures
            metal.fuzz == clamped_fuzz(fuzz),
            metal.well_formed(),
    {
        let one: Scalar = Scalar::one();
        let fuzz: Scalar = if fuzz.lt(one) {
            fuzz
        } else {
            one
        };
        Metal { fuzz }
    }
}

/// The side from which a ray meets a refractive surface.
#[derive(Clone, Copy, Debug, PartialEq, Eq, Structural)]
pub enum Face {
    /// The ray comes from outside: the outward normal is the surface normal,
    /// and the ratio of indices is the inverse of the material's.
    Entering,
    /// The ray leaves the material: the outward normal is the surface normal
    /// reversed, and the ratio of indices is the material's.
    Exiting,
}

/// The ray that leaves a refractive surface.
#[derive(Clone, Copy, Debug, PartialEq, Eq, Structural)]
pub enum Bend {
    Reflect,
    Refract,
}

/// The probability with which a refractive surface reflects: the given
/// reflectance where a refracted ray exists, which is where the discriminant
/// of the refraction is above zero, and 1 where the reflection is total.
pub open spec fn reflect_probability(discriminant: Scalar, reflectance: Scalar) -> Scalar {
    if discriminant.above_zero() {
        reflectance
    } else {
        Scalar { bits: ONE_BITS }
    }
}

/// Tells the side from the dot product of the ray's direction and the
/// surface normal: the ray leaves the material where the product is above
/// zero.
pub fn face(direction_dot_normal: Scalar) -> (face: Face)
    ensures
        face == if direction_dot_normal.above_zero() {
            Face::Exiting
        } else {
            Face::Entering
        },
{
    if direction_dot_normal.gt(Scalar::zero()) {
        Face::Exiting
    } else {
        Face::Entering
    }
}

/// Whether a refracted ray exists: the discriminant is above zero.
pub fn refracts(discriminant: Scalar) -> (r: bool)
    ensures
        r == discriminant.above_zero(),
{
    discriminant.gt(Scalar::zero())
}

/// Chooses between the reflected and the refracted ray by one uniform draw:
/// the ray is reflected where the draw is below the probability of
/// reflection. So a total reflection reflects every draw below 1.
pub fn bend(discriminant: Scalar, reflectance: Scalar, draw: Scalar) -> (bend: Bend)
    ensures
        bend == if draw.below(reflect_probability(discriminant, reflectance)) {
            Bend::Reflect
        } else {
            Bend::Refract
        },
        !discriminant.above_zero() && draw.below(Scalar { bits: ONE_BITS }) ==> bend
            == Bend::Reflect,
{
    let reflect_prob: Scalar = if refracts(discriminant) {
        reflectance
    } else {
        Scalar::one()
    };
    if draw.lt(reflect_prob) {
        Bend::Reflect
    } else {
        Bend::Refract
    }
}

} // verus!
