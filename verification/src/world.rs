//! What the random scene decides for each small sphere: whether to place it,
//! and of which material.

use vstd::arithmetic::power2::lemma2_to64;
use vstd::prelude::*;
use crate::scalar::{lemma_nearest_by_mantissa, Scalar};

verus! {

/// The pattern of nine tenths: the distance from the landmark beyond which a
/// small sphere counts as clear of it.
pub const CLEARANCE_BITS: u32 = 0x3f66_6666;

/// The pattern of six tenths: below it, a draw picks the diffuse material.
pub const DIFFUSE_BITS: u32 = 0x3f19_999a;

/// The pattern of eight tenths: below it, a draw picks the reflective
/// material.
pub const REFLECTIVE_BITS: u32 = 0x3f4c_cccd;

/// The kinds of material.
#[derive(Clone, Copy, Debug, PartialEq, Eq, Structural)]
pub enum MaterialKind {
    Lambertian,
    Metal,
    Dielectric,
}

/// The material of a small sphere at `distance` from the landmark, chosen by
/// the draw `choose_mat`, or nothing where no sphere is placed.
///
/// Clear of the landmark, a sphere is placed only where the draw picks the
/// diffuse material. Near it, or at a distance that is no number, one is
/// always placed: reflective where the draw is below the second threshold,
/// refractive otherwise.
pub open spec fn pick_spec(distance: Scalar, choose_mat: Scalar) -> Option<MaterialKind> {
    if (Scalar { bits: CLEARANCE_BITS }).below(distance) {
        if choose_mat.below(Scalar { bits: DIFFUSE_BITS }) {
            Some(MaterialKind::Lambertian)
        } else {
            None
        }
    } else if choose_mat.below(Scalar { bits: REFLECTIVE_BITS }) {
        Some(MaterialKind::Metal)
    } else {
        Some(MaterialKind::Dielectric)
    }
}

/// The distance beyond which a small sphere is clear of the landmark: the
/// scalar nearest to nine tenths.
pub fn clearance() -> (s: Scalar)
    ensures
        s.bits == CLEARANCE_BITS,
        s.is_nearest_to(9, 10),
{
    let s: Scalar = Scalar::from_bits(CLEARANCE_BITS);
    proof {
        lemma2_to64();
        lemma_nearest_by_mantissa(s, 126, 15099494, 9, 10);
    }
    s
}

/// The share of draws that pick the diffuse material: the scalar nearest to
/// six tenths.
pub fn diffuse_share() -> (s: Scalar)
    ensures
        s.bits == DIFFUSE_BITS,
        s.is_nearest_to(6, 10),
{
    let s: Scalar = Scalar::from_bits(DIFFUSE_BITS);
    proof {
        lemma2_to64();
        lemma_nearest_by_mantissa(s, 126, 10066330, 6, 10);
    }
    s
}

/// The share of draws that pick the reflective material near the landmark:
/// the scalar nearest to eight tenths.
pub fn reflective_share() -> (s: Scalar)
    ensures
        s.bits == REFLECTIVE_BITS,
        s.is_nearest_to(8, 10),
{
    let s: Scalar = Scalar::from_bits(REFLECTIVE_BITS);
    proof {
        lemma2_to64();
        lemma_nearest_by_mantissa(s, 126, 13421773, 8, 10);
    }
    s
}

/// Decides on one small sphere of the random scene.
pub fn pick(distance: Scalar, choose_mat: Scalar) -> (kind: Option<MaterialKind>)
    ensures
        kind == pick_spec(distance, choose_mat),
{
    if distance.gt(clearance()) {
        if choose_mat.lt(diffuse_share()) {
            return Some(MaterialKind::Lambertian);
        }
        None
    } else if choose_mat.lt(reflective_share()) {
        Some(MaterialKind::Metal)
    } else {
        Some(MaterialKind::Dielectric)
    }
}

} // verus!
