//! How a path goes on: what the integrator does with a ray once the scene
//! has answered, and the bound on how deep a path may go.

use vstd::arithmetic::power2::{lemma2_to64, lemma_pow2_unfold};
use vstd::prelude::*;
use crate::scalar::{lemma_nearest_by_mantissa, Scalar};

verus! {

/// The depth at which a path is cut off.
pub const MAX_DEPTH: i32 = 50;

/// The pattern of the lower bound of every search, one thousandth. It keeps
/// a scattered ray from hitting the surface it leaves.
pub const T_MIN_BITS: u32 = 0x3a83_126f;

/// What the integrator does with a ray after the search.
#[derive(Clone, Copy, Debug, PartialEq, Eq, Structural)]
pub enum Step {
    /// The ray left the scene: its radiance is the background's.
    Background,
    /// The path ends here, at a surface, with no light.
    Black,
    /// The material is asked to scatter the ray. The scattered ray is traced
    /// at `next_depth`, and its radiance attenuated.
    Scatter { next_depth: i32 },
}

/// The step for a ray at `depth`, where `hit` says whether the search found
/// a surface.
pub open spec fn step_spec(depth: i32, hit: bool) -> Step {
    if !hit {
        Step::Background
    } else if depth < MAX_DEPTH {
        Step::Scatter { next_depth: (depth + 1) as i32 }
    } else {
        Step::Black
    }
}

/// How many more times a path at `depth` can scatter.
pub open spec fn budget(depth: i32) -> nat {
    if depth < MAX_DEPTH {
        (MAX_DEPTH - depth) as nat
    } else {
        0
    }
}

/// Whether the step at `depths[i]` scatters to `depths[i + 1]`.
pub open spec fn scatters_to_next(depths: Seq<i32>, i: int) -> bool {
    step_spec(depths[i], true) == (Step::Scatter { next_depth: depths[i + 1] })
}

/// A run of depths, each the depth that the step at the one before it
/// scatters to: the depths of one path, as long as it goes on.
pub open spec fn is_path(depths: Seq<i32>) -> bool {
    forall|i: int| 0 <= i < depths.len() - 1 ==> #[trigger] scatters_to_next(depths, i)
}

/// The lower bound of every search: the scalar nearest to one thousandth.
pub fn t_min() -> (t: Scalar)
    ensures
        t.bits == T_MIN_BITS,
        t.is_nearest_to(1, 1000),
        t.above_zero(),
{
    let t: Scalar = Scalar::from_bits(T_MIN_BITS);
    proof {
        lemma2_to64();
        lemma_pow2_unfold(33);
        lemma_nearest_by_mantissa(t, 117, 8589935, 1, 1000);
    }
    t
}

/// The upper bound of the search for a fresh ray: positive infinity.
pub fn t_max() -> (t: Scalar)
    ensures
        t == Scalar::infinity_spec(),
{
    Scalar::infinity()
}

/// Decides what becomes of a ray at `depth`. A ray that hit nothing gets the
/// background, at any depth. One that hit a surface is scattered while the
/// depth is below the bound, and each scattering uses up one of the budget.
pub fn step(depth: i32, hit: bool) -> (s: Step)
    ensures
        s == step_spec(depth, hit),
        !hit ==> s == Step::Background,
        s matches Step::Scatter { next_depth } ==> next_depth == depth + 1 && budget(next_depth)
            + 1 == budget(depth),
{
    if hit {
        if depth < MAX_DEPTH {
            return Step::Scatter { next_depth: depth + 1 };
        }
        return Step::Black;
    }
    Step::Background
}

/// What becomes of a scattered path when the material has answered: it goes
/// on where the material gave a ray, and ends black where it absorbed.
pub fn after_scatter(next_depth: i32, scattered: bool) -> (r: Option<i32>)
    ensures
        r == if scattered {
            Some(next_depth)
        } else {
            None
        },
{
    if scattered {
        Some(next_depth)
    } else {
        None
    }
}

/// No path scatters more often than its budget allows: a path that starts
/// at `depths[0]` has at most `budget(depths[0])` further depths, so one
/// that starts at depth 0 is traced at no more than `MAX_DEPTH + 1` depths,
/// however the scene is built.
pub proof fn lemma_path_is_bounded(depths: Seq<i32>)
    requires
        depths.len() > 0,
        is_path(depths),
    ensures
        depths.len() <= budget(depths[0]) + 1,
        forall|i: int| 0 <= i < depths.len() ==> #[trigger] depths[i] == depths[0] + i,
    decreases depths.len(),
{
    if depths.len() > 1 {
        let init = depths.drop_last();
        assert forall|i: int| 0 <= i < init.len() - 1 implies #[trigger] scatters_to_next(
            init,
            i,
        ) by {
            assert(scatters_to_next(depths, i));
        }
        lemma_path_is_bounded(init);
        let k = depths.len() - 2;
        assert(scatters_to_next(depths, k));
        assert(init[k] == depths[k]);
        assert(init[0] == depths[0]);
        assert forall|i: int| 0 <= i < depths.len() implies #[trigger] depths[i] == depths[0]
            + i by {
            if i <= k {
                assert(init[i] == depths[i]);
            }
        }
    }
}

} // verus!
