//! A sphere as one ray meets it: the quadratic's discriminant and its two
//! roots, and the choice among them.

use vstd::prelude::*;
use crate::scalar::Scalar;

verus! {

/// The quadratic of one ray against one sphere, solved by the caller.
///
/// `near` is the root with the square root subtracted, `far` the one with it
/// added. Both are read only where the discriminant is above zero.
#[derive(Clone, Copy, Debug, PartialEq, Eq, Structural)]
pub struct Roots {
    pub discriminant: Scalar,
    pub near: Scalar,
    pub far: Scalar,
}

/// Whether `t` lies strictly between the two bounds.
pub open spec fn within(t: Scalar, t_min: Scalar, t_max: Scalar) -> bool {
    t.below(t_max) && t_min.below(t)
}

impl Roots {
    /// The far root does not come before the near one. This is what the laws
    /// of the search ask of each primitive; `is_ordered` tests it.
    pub open spec fn ordered(self) -> bool {
        !self.far.below(self.near)
    }

    /// The parameter at which the ray hits within the bounds, if it does: the
    /// near root where it lies within them, else the far root where that one
    /// does, and nothing unless the discriminant is above zero.
    pub open spec fn hit_spec(self, t_min: Scalar, t_max: Scalar) -> Option<Scalar> {
        if !self.discriminant.above_zero() {
            None
        } else if within(self.near, t_min, t_max) {
            Some(self.near)
        } else if within(self.far, t_min, t_max) {
            Some(self.far)
        } else {
            None
        }
    }

    /// The roots of one quadratic.
    pub fn new(discriminant: Scalar, near: Scalar, far: Scalar) -> (roots: Roots)
        ensures
            roots == (Roots { discriminant, near, far }),
    {
        Roots { discriminant, near, far }
    }

    /// Whether the far root does not come before the near one.
    pub fn is_ordered(&self) -> (r: bool)
        ensures
            r == self.ordered(),
    {
        !self.far.lt(self.near)
    }

    /// Tests the ray against the sphere between the two bounds.
    pub fn hit(&self, t_min: Scalar, t_max: Scalar) -> (r: Option<Scalar>)
        ensures
            r == self.hit_spec(t_min, t_max),
    {
        if self.discriminant.gt(Scalar::zero()) {
            if self.near.lt(t_max) && self.near.gt(t_min) {
                return Some(self.near);
            }
            if self.far.lt(t_max) && self.far.gt(t_min) {
                return Some(self.far);
            }
        }
        None
    }

    /// Lowering the upper bound to `c` keeps a hit that lies below `c` and
    /// loses every other: it never brings the other root forward.
    pub proof fn lemma_lower_bound_filters(self, t_min: Scalar, t_max: Scalar, c: Scalar)
        requires
            self.ordered(),
            c.below(t_max),
        ensures
            self.hit_spec(t_min, c) == match self.hit_spec(t_min, t_max) {
                Some(t) => if t.below(c) {
                    Some(t)
                } else {
                    None
                },
                None => None,
            },
    {
    }
}

} // verus!
