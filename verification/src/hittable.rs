//! The scene as one ray meets it: a list of solved quadratics, searched for
//! the nearest hit.

use vstd::prelude::*;
use vstd::seq_lib::to_multiset_contains;
use crate::scalar::Scalar;
use crate::sphere::{within, Roots};

verus! {

/// A hit: the ray parameter, and the place in the list of the primitive hit.
/// The caller derives point, normal and material from the two.
#[derive(Clone, Copy, Debug, PartialEq, Eq, Structural)]
pub struct HitRecord {
    pub t: Scalar,
    pub index: usize,
}

/// The primitives of a scene, each by its quadratic against one ray.
pub struct HittableList {
    list: Vec<Roots>,
}

impl View for HittableList {
    type V = Seq<Roots>;

    closed spec fn view(&self) -> Seq<Roots> {
        self.list@
    }
}

/// The upper bound that a search carries on with after `found`.
pub open spec fn bound_after(found: Option<HitRecord>, t_max: Scalar) -> Scalar {
    match found {
        Some(h) => h.t,
        None => t_max,
    }
}

/// The record that a search of `list` from its first primitive to its last
/// ends with, where each primitive is tested below the hit found before it.
pub open spec fn nearest(list: Seq<Roots>, t_min: Scalar, t_max: Scalar) -> Option<HitRecord>
    decreases list.len(),
{
    if list.len() == 0 {
        None
    } else {
        let before = nearest(list.drop_last(), t_min, t_max);
        match list.last().hit_spec(t_min, bound_after(before, t_max)) {
            Some(t) => Some(HitRecord { t, index: (list.len() - 1) as usize }),
            None => before,
        }
    }
}

/// Every primitive of the list has its roots in order.
pub open spec fn all_ordered(list: Seq<Roots>) -> bool {
    forall|i: int| 0 <= i < list.len() ==> (#[trigger] list[i]).ordered()
}

impl HittableList {
    /// The scene with the given primitives.
    pub fn new(list: Vec<Roots>) -> (scene: HittableList)
        ensures
            scene@ == list@,
    {
        HittableList { list }
    }

    /// Searches the whole list for the nearest hit between the bounds. Where
    /// every primitive has its roots in order, the record found is that of the
    /// nearest hit, in whatever order the primitives stand.
    pub fn hit(&self, t_min: Scalar, t_max: Scalar) -> (r: Option<HitRecord>)
        ensures
            r == nearest(self@, t_min, t_max),
            all_ordered(self@) ==> is_nearest(self@, t_min, t_max, r),
    {
        let mut closest_record: Option<HitRecord> = None;
        let mut closest: Scalar = t_max;
        let mut i: usize = 0;
        while i < self.list.len()
            invariant
                i <= self.list.len(),
                closest_record == nearest(self.list@.take(i as int), t_min, t_max),
                closest == bound_after(closest_record, t_max),
            decreases self.list.len() - i,
        {
            proof {
                assert(self.list@.take(i + 1).drop_last() =~= self.list@.take(i as int));
            }
            if let Some(t) = self.list[i].hit(t_min, closest) {
                closest = t;
                closest_record = Some(HitRecord { t, index: i });
            }
            i += 1;
        }
        proof {
            assert(self.list@.take(i as int) =~= self.list@);
            if all_ordered(self@) {
                lemma_nearest_is_minimal(self@, t_min, t_max);
            }
        }
        closest_record
    }
}

/// What it means for `found` to be the nearest hit of `list`: its record
/// names a primitive that the ray hits between the bounds at that parameter,
/// no primitive is hit before it, and every primitive that stands earlier in
/// the list is hit strictly after it. Nothing is found only where the ray
/// hits no primitive.
pub open spec fn is_nearest(
    list: Seq<Roots>,
    t_min: Scalar,
    t_max: Scalar,
    found: Option<HitRecord>,
) -> bool {
    match found {
        Some(h) => {
            &&& h.index < list.len()
            &&& list[h.index as int].hit_spec(t_min, t_max) == Some(h.t)
            &&& forall|j: int|
                0 <= j < list.len() ==> match (#[trigger] list[j]).hit_spec(t_min, t_max) {
                    Some(t) => !t.below(h.t) && (j < h.index ==> h.t.below(t)),
                    None => true,
                }
        },
        None => forall|j: int|
            0 <= j < list.len() ==> (#[trigger] list[j]).hit_spec(t_min, t_max) is None,
    }
}

/// The search returns the nearest hit, whatever the list holds, as long as
/// each primitive's roots are in order.
pub proof fn lemma_nearest_is_minimal(list: Seq<Roots>, t_min: Scalar, t_max: Scalar)
    requires
        all_ordered(list),
        list.len() <= usize::MAX,
    ensures
        is_nearest(list, t_min, t_max, nearest(list, t_min, t_max)),
    decreases list.len(),
{
    if list.len() > 0 {
        let init = list.drop_last();
        let last = list.last();
        let n = list.len() - 1;
        assert forall|i: int| 0 <= i < init.len() implies (#[trigger] init[i]).ordered() by {
            assert(init[i] == list[i]);
        }
        lemma_nearest_is_minimal(init, t_min, t_max);
        let before = nearest(init, t_min, t_max);
        let found = nearest(list, t_min, t_max);
        assert(last == list[n]);
        assert(last.ordered());
        match before {
            Some(h) => {
                assert(init[h.index as int] == list[h.index as int]);
                assert(within(h.t, t_min, t_max));
                last.lemma_lower_bound_filters(t_min, t_max, h.t);
                match last.hit_spec(t_min, h.t) {
                    Some(t) => {
                        assert(found == Some(HitRecord { t, index: n as usize }));
                        assert(last.hit_spec(t_min, t_max) == Some(t));
                        assert(t.below(h.t));
                        assert forall|j: int| 0 <= j < list.len() implies match (
                        #[trigger] list[j]).hit_spec(t_min, t_max) {
                            Some(u) => !u.below(t) && (j < n ==> t.below(u)),
                            None => true,
                        } by {
                            if j < n {
                                assert(init[j] == list[j]);
                                match list[j].hit_spec(t_min, t_max) {
                                    Some(u) => {
                                        assert(within(u, t_min, t_max));
                                        assert(!u.below(h.t));
                                    },
                                    None => {},
                                }
                            }
                        }
                    },
                    None => {
                        assert(found == before);
                        assert forall|j: int| 0 <= j < list.len() implies match (
                        #[trigger] list[j]).hit_spec(t_min, t_max) {
                            Some(u) => !u.below(h.t) && (j < h.index ==> h.t.below(u)),
                            None => true,
                        } by {
                            if j < n {
                                assert(init[j] == list[j]);
                            }
                        }
                    },
                }
            },
            None => {
                assert forall|j: int| 0 <= j < n implies (#[trigger] list[j]).hit_spec(
                    t_min,
                    t_max,
                ) is None by {
                    assert(init[j] == list[j]);
                }
                match last.hit_spec(t_min, t_max) {
                    Some(t) => {
                        assert(found == Some(HitRecord { t, index: n as usize }));
                    },
                    None => {
                        assert(found.is_none());
                    },
                }
            },
        }
    }
}

/// The order of the list does not matter to the distance of the hit: two
/// lists of the same primitives, in whatever order, are hit at the same rank
/// or not at all.
pub proof fn lemma_order_is_irrelevant(a: Seq<Roots>, b: Seq<Roots>, t_min: Scalar, t_max: Scalar)
    requires
        all_ordered(a),
        a.len() <= usize::MAX,
        a.to_multiset() == b.to_multiset(),
    ensures
        match (nearest(a, t_min, t_max), nearest(b, t_min, t_max)) {
            (Some(x), Some(y)) => x.t@ == y.t@ && a[x.index as int].hit_spec(t_min, t_max) == Some(
                x.t,
            ) && b[y.index as int].hit_spec(t_min, t_max) == Some(y.t),
            (None, None) => true,
            _ => false,
        },
{
    a.to_multiset_ensures();
    b.to_multiset_ensures();
    assert forall|i: int| 0 <= i < b.len() implies (#[trigger] b[i]).ordered() by {
        assert(b.contains(b[i]));
        to_multiset_contains(b, b[i]);
        to_multiset_contains(a, b[i]);
    }
    lemma_nearest_is_minimal(a, t_min, t_max);
    lemma_nearest_is_minimal(b, t_min, t_max);
    match nearest(a, t_min, t_max) {
        Some(x) => {
            let r = a[x.index as int];
            assert(a.contains(r));
            to_multiset_contains(a, r);
            to_multiset_contains(b, r);
        },
        None => {},
    }
    match nearest(b, t_min, t_max) {
        Some(y) => {
            let r = b[y.index as int];
            assert(b.contains(r));
            to_multiset_contains(b, r);
            to_multiset_contains(a, r);
        },
        None => {},
    }
}

} // verus!
