//! A coarser three-way segment intersection test: one proper crossing
//! with its point, or collinear carriers (overlapping or not), or no
//! crossing at all.

use vstd::prelude::*;
use crate::segment::{seg_intersect_v, IntersectionStatus, Segment, StatusV};
use crate::vector::{PointV, Vector};

verus! {

/// Model of the three-way classification.
pub ghost enum IntersectV {
    Intersecting(PointV),
    Collinear,
    NotIntersecting,
}

/// Three-way intersection outcome: the two collinear cases of the full
/// classifier fold into one.
#[derive(Clone, Copy, Debug, PartialEq, Eq, Structural)]
pub enum Intersect {
    /// The segments cross in exactly one point, which is returned.
    Intersecting(Vector),
    /// Both segments lie on one infinite line.
    Collinear,
    /// No crossing within both extents.
    NotIntersecting,
}

impl View for Intersect {
    type V = IntersectV;

    open spec fn view(&self) -> IntersectV {
        match self {
            Intersect::Intersecting(v) => IntersectV::Intersecting(v@),
            Intersect::Collinear => IntersectV::Collinear,
            Intersect::NotIntersecting => IntersectV::NotIntersecting,
        }
    }
}

/// The full classification folded to three outcomes.
pub open spec fn coarse_v(st: StatusV) -> IntersectV {
    match st {
        StatusV::Intersecting(p) => IntersectV::Intersecting(p),
        StatusV::CollinearIntersecting => IntersectV::Collinear,
        StatusV::CollinearNotIntersecting => IntersectV::Collinear,
        StatusV::NotIntersecting => IntersectV::NotIntersecting,
    }
}

/// Classify the intersection of two segments, folding both collinear
/// outcomes of the full classifier into `Collinear`.
pub fn get_segment_intersection(s0: Segment, s1: Segment) -> (r: Intersect)
    ensures
        r@ == coarse_v(seg_intersect_v(s0@, s1@)),
{
    match s0.calculate_intersection(&s1) {
        IntersectionStatus::Intersecting(v) => Intersect::Intersecting(v),
        IntersectionStatus::CollinearIntersecting => Intersect::Collinear,
        IntersectionStatus::CollinearNotIntersecting => Intersect::Collinear,
        IntersectionStatus::NotIntersecting => Intersect::NotIntersecting,
    }
}

} // verus!
