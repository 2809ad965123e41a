//! Half-lines (origin + direction) and the exact ray/segment
//! intersection classifier, plus the small fixed-angle probe rotation
//! the visibility engine uses to peek just past occluding corners.

use vstd::prelude::*;
use crate::rat::{abs_int, rat_int, RatV};
use crate::segment::{line_hit, line_hit_v, sx, sy, IntersectionStatus, SegV, Segment, StatusV};
use crate::vector::{grid_point, PointV, Vector, COORD_LIMIT, DIR_LIMIT};

verus! {

/// Largest direction-component magnitude a ray may have if it is still
/// to be rotated by the probe angle.
pub const ROTATE_LIMIT: i128 = 330000;

/// Mathematical model of a ray: origin plus direction.
pub ghost struct RayV {
    pub origin: PointV,
    pub direction: PointV,
}

/// A rational that is an integer within the direction bound.
pub open spec fn dir_rat(r: RatV) -> bool {
    r.den == 1 && abs_int(r.num) <= DIR_LIMIT
}

/// An integer displacement within the direction bound.
pub open spec fn dir_point(p: PointV) -> bool {
    dir_rat(p.x) && dir_rat(p.y)
}

/// A model ray with a grid origin and a nonzero integer direction.
pub open spec fn ray_wf(r: RayV) -> bool {
    grid_point(r.origin) && dir_point(r.direction) && !(sx(r.direction) == 0 && sy(r.direction)
        == 0)
}

/// Classification of the ray against the segment: the carrier is the
/// half-line `origin + t*direction`, `t >= 0`.
pub open spec fn ray_intersect_v(r: RayV, s: SegV) -> StatusV
    recommends
        ray_wf(r),
{
    line_hit_v(sx(r.origin), sy(r.origin), sx(r.direction), sy(r.direction), s, false)
}

/// The direction turned counterclockwise by the fixed probe angle
/// `atan(1/100)` (and scaled by `sqrt(10001)/100`, which leaves the
/// half-line unchanged).
pub open spec fn rot_ccw(d: PointV) -> PointV {
    PointV { x: rat_int(100 * sx(d) - sy(d)), y: rat_int(sx(d) + 100 * sy(d)) }
}

/// The direction turned clockwise by the fixed probe angle.
pub open spec fn rot_cw(d: PointV) -> PointV {
    PointV { x: rat_int(100 * sx(d) + sy(d)), y: rat_int(-sx(d) + 100 * sy(d)) }
}

/// A half-line: an origin point and a direction (not necessarily
/// normalized), extending infinitely on the direction's side.
#[derive(Clone, Copy, Debug, PartialEq, Eq, Structural)]
pub struct Ray {
    origin: Vector,
    direction: Vector,
}

impl View for Ray {
    type V = RayV;

    closed spec fn view(&self) -> RayV {
        RayV { origin: self.origin@, direction: self.direction@ }
    }
}

impl Ray {
    /// Every ray has a grid origin and a nonzero, bounded integer
    /// direction.
    #[verifier::type_invariant]
    pub open spec fn inv(self) -> bool {
        ray_wf(self@)
    }

    /// The ray from `origin` toward `direction`. A zero direction is
    /// rejected as a precondition violation.
    pub fn new(origin: Vector, direction: Vector) -> (r: Ray)
        requires
            grid_point(origin@),
            dir_point(direction@),
            !(sx(direction@) == 0 && sy(direction@) == 0),
        ensures
            r@ == (RayV { origin: origin@, direction: direction@ }),
    {
        Ray { origin, direction }
    }

    /// The ray's origin point.
    pub fn origin(&self) -> (r: Vector)
        ensures
            r@ == self@.origin,
    {
        self.origin
    }

    /// The ray's direction displacement.
    pub fn direction(&self) -> (r: Vector)
        ensures
            r@ == self@.direction,
    {
        self.direction
    }

    /// Classify the intersection of this ray with a segment: as the
    /// segment/segment classifier, except that the ray's own parameter
    /// is only required to be nonnegative.
    pub fn calculate_intersection(&self, segment: &Segment) -> (r: IntersectionStatus)
        ensures
            r@ == ray_intersect_v(self@, segment@),
    {
        proof {
            use_type_invariant(&*self);
        }
        let ox: i128 = self.origin.x.num();
        let oy: i128 = self.origin.y.num();
        let dx: i128 = self.direction.x.num();
        let dy: i128 = self.direction.y.num();
        line_hit(ox, oy, dx, dy, segment, false)
    }

    /// The same ray turned by the fixed probe angle `atan(1/100)`
    /// (about 0.01 radian), clockwise or counterclockwise: the origin is
    /// kept and the direction is multiplied by the near-rotation matrix
    /// `[[100, -+1], [+-1, 100]]`, which scales its length but turns the
    /// half-line by exactly that angle.
    pub fn rotate(&self, clockwise: bool) -> (r: Ray)
        requires
            abs_int(sx(self@.direction)) <= ROTATE_LIMIT,
            abs_int(sy(self@.direction)) <= ROTATE_LIMIT,
        ensures
            r@.origin == self@.origin,
            r@.direction == if clockwise {
                rot_cw(self@.direction)
            } else {
                rot_ccw(self@.direction)
            },
    {
        proof {
            use_type_invariant(&*self);
        }
        let dx: i128 = self.direction.x.num();
        let dy: i128 = self.direction.y.num();
        let (nx, ny): (i128, i128) = if clockwise {
            (100 * dx + dy, -dx + 100 * dy)
        } else {
            (100 * dx - dy, dx + 100 * dy)
        };
        proof {
            assert(!(nx == 0 && ny == 0));
        }
        Ray { origin: self.origin, direction: Vector::new(nx, ny) }
    }
}

/// Classify the intersection of a free ray against a segment; the same
/// classification as `Ray::calculate_intersection`.
pub fn calculate_ray_segment_intersection(ray: Ray, segment: Segment) -> (r: IntersectionStatus)
    ensures
        r@ == ray_intersect_v(ray@, segment@),
{
    ray.calculate_intersection(&segment)
}

} // verus!
