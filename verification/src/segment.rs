//! Finite obstacle segments and the exact segment/segment intersection
//! classifier.
//!
//! The classifier follows the parametric form `P(t) = p + t*r`,
//! `Q(u) = q + u*s`: it distinguishes collinear overlap, collinear
//! disjoint, parallel disjoint, and a proper crossing, whose exact
//! rational crossing point it returns. All zero tests are exact, so the
//! classification is decided, never approximated.

use vstd::prelude::*;
use crate::rat::{abs_int, rat_int, spec_reduce, Rat, lemma_mul_bounds};
use crate::angle::{cross_d, DirV};
use crate::vector::{
    grid_point, point_eq, PointV, Vector, COORD_LIMIT, DIR_LIMIT,
};

verus! {

/// Mathematical model of a segment: its two endpoints.
pub ghost struct SegV {
    pub a: PointV,
    pub b: PointV,
}

/// Model of an intersection classification.
pub ghost enum StatusV {
    /// One exact crossing point, which is carried.
    Intersecting(PointV),
    /// Same infinite line, extents overlapping.
    CollinearIntersecting,
    /// Same infinite line, extents disjoint.
    CollinearNotIntersecting,
    /// No crossing within bounds (including parallel-but-offset lines).
    NotIntersecting,
}

/// How two segments (or a ray and a segment) relate geometrically.
#[derive(Clone, Copy, Debug, PartialEq, Eq, Structural)]
pub enum IntersectionStatus {
    /// The two cross in exactly one point, which is returned.
    Intersecting(Vector),
    /// Both lie on one infinite line and their extents share a point.
    CollinearIntersecting,
    /// Both lie on one infinite line, extents disjoint.
    CollinearNotIntersecting,
    /// Neither collinear nor crossing within bounds.
    NotIntersecting,
}

impl View for IntersectionStatus {
    type V = StatusV;

    open spec fn view(&self) -> StatusV {
        match self {
            IntersectionStatus::Intersecting(v) => StatusV::Intersecting(v@),
            IntersectionStatus::CollinearIntersecting => StatusV::CollinearIntersecting,
            IntersectionStatus::CollinearNotIntersecting => StatusV::CollinearNotIntersecting,
            IntersectionStatus::NotIntersecting => StatusV::NotIntersecting,
        }
    }
}

/// Integer x coordinate of a grid point.
pub open spec fn sx(p: PointV) -> int
    recommends
        grid_point(p),
{
    p.x.num
}

/// Integer y coordinate of a grid point.
pub open spec fn sy(p: PointV) -> int
    recommends
        grid_point(p),
{
    p.y.num
}

/// A model segment whose endpoints are distinct grid points.
pub open spec fn seg_wf(s: SegV) -> bool {
    grid_point(s.a) && grid_point(s.b) && !point_eq(s.a, s.b)
}

/// Classification of the line through `(px, py)` with direction
/// `(rx, ry)` against the segment `s`, in integer grid arithmetic.
///
/// With `bounded` the carrier is the segment from `t = 0` to `t = 1`
/// (segment/segment intersection); without it the carrier is the ray
/// `t >= 0`. Collinear overlap is judged on the unit interval of the
/// direction in both cases. The crossing point is `p + t*r`, carried as
/// the reduced fractions over the common denominator `r x s`.
pub open spec fn line_hit_v(px: int, py: int, rx: int, ry: int, s: SegV, bounded: bool) -> StatusV
    recommends
        seg_wf(s),
{
    let qx = sx(s.a);
    let qy = sy(s.a);
    let sx2 = sx(s.b) - qx;
    let sy2 = sy(s.b) - qy;
    let den = rx * sy2 - ry * sx2;
    let qpx = qx - px;
    let qpy = qy - py;
    let qp_cross_r = qpx * ry - qpy * rx;
    if den == 0 && qp_cross_r == 0 {
        let rr = rx * rx + ry * ry;
        let n0 = qpx * rx + qpy * ry;
        let n1 = n0 + (sx2 * rx + sy2 * ry);
        if (0 <= n0 && n0 <= rr) || (0 <= n1 && n1 <= rr) || (n0 <= 0 && n1 >= rr) || (n1 <= 0
            && n0 >= rr) {
            StatusV::CollinearIntersecting
        } else {
            StatusV::CollinearNotIntersecting
        }
    } else {
        match crossing_param_v(px, py, rx, ry, s, bounded) {
            Option::Some(hit) => StatusV::Intersecting(hit.0),
            Option::None => StatusV::NotIntersecting,
        }
    }
}

/// The proper-crossing case of the classifier, with the crossing's ray
/// parameter exposed: `Some((point, tn, d))` means the carrier line
/// crosses the segment at parameter `t = tn/d` (with `d > 0`), at the
/// given point. `None` covers parallel or collinear carriers and
/// crossings outside the extents.
pub open spec fn crossing_param_v(px: int, py: int, rx: int, ry: int, s: SegV, bounded: bool)
    -> Option<(PointV, int, int)>
    recommends
        seg_wf(s),
{
    let qx = sx(s.a);
    let qy = sy(s.a);
    let sx2 = sx(s.b) - qx;
    let sy2 = sy(s.b) - qy;
    let den = rx * sy2 - ry * sx2;
    let qpx = qx - px;
    let qpy = qy - py;
    if den == 0 {
        Option::None
    } else {
        let d = if den < 0 { -den } else { den };
        let tn = if den < 0 { -(qpx * sy2 - qpy * sx2) } else { qpx * sy2 - qpy * sx2 };
        let un = if den < 0 { -(qpx * ry - qpy * rx) } else { qpx * ry - qpy * rx };
        let t_ok = if bounded { 0 <= tn && tn <= d } else { 0 <= tn };
        if t_ok && 0 <= un && un <= d {
            Option::Some((PointV {
                x: spec_reduce(px * d + tn * rx, d),
                y: spec_reduce(py * d + tn * ry, d),
            }, tn, d))
        } else {
            Option::None
        }
    }
}

/// A finite obstacle edge: an ordered pair of distinct grid points,
/// immutable for the duration of a visibility computation.
#[derive(Clone, Copy, Debug, PartialEq, Eq, Structural)]
pub struct Segment {
    a: Vector,
    b: Vector,
}

impl View for Segment {
    type V = SegV;

    closed spec fn view(&self) -> SegV {
        SegV { a: self.a@, b: self.b@ }
    }
}

impl Segment {
    /// Every segment has distinct grid endpoints within the coordinate
    /// bound; zero-length segments cannot be constructed.
    #[verifier::type_invariant]
    pub open spec fn inv(self) -> bool {
        seg_wf(self@)
    }

    /// The segment from `a` to `b`. Zero-length input is rejected as a
    /// precondition violation.
    pub fn new(a: Vector, b: Vector) -> (r: Segment)
        requires
            grid_point(a@),
            grid_point(b@),
            !point_eq(a@, b@),
        ensures
            r@ == (SegV { a: a@, b: b@ }),
    {
        Segment { a, b }
    }

    /// The segment from `(x0, y0)` to `(x1, y1)` in grid coordinates.
    pub fn from_coords(x0: i128, y0: i128, x1: i128, y1: i128) -> (r: Segment)
        requires
            abs_int(x0 as int) <= COORD_LIMIT,
            abs_int(y0 as int) <= COORD_LIMIT,
            abs_int(x1 as int) <= COORD_LIMIT,
            abs_int(y1 as int) <= COORD_LIMIT,
            x0 != x1 || y0 != y1,
        ensures
            r@.a.x == rat_int(x0 as int),
            r@.a.y == rat_int(y0 as int),
            r@.b.x == rat_int(x1 as int),
            r@.b.y == rat_int(y1 as int),
    {
        let a = Vector::new(x0, y0);
        let b = Vector::new(x1, y1);
        proof {
            if point_eq(a@, b@) {
                assert(x0 == x1 && y0 == y1);
            }
        }
        Segment::new(a, b)
    }

    /// Both endpoints, in order.
    pub fn points(&self) -> (r: [Vector; 2])
        ensures
            r[0]@ == self@.a,
            r[1]@ == self@.b,
    {
        [self.a, self.b]
    }

    /// Whether the grid point `p` lies on this segment (collinear and
    /// within the extent).
    pub fn contains_point(&self, p: &Vector) -> (r: bool)
        requires
            grid_point(p@),
        ensures
            r == on_segment_v(p@, self@),
    {
        proof {
            use_type_invariant(&*self);
            let uxg = sx(self@.b) - sx(self@.a);
            let uyg = sy(self@.b) - sy(self@.a);
            let wxg = sx(p@) - sx(self@.a);
            let wyg = sy(p@) - sy(self@.a);
            lemma_mul_bounds(uxg, 0x2_0000, wyg, 0x2_0000);
            lemma_mul_bounds(uyg, 0x2_0000, wxg, 0x2_0000);
            lemma_mul_bounds(wxg, 0x2_0000, uxg, 0x2_0000);
            lemma_mul_bounds(wyg, 0x2_0000, uyg, 0x2_0000);
            lemma_mul_bounds(uxg, 0x2_0000, uxg, 0x2_0000);
            lemma_mul_bounds(uyg, 0x2_0000, uyg, 0x2_0000);
        }
        let ax: i128 = self.a.x.num();
        let ay: i128 = self.a.y.num();
        let ux: i128 = self.b.x.num() - ax;
        let uy: i128 = self.b.y.num() - ay;
        let wx: i128 = p.x.num() - ax;
        let wy: i128 = p.y.num() - ay;
        ux * wy - uy * wx == 0 && 0 <= wx * ux + wy * uy && wx * ux + wy * uy <= ux * ux + uy
            * uy
    }

    /// Classify the intersection of this segment with another one.
    ///
    /// The four outcomes (collinear overlapping, collinear disjoint,
    /// parallel disjoint, proper crossing with its exact point) are the
    /// value of `seg_intersect_v` on the two segments.
    pub fn calculate_intersection(&self, other: &Segment) -> (r: IntersectionStatus)
        ensures
            r@ == seg_intersect_v(self@, other@),
    {
        proof {
            use_type_invariant(&*self);
        }
        let ax: i128 = self.a.x.num();
        let ay: i128 = self.a.y.num();
        let bx: i128 = self.b.x.num();
        let by: i128 = self.b.y.num();
        line_hit(ax, ay, bx - ax, by - ay, other, true)
    }
}

/// Two segments with equal mathematical models are equal values, so a
/// comparison of stored segments decides equality of their models.
pub proof fn lemma_segment_view_injective(s1: Segment, s2: Segment)
    ensures
        (s1 == s2) <==> (s1@ == s2@),
{
    if s1@ == s2@ {
        crate::rat::Rat::lemma_view_injective(s1.a.x, s2.a.x);
        crate::rat::Rat::lemma_view_injective(s1.a.y, s2.a.y);
        crate::rat::Rat::lemma_view_injective(s1.b.x, s2.b.x);
        crate::rat::Rat::lemma_view_injective(s1.b.y, s2.b.y);
        assert(s1.a == s2.a && s1.b == s2.b);
    }
}

/// Whether the grid point `p` lies on the segment `s`: collinear with it
/// and within its extent.
pub open spec fn on_segment_v(p: PointV, s: SegV) -> bool
    recommends
        grid_point(p),
        seg_wf(s),
{
    let ax = sx(s.a);
    let ay = sy(s.a);
    let ux = sx(s.b) - ax;
    let uy = sy(s.b) - ay;
    let wx = sx(p) - ax;
    let wy = sy(p) - ay;
    ux * wy - uy * wx == 0 && 0 <= wx * ux + wy * uy <= ux * ux + uy * uy
}

/// Classification of segment `s0` against segment `s1`: the line carrier
/// is `s0`, parameterized from its endpoint `a` (t = 0) to `b` (t = 1).
pub open spec fn seg_intersect_v(s0: SegV, s1: SegV) -> StatusV
    recommends
        seg_wf(s0),
        seg_wf(s1),
{
    line_hit_v(sx(s0.a), sy(s0.a), sx(s0.b) - sx(s0.a), sy(s0.b) - sy(s0.a), s1, true)
}

/// The exact classifier over integer grid arithmetic, shared by the
/// segment/segment and ray/segment cases.
pub(crate) fn line_hit(px: i128, py: i128, rx: i128, ry: i128, seg: &Segment, bounded: bool) -> (r:
    IntersectionStatus)
    requires
        abs_int(px as int) <= COORD_LIMIT,
        abs_int(py as int) <= COORD_LIMIT,
        abs_int(rx as int) <= DIR_LIMIT,
        abs_int(ry as int) <= DIR_LIMIT,
    ensures
        r@ == line_hit_v(px as int, py as int, rx as int, ry as int, seg@, bounded),
{
    proof {
        use_type_invariant(&*seg);
    }
    let qx: i128 = seg.a.x.num();
    let qy: i128 = seg.a.y.num();
    let sx2: i128 = seg.b.x.num() - qx;
    let sy2: i128 = seg.b.y.num() - qy;
    proof {
        lemma_mul_bounds(rx as int, 0x200_0000, sy2 as int, 0x2_0000);
        lemma_mul_bounds(ry as int, 0x200_0000, sx2 as int, 0x2_0000);
        lemma_mul_bounds(rx as int, 0x200_0000, rx as int, 0x200_0000);
        lemma_mul_bounds(ry as int, 0x200_0000, ry as int, 0x200_0000);
    }
    let den: i128 = rx * sy2 - ry * sx2;
    let qpx: i128 = qx - px;
    let qpy: i128 = qy - py;
    proof {
        lemma_mul_bounds(qpx as int, 0x2_0000, ry as int, 0x200_0000);
        lemma_mul_bounds(qpy as int, 0x2_0000, rx as int, 0x200_0000);
        lemma_mul_bounds(qpx as int, 0x2_0000, rx as int, 0x200_0000);
        lemma_mul_bounds(qpy as int, 0x2_0000, ry as int, 0x200_0000);
        lemma_mul_bounds(qpx as int, 0x2_0000, sy2 as int, 0x2_0000);
        lemma_mul_bounds(qpy as int, 0x2_0000, sx2 as int, 0x2_0000);
        lemma_mul_bounds(sx2 as int, 0x2_0000, rx as int, 0x200_0000);
        lemma_mul_bounds(sy2 as int, 0x2_0000, ry as int, 0x200_0000);
    }
    let qp_cross_r: i128 = qpx * ry - qpy * rx;
    if den == 0 && qp_cross_r == 0 {
        let rr: i128 = rx * rx + ry * ry;
        let n0: i128 = qpx * rx + qpy * ry;
        let n1: i128 = n0 + (sx2 * rx + sy2 * ry);
        if (0 <= n0 && n0 <= rr) || (0 <= n1 && n1 <= rr) || (n0 <= 0 && n1 >= rr) || (n1 <= 0
            && n0 >= rr) {
            IntersectionStatus::CollinearIntersecting
        } else {
            IntersectionStatus::CollinearNotIntersecting
        }
    } else {
        match crossing_param(px, py, rx, ry, seg, bounded) {
            Option::Some((v, _tn, _d)) => IntersectionStatus::Intersecting(v),
            Option::None => IntersectionStatus::NotIntersecting,
        }
    }
}

/// The proper-crossing probe over integer grid arithmetic: the exact
/// crossing point of the carrier line with the segment, with the
/// carrier's parameter `t = tn/d` alongside, so that callers can compare
/// hit distances along one ray exactly.
pub(crate) fn crossing_param(px: i128, py: i128, rx: i128, ry: i128, seg: &Segment, bounded: bool)
    -> (r: Option<(Vector, i128, i128)>)
    requires
        abs_int(px as int) <= COORD_LIMIT,
        abs_int(py as int) <= COORD_LIMIT,
        abs_int(rx as int) <= DIR_LIMIT,
        abs_int(ry as int) <= DIR_LIMIT,
    ensures
        (match r {
            Option::Some((v, tn, d)) => crossing_param_v(
                px as int, py as int, rx as int, ry as int, seg@, bounded)
                == Option::Some((v@, tn as int, d as int))
                && 1 <= d <= 0x800_0000_0000
                && 0 <= tn <= 0x8_0000_0000,
            Option::None => crossing_param_v(
                px as int, py as int, rx as int, ry as int, seg@, bounded) is None,
        }),
{
    proof {
        use_type_invariant(&*seg);
    }
    let qx: i128 = seg.a.x.num();
    let qy: i128 = seg.a.y.num();
    let sx2: i128 = seg.b.x.num() - qx;
    let sy2: i128 = seg.b.y.num() - qy;
    proof {
        lemma_mul_bounds(rx as int, 0x200_0000, sy2 as int, 0x2_0000);
        lemma_mul_bounds(ry as int, 0x200_0000, sx2 as int, 0x2_0000);
    }
    let den: i128 = rx * sy2 - ry * sx2;
    let qpx: i128 = qx - px;
    let qpy: i128 = qy - py;
    proof {
        lemma_mul_bounds(qpx as int, 0x2_0000, ry as int, 0x200_0000);
        lemma_mul_bounds(qpy as int, 0x2_0000, rx as int, 0x200_0000);
        lemma_mul_bounds(qpx as int, 0x2_0000, sy2 as int, 0x2_0000);
        lemma_mul_bounds(qpy as int, 0x2_0000, sx2 as int, 0x2_0000);
    }
    if den == 0 {
        Option::None
    } else {
        let tn0: i128 = qpx * sy2 - qpy * sx2;
        let un0: i128 = qpx * ry - qpy * rx;
        let d: i128 = if den < 0 { -den } else { den };
        let tn: i128 = if den < 0 { -tn0 } else { tn0 };
        let un: i128 = if den < 0 { -un0 } else { un0 };
        let t_ok: bool = if bounded { 0 <= tn && tn <= d } else { 0 <= tn };
        if t_ok && 0 <= un && un <= d {
            proof {
                lemma_mul_bounds(px as int, 0x1_0000, d as int, 0x800_0000_0000);
                lemma_mul_bounds(py as int, 0x1_0000, d as int, 0x800_0000_0000);
                lemma_mul_bounds(tn as int, 0x8_0000_0000, rx as int, 0x200_0000);
                lemma_mul_bounds(tn as int, 0x8_0000_0000, ry as int, 0x200_0000);
            }
            let nx: i128 = px * d + tn * rx;
            let ny: i128 = py * d + tn * ry;
            Option::Some((Vector { x: Rat::new(nx, d), y: Rat::new(ny, d) }, tn, d))
        } else {
            Option::None
        }
    }
}


/// The direction displacement of a segment, from `a` to `b`.
pub open spec fn seg_dir(s: SegV) -> DirV {
    DirV { x: sx(s.b) - sx(s.a), y: sy(s.b) - sy(s.a) }
}

/// Law: a segment intersected with itself is collinear overlapping.
///
/// Its carrier line is its own: both cross products vanish, and the
/// projected overlap interval is exactly `[0, 1]`.
pub proof fn lemma_self_intersection(s: SegV)
    requires
        seg_wf(s),
    ensures
        seg_intersect_v(s, s) == StatusV::CollinearIntersecting,
{
    let rx = sx(s.b) - sx(s.a);
    let ry = sy(s.b) - sy(s.a);
    assert(rx != 0 || ry != 0) by {
        if rx == 0 && ry == 0 {
            assert(s.a.x.num * s.b.x.den == s.b.x.num * s.a.x.den);
            assert(s.a.y.num * s.b.y.den == s.b.y.num * s.a.y.den);
            assert(point_eq(s.a, s.b));
        }
    }
    assert(rx * ry - ry * rx == 0) by (nonlinear_arith);
    assert(rx * rx + ry * ry > 0) by (nonlinear_arith)
        requires rx != 0 || ry != 0,
    ;
    let qpx = sx(s.a) - sx(s.a);
    let qpy = sy(s.a) - sy(s.a);
    assert(qpx * ry - qpy * rx == 0) by (nonlinear_arith)
        requires qpx == 0, qpy == 0,
    ;
    assert(qpx * rx + qpy * ry == 0) by (nonlinear_arith)
        requires qpx == 0, qpy == 0,
    ;
}

/// Law: on non-parallel segments the classification is symmetric: both
/// orders report the same outcome, and a crossing carries the identical
/// point (the two parametric solutions name one point, and its reduced
/// coordinates agree).
pub proof fn lemma_intersection_symmetric(s0: SegV, s1: SegV)
    requires
        seg_wf(s0),
        seg_wf(s1),
        cross_d(seg_dir(s0), seg_dir(s1)) != 0,
    ensures
        seg_intersect_v(s0, s1) == seg_intersect_v(s1, s0),
{
    let px = sx(s0.a);
    let py = sy(s0.a);
    let qx = sx(s1.a);
    let qy = sy(s1.a);
    let rx = sx(s0.b) - px;
    let ry = sy(s0.b) - py;
    let ux = sx(s1.b) - qx;
    let uy = sy(s1.b) - qy;
    let wx = qx - px;
    let wy = qy - py;
    let den0 = rx * uy - ry * ux;
    let den1 = ux * ry - uy * rx;
    assert(den0 == cross_d(seg_dir(s0), seg_dir(s1))) by (nonlinear_arith)
        requires
            den0 == rx * uy - ry * ux,
            cross_d(seg_dir(s0), seg_dir(s1)) == rx * uy - ry * ux,
    ;
    assert(den1 == -den0) by (nonlinear_arith)
        requires den0 == rx * uy - ry * ux, den1 == ux * ry - uy * rx,
    ;
    let tn0raw = wx * uy - wy * ux;
    let un0raw = wx * ry - wy * rx;
    let tn1raw = (-wx) * ry - (-wy) * rx;
    let un1raw = (-wx) * uy - (-wy) * ux;
    assert(tn1raw == -un0raw && un1raw == -tn0raw) by (nonlinear_arith)
        requires
            tn0raw == wx * uy - wy * ux,
            un0raw == wx * ry - wy * rx,
            tn1raw == (-wx) * ry - (-wy) * rx,
            un1raw == (-wx) * uy - (-wy) * ux,
    ;
    let d = if den0 < 0 { -den0 } else { den0 };
    let tn0 = if den0 < 0 { -tn0raw } else { tn0raw };
    let un0 = if den0 < 0 { -un0raw } else { un0raw };
    let tn1 = if den1 < 0 { -tn1raw } else { tn1raw };
    let un1 = if den1 < 0 { -un1raw } else { un1raw };
    assert(tn1 == un0 && un1 == tn0);
    // The two solutions name one point: the Cramer identities turn the
    // first carrier's parametric coordinates into the second's.
    assert(tn0raw * rx - un0raw * ux == wx * den0) by (nonlinear_arith)
        requires
            tn0raw == wx * uy - wy * ux,
            un0raw == wx * ry - wy * rx,
            den0 == rx * uy - ry * ux,
    ;
    assert(tn0raw * ry - un0raw * uy == wy * den0) by (nonlinear_arith)
        requires
            tn0raw == wx * uy - wy * ux,
            un0raw == wx * ry - wy * rx,
            den0 == rx * uy - ry * ux,
    ;
    assert(tn0 * rx - un0 * ux == wx * d && tn0 * ry - un0 * uy == wy * d) by (nonlinear_arith)
        requires
            tn0raw * rx - un0raw * ux == wx * den0,
            tn0raw * ry - un0raw * uy == wy * den0,
            d == (if den0 < 0 { -den0 } else { den0 }),
            tn0 == (if den0 < 0 { -tn0raw } else { tn0raw }),
            un0 == (if den0 < 0 { -un0raw } else { un0raw }),
    ;
    assert(px * d + tn0 * rx == qx * d + un0 * ux && py * d + tn0 * ry == qy * d + un0
        * uy) by (nonlinear_arith)
        requires
            tn0 * rx - un0 * ux == wx * d,
            tn0 * ry - un0 * uy == wy * d,
            wx == qx - px,
            wy == qy - py,
    ;
}


/// Facts about a reported crossing: the denominator is positive, the
/// parameter is nonnegative, the point's reduced coordinates satisfy the
/// parametric equations `pt = p + (tn/d) * r` exactly, and a crossing at
/// parameter zero can only happen when `(px, py)` itself lies on the
/// segment.
#[verifier::rlimit(50)]
pub proof fn lemma_crossing_props(
    px: int, py: int, rx: int, ry: int, s: SegV, bounded: bool, pt: PointV, tn: int, d: int,
)
    requires
        crossing_param_v(px, py, rx, ry, s, bounded) == Option::Some((pt, tn, d)),
    ensures
        d >= 1,
        0 <= tn,
        crate::vector::point_wf(pt),
        pt.x.num * d == (px * d + tn * rx) * pt.x.den,
        pt.y.num * d == (py * d + tn * ry) * pt.y.den,
        tn == 0 ==> on_segment_v(PointV { x: rat_int(px), y: rat_int(py) }, s),
{
    let qx = sx(s.a);
    let qy = sy(s.a);
    let ux = sx(s.b) - qx;
    let uy = sy(s.b) - qy;
    let den = rx * uy - ry * ux;
    let qpx = qx - px;
    let qpy = qy - py;
    let tnraw = qpx * uy - qpy * ux;
    let unraw = qpx * ry - qpy * rx;
    let un = if den < 0 { -unraw } else { unraw };
    crate::rat::lemma_reduce_value(px * d + tn * rx, d);
    crate::rat::lemma_reduce_value(py * d + tn * ry, d);
    if tn == 0 {
        assert(tnraw == 0);
        let o = PointV { x: rat_int(px), y: rat_int(py) };
        let wx = sx(o) - qx;
        let wy = sy(o) - qy;
        // Collinearity: the cross test of the on-segment predicate is
        // the negated crossing numerator.
        assert(ux * wy - uy * wx == 0) by (nonlinear_arith)
            requires
                tnraw == qpx * uy - qpy * ux,
                tnraw == 0,
                wx == -qpx,
                wy == -qpy,
        ;
        // Extent: the segment parameter `un/d` lies in [0, 1], and the
        // projection of `o - s.a` onto the segment direction is that
        // fraction of the squared length.
        let uu = ux * ux + uy * uy;
        let dot = wx * ux + wy * uy;
        assert(wx * uu == ux * dot && wy * uu == uy * dot) by (nonlinear_arith)
            requires
                ux * wy - uy * wx == 0,
                uu == ux * ux + uy * uy,
                dot == wx * ux + wy * uy,
        ;
        assert(qpx * uu == -(ux * dot) && qpy * uu == -(uy * dot)) by (nonlinear_arith)
            requires
                wx == -qpx,
                wy == -qpy,
                wx * uu == ux * dot,
                wy * uu == uy * dot,
        ;
        let t1 = qpx * uu;
        let t2 = qpy * uu;
        assert((qpx * ry - qpy * rx) * uu == ry * t1 - rx * t2) by (nonlinear_arith)
            requires
                t1 == qpx * uu,
                t2 == qpy * uu,
        ;
        assert(ry * t1 - rx * t2 == dot * den) by (nonlinear_arith)
            requires
                t1 == -(ux * dot),
                t2 == -(uy * dot),
                den == rx * uy - ry * ux,
        ;
        assert(unraw * uu == dot * den);
        assert(un * uu == dot * d) by (nonlinear_arith)
            requires
                unraw * uu == dot * den,
                un == (if den < 0 { -unraw } else { unraw }),
                d == (if den < 0 { -den } else { den }),
        ;
        assert(uu >= 0) by (nonlinear_arith)
            requires
                uu == ux * ux + uy * uy,
        ;
        assert(0 <= dot && dot <= uu) by (nonlinear_arith)
            requires
                dot * d == un * uu,
                0 <= un,
                un <= d,
                1 <= d,
                uu >= 0,
        ;
    }
}


/// Whether the grid point `o` lies off the infinite carrier line of the
/// segment `s` (so in particular off the segment itself).
pub open spec fn off_carrier_line(o: PointV, s: SegV) -> bool {
    (sx(s.b) - sx(s.a)) * (sy(o) - sy(s.a)) - (sy(s.b) - sy(s.a)) * (sx(o) - sx(s.a)) != 0
}

/// The ray cast from `o` toward an endpoint of `s` crosses `s` (at the
/// endpoint itself, parameter one), provided `o` is off the carrier
/// line of `s`.
pub proof fn lemma_endpoint_ray_hits(o: PointV, s: SegV, c: PointV)
    requires
        grid_point(o),
        off_carrier_line(o, s),
        c == s.a || c == s.b,
    ensures
        crossing_param_v(sx(o), sy(o), sx(c) - sx(o), sy(c) - sy(o), s, false) is Some,
{
    let ax = sx(s.a);
    let ay = sy(s.a);
    let ux = sx(s.b) - ax;
    let uy = sy(s.b) - ay;
    let ox = sx(o);
    let oy = sy(o);
    let dirx = sx(c) - ox;
    let diry = sy(c) - oy;
    let off = ux * (oy - ay) - uy * (ox - ax);
    let den = dirx * uy - diry * ux;
    let qpx = ax - ox;
    let qpy = ay - oy;
    let tnraw = qpx * uy - qpy * ux;
    let unraw = qpx * diry - qpy * dirx;
    assert(tnraw == off) by (nonlinear_arith)
        requires
            tnraw == qpx * uy - qpy * ux,
            off == ux * (oy - ay) - uy * (ox - ax),
            qpx == ax - ox,
            qpy == ay - oy,
    ;
    if c == s.a {
        assert(den == tnraw) by (nonlinear_arith)
            requires
                den == dirx * uy - diry * ux,
                tnraw == qpx * uy - qpy * ux,
                dirx == qpx,
                diry == qpy,
        ;
        assert(unraw == 0) by (nonlinear_arith)
            requires
                unraw == qpx * diry - qpy * dirx,
                dirx == qpx,
                diry == qpy,
        ;
    } else {
        assert(den == tnraw) by (nonlinear_arith)
            requires
                den == dirx * uy - diry * ux,
                tnraw == qpx * uy - qpy * ux,
                dirx == qpx + ux,
                diry == qpy + uy,
        ;
        assert(unraw == tnraw) by (nonlinear_arith)
            requires
                unraw == qpx * diry - qpy * dirx,
                tnraw == qpx * uy - qpy * ux,
                dirx == qpx + ux,
                diry == qpy + uy,
        ;
    }
    assert(den != 0);
    let d = if den < 0 { -den } else { den };
    let tn = if den < 0 { -tnraw } else { tnraw };
    let un = if den < 0 { -unraw } else { unraw };
    assert(tn == d);
    assert(0 <= un && un <= d);
}

} // verus!
