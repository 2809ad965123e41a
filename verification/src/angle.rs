//! Exact angular ordering of nonzero integer directions.
//!
//! Directions are ordered by their signed angle in `(-180, 180]`
//! degrees, as `atan2` reports it, ascending; but the order is decided
//! exactly, without evaluating any trigonometric function: first by the
//! half-plane class of the direction, then within one open half-plane by
//! the sign of the cross product. The order is a total preorder: two
//! positive multiples of one direction compare equal.

use vstd::prelude::*;

verus! {

/// An integer direction (a displacement with both components integral).
pub ghost struct DirV {
    pub x: int,
    pub y: int,
}

/// Cross product of two directions.
pub open spec fn cross_d(a: DirV, b: DirV) -> int {
    a.x * b.y - a.y * b.x
}

/// The angular class of a direction: 0 for angles in `(-180, 0)`
/// (below the x axis), 1 for angle `0` (positive x axis), 2 for angles
/// in `(0, 180)` (above the x axis), 3 for angle `180` (negative x
/// axis; the zero direction also lands here, but every direction the
/// crate compares is nonzero).
pub open spec fn half(d: DirV) -> int {
    if d.y < 0 {
        0
    } else if d.y == 0 && d.x > 0 {
        1
    } else if d.y > 0 {
        2
    } else {
        3
    }
}

/// `a` points at a strictly smaller angle than `b`.
pub open spec fn angle_lt(a: DirV, b: DirV) -> bool {
    half(a) < half(b) || (half(a) == half(b) && cross_d(a, b) > 0)
}

/// `a` points at an angle no greater than `b`'s.
pub open spec fn angle_le(a: DirV, b: DirV) -> bool {
    !angle_lt(b, a)
}

/// The angle order is total: of two directions, one points no later
/// than the other; and a strict comparison excludes its converse.
pub proof fn lemma_angle_total(a: DirV, b: DirV)
    ensures
        angle_le(a, b) || angle_le(b, a),
        angle_lt(a, b) ==> !angle_lt(b, a),
        angle_le(a, b) || angle_lt(b, a),
{
    assert(cross_d(a, b) == -cross_d(b, a)) by (nonlinear_arith)
        requires
            cross_d(a, b) == a.x * b.y - a.y * b.x,
            cross_d(b, a) == b.x * a.y - b.y * a.x,
    ;
}

/// The nonstrict angle order is transitive.
pub proof fn lemma_angle_le_trans(a: DirV, b: DirV, c: DirV)
    requires
        angle_le(a, b),
        angle_le(b, c),
    ensures
        angle_le(a, c),
{
    lemma_angle_total(a, b);
    lemma_angle_total(b, c);
    lemma_angle_total(a, c);
    if half(a) == half(b) && half(b) == half(c) {
        let cab = cross_d(a, b);
        let cbc = cross_d(b, c);
        let cac = cross_d(c, a);
        if half(a) == 1 || half(a) == 3 {
            // All three directions lie on the x axis: every cross
            // product among them is zero.
            assert(cac == 0) by (nonlinear_arith)
                requires a.y == 0, c.y == 0, cac == c.x * a.y - c.y * a.x,
            ;
        } else {
            // One open half-plane: cross-sign comparisons chain through
            // the identity cross(a,b)*c.y + cross(b,c)*a.y ==
            // -cross(c,a)*b.y.
            assert(cab == -cross_d(b, a)) by (nonlinear_arith)
                requires
                    cab == a.x * b.y - a.y * b.x,
                    cross_d(b, a) == b.x * a.y - b.y * a.x,
            ;
            assert(cbc == -cross_d(c, b)) by (nonlinear_arith)
                requires
                    cbc == b.x * c.y - b.y * c.x,
                    cross_d(c, b) == c.x * b.y - c.y * b.x,
            ;
            assert(cab >= 0 && cbc >= 0);
            if half(a) == 0 {
                assert(!(cac > 0)) by (nonlinear_arith)
                    requires
                        cab == a.x * b.y - a.y * b.x,
                        cbc == b.x * c.y - b.y * c.x,
                        cac == c.x * a.y - c.y * a.x,
                        cab >= 0,
                        cbc >= 0,
                        a.y < 0,
                        b.y < 0,
                        c.y < 0,
                ;
            } else {
                assert(!(cac > 0)) by (nonlinear_arith)
                    requires
                        cab == a.x * b.y - a.y * b.x,
                        cbc == b.x * c.y - b.y * c.x,
                        cac == c.x * a.y - c.y * a.x,
                        cab >= 0,
                        cbc >= 0,
                        a.y > 0,
                        b.y > 0,
                        c.y > 0,
                ;
            }
        }
    }
}

/// Scaling a direction by a positive rational factor (given as
/// `s * d == m * r` componentwise, with positive `d` and `m`) leaves
/// its position in the angle order unchanged against every other
/// direction.
pub proof fn lemma_angle_positive_scale(s: DirV, r: DirV, m: int, d: int, b: DirV)
    requires
        m >= 1,
        d >= 1,
        s.x * d == m * r.x,
        s.y * d == m * r.y,
    ensures
        angle_lt(s, b) == angle_lt(r, b),
        angle_lt(b, s) == angle_lt(b, r),
        angle_le(s, b) == angle_le(r, b),
        angle_le(b, s) == angle_le(b, r),
{
    assert((s.y < 0 <==> r.y < 0) && (s.y == 0 <==> r.y == 0) && (s.x > 0 <==> r.x > 0) && (s.x
        == 0 <==> r.x == 0)) by (nonlinear_arith)
        requires m >= 1, d >= 1, s.x * d == m * r.x, s.y * d == m * r.y,
    ;
    assert(half(s) == half(r));
    assert((cross_d(s, b) > 0 <==> cross_d(r, b) > 0) && (cross_d(b, s) > 0 <==> cross_d(b, r)
        > 0)) by (nonlinear_arith)
        requires
            m >= 1,
            d >= 1,
            s.x * d == m * r.x,
            s.y * d == m * r.y,
            cross_d(s, b) == s.x * b.y - s.y * b.x,
            cross_d(r, b) == r.x * b.y - r.y * b.x,
            cross_d(b, s) == b.x * s.y - b.y * s.x,
            cross_d(b, r) == b.x * r.y - b.y * r.x,
    ;
}

/// Exact comparison `angle(a) <= angle(b)` of two nonzero integer
/// directions, the sort key of the visibility engine. Equal to ordering
/// by `atan2(y, x)` (in radians or degrees alike).
pub fn angle_le_exec(ax: i128, ay: i128, bx: i128, by: i128) -> (r: bool)
    requires
        -0x2000_0000 <= ax <= 0x2000_0000,
        -0x2000_0000 <= ay <= 0x2000_0000,
        -0x2000_0000 <= bx <= 0x2000_0000,
        -0x2000_0000 <= by <= 0x2000_0000,
    ensures
        r == angle_le(DirV { x: ax as int, y: ay as int }, DirV { x: bx as int, y: by as int }),
{
    let ha: i128 = if ay < 0 {
        0
    } else if ay == 0 && ax > 0 {
        1
    } else if ay > 0 {
        2
    } else {
        3
    };
    let hb: i128 = if by < 0 {
        0
    } else if by == 0 && bx > 0 {
        1
    } else if by > 0 {
        2
    } else {
        3
    };
    proof {
        crate::rat::lemma_mul_bounds(bx as int, 0x2000_0000, ay as int, 0x2000_0000);
        crate::rat::lemma_mul_bounds(by as int, 0x2000_0000, ax as int, 0x2000_0000);
    }
    !(hb < ha || (hb == ha && bx * ay - by * ax > 0))
}

} // verus!
