//! Two-dimensional vectors/points with exact rational coordinates, and
//! the algebra the geometry core needs: add, subtract, scale, divide,
//! dot product and the scalar (signed-area) cross product.

use vstd::prelude::*;
use crate::rat::{
    abs_int, rat_add, rat_eq, rat_int, rat_mul, rat_sub, rat_wf, lemma_mul_bounds, Rat, RatV,
    DEN_LIMIT, NUM_LIMIT,
};

verus! {

/// Largest magnitude allowed for the (integer) coordinates of obstacle
/// segment endpoints and of the visibility origin.
pub const COORD_LIMIT: i128 = 65536;

/// Largest magnitude allowed for the components of a ray direction.
pub const DIR_LIMIT: i128 = 33554432;

/// Bound under which the components of `add`/`sub` operands must stay.
pub const SMALL_NUM: i128 = 0x40_0000_0000;

/// Denominator bound for `add`/`sub` operands.
pub const SMALL_DEN: i128 = 0x10_0000;

/// Bound under which the components of multiplicative operands must stay.
pub const TINY_NUM: i128 = 0x10_0000;

/// Denominator bound for multiplicative operands.
pub const TINY_DEN: i128 = 0x400;

/// Mathematical model of a point or displacement.
pub ghost struct PointV {
    pub x: RatV,
    pub y: RatV,
}

/// Both coordinates are well-formed rationals.
pub open spec fn point_wf(p: PointV) -> bool {
    rat_wf(p.x) && rat_wf(p.y)
}

/// Exact value equality of two points.
pub open spec fn point_eq(a: PointV, b: PointV) -> bool {
    rat_eq(a.x, b.x) && rat_eq(a.y, b.y)
}

/// A rational that is an integer within the grid coordinate bound.
pub open spec fn grid_rat(r: RatV) -> bool {
    r.den == 1 && abs_int(r.num) <= COORD_LIMIT
}

/// A point with integer coordinates on the playing grid. Obstacle
/// endpoints and the visibility origin are such points.
pub open spec fn grid_point(p: PointV) -> bool {
    grid_rat(p.x) && grid_rat(p.y)
}

/// A rational small enough for additive operations.
pub open spec fn rat_small(r: RatV) -> bool {
    abs_int(r.num) <= SMALL_NUM && 1 <= r.den <= SMALL_DEN
}

/// A rational small enough for multiplicative operations.
pub open spec fn rat_tiny(r: RatV) -> bool {
    abs_int(r.num) <= TINY_NUM && 1 <= r.den <= TINY_DEN
}

/// Both coordinates small enough for additive operations.
pub open spec fn point_small(p: PointV) -> bool {
    rat_small(p.x) && rat_small(p.y)
}

/// Both coordinates small enough for multiplicative operations.
pub open spec fn point_tiny(p: PointV) -> bool {
    rat_tiny(p.x) && rat_tiny(p.y)
}

/// Model difference of two points.
pub open spec fn point_sub(a: PointV, b: PointV) -> PointV {
    PointV { x: rat_sub(a.x, b.x), y: rat_sub(a.y, b.y) }
}

/// Model cross product (signed parallelogram area): `a.x*b.y - a.y*b.x`.
pub open spec fn point_cross(a: PointV, b: PointV) -> RatV {
    rat_sub(rat_mul(a.x, b.y), rat_mul(a.y, b.x))
}

/// Model dot product: `a.x*b.x + a.y*b.y`.
pub open spec fn point_dot(a: PointV, b: PointV) -> RatV {
    rat_add(rat_mul(a.x, b.x), rat_mul(a.y, b.y))
}

/// A 2D point or displacement with exact rational coordinates. Compared
/// and deduplicated by exact value: coordinates are stored in reduced
/// form, so equal values have equal representations.
#[derive(Clone, Copy, Debug, PartialEq, Eq, Structural)]
pub struct Vector {
    pub x: Rat,
    pub y: Rat,
}

impl View for Vector {
    type V = PointV;

    open spec fn view(&self) -> PointV {
        PointV { x: self.x@, y: self.y@ }
    }
}

impl Vector {
    /// The point with the given integer coordinates.
    pub fn new(x: i128, y: i128) -> (r: Vector)
        requires
            -NUM_LIMIT <= x <= NUM_LIMIT,
            -NUM_LIMIT <= y <= NUM_LIMIT,
        ensures
            r@ == (PointV { x: rat_int(x as int), y: rat_int(y as int) }),
    {
        Vector { x: Rat::from_int(x), y: Rat::from_int(y) }
    }

    /// The point `(xn/xd, yn/yd)` with exact rational coordinates.
    pub fn from_ratio(xn: i128, xd: i128, yn: i128, yd: i128) -> (r: Vector)
        requires
            -NUM_LIMIT <= xn <= NUM_LIMIT,
            -NUM_LIMIT <= yn <= NUM_LIMIT,
            1 <= xd <= DEN_LIMIT,
            1 <= yd <= DEN_LIMIT,
        ensures
            rat_eq(r@.x, RatV { num: xn as int, den: xd as int }),
            rat_eq(r@.y, RatV { num: yn as int, den: yd as int }),
    {
        Vector { x: Rat::new(xn, xd), y: Rat::new(yn, yd) }
    }

    /// The coordinates as a pair.
    pub fn tuple(&self) -> (r: (Rat, Rat))
        ensures
            r.0@ == self@.x,
            r.1@ == self@.y,
    {
        (self.x, self.y)
    }

    /// Exact value equality of two points.
    pub fn eq_value(&self, other: &Vector) -> (r: bool)
        ensures
            r == point_eq(self@, other@),
    {
        self.x.eq_value(&other.x) && self.y.eq_value(&other.y)
    }

    /// Componentwise sum.
    pub fn add(&self, other: &Vector) -> (r: Vector)
        requires
            point_small(self@),
            point_small(other@),
        ensures
            rat_eq(r@.x, rat_add(self@.x, other@.x)),
            rat_eq(r@.y, rat_add(self@.y, other@.y)),
            point_wf(r@),
    {
        Vector {
            x: rat_add_exec(&self.x, &other.x),
            y: rat_add_exec(&self.y, &other.y),
        }
    }

    /// Componentwise difference.
    pub fn sub(&self, other: &Vector) -> (r: Vector)
        requires
            point_small(self@),
            point_small(other@),
        ensures
            rat_eq(r@.x, rat_sub(self@.x, other@.x)),
            rat_eq(r@.y, rat_sub(self@.y, other@.y)),
            point_wf(r@),
    {
        Vector {
            x: rat_sub_exec(&self.x, &other.x),
            y: rat_sub_exec(&self.y, &other.y),
        }
    }

    /// Both coordinates scaled by the rational `k`.
    pub fn scale(&self, k: &Rat) -> (r: Vector)
        requires
            point_tiny(self@),
            rat_tiny(k@),
        ensures
            rat_eq(r@.x, rat_mul(self@.x, k@)),
            rat_eq(r@.y, rat_mul(self@.y, k@)),
            point_wf(r@),
    {
        Vector {
            x: rat_mul_exec(&self.x, k),
            y: rat_mul_exec(&self.y, k),
        }
    }

    /// Both coordinates divided by the nonzero rational `k`.
    pub fn divide(&self, k: &Rat) -> (r: Vector)
        requires
            point_tiny(self@),
            rat_tiny(k@),
            k@.num != 0,
        ensures
            rat_eq(rat_mul(r@.x, k@), self@.x),
            rat_eq(rat_mul(r@.y, k@), self@.y),
            point_wf(r@),
    {
        Vector {
            x: rat_div_exec(&self.x, k),
            y: rat_div_exec(&self.y, k),
        }
    }

    /// Scalar cross product `self.x*other.y - self.y*other.x`; zero
    /// exactly when the two displacements are parallel.
    pub fn cross_product(&self, other: &Vector) -> (r: Rat)
        requires
            point_tiny(self@),
            point_tiny(other@),
        ensures
            rat_eq(r@, point_cross(self@, other@)),
            rat_wf(r@),
    {
        proof {
            lemma_tiny_products(self@.x, other@.y, self@.y, other@.x);
        }
        let p1: i128 = self.x.num() * other.y.num();
        let q1: i128 = self.y.den() * other.x.den();
        let p2: i128 = self.y.num() * other.x.num();
        let q2: i128 = self.x.den() * other.y.den();
        proof {
            lemma_const_products();
            lemma_mul_bounds(p1 as int, TINY_NUM * TINY_NUM, q1 as int, TINY_DEN * TINY_DEN);
            lemma_mul_bounds(p2 as int, TINY_NUM * TINY_NUM, q2 as int, TINY_DEN * TINY_DEN);
            lemma_mul_bounds(q2 as int, TINY_DEN * TINY_DEN, q1 as int, TINY_DEN * TINY_DEN);
            assert(q2 * q1 >= 1) by (nonlinear_arith)
                requires q1 >= 1, q2 >= 1,
            ;
        }
        let n: i128 = p1 * q1 - p2 * q2;
        let d: i128 = q2 * q1;
        let r = Rat::new(n, d);
        proof {
            lemma_cross_value(self@, other@, r@, n as int, d as int);
        }
        r
    }

    /// Dot product `self.x*other.x + self.y*other.y`.
    pub fn dot_product(&self, other: &Vector) -> (r: Rat)
        requires
            point_tiny(self@),
            point_tiny(other@),
        ensures
            rat_eq(r@, point_dot(self@, other@)),
            rat_wf(r@),
    {
        proof {
            lemma_tiny_products(self@.x, other@.x, self@.y, other@.y);
        }
        let p1: i128 = self.x.num() * other.x.num();
        let q1: i128 = self.y.den() * other.y.den();
        let p2: i128 = self.y.num() * other.y.num();
        let q2: i128 = self.x.den() * other.x.den();
        proof {
            lemma_const_products();
            lemma_mul_bounds(p1 as int, TINY_NUM * TINY_NUM, q1 as int, TINY_DEN * TINY_DEN);
            lemma_mul_bounds(p2 as int, TINY_NUM * TINY_NUM, q2 as int, TINY_DEN * TINY_DEN);
            lemma_mul_bounds(q2 as int, TINY_DEN * TINY_DEN, q1 as int, TINY_DEN * TINY_DEN);
            assert(q2 * q1 >= 1) by (nonlinear_arith)
                requires q1 >= 1, q2 >= 1,
            ;
        }
        let n: i128 = p1 * q1 + p2 * q2;
        let d: i128 = q2 * q1;
        let r = Rat::new(n, d);
        proof {
            lemma_dot_value(self@, other@, r@, n as int, d as int);
        }
        r
    }
}

/// Numeric values of the products of the bound constants, so that bounds
/// stated as such products can be compared against machine limits.
pub proof fn lemma_const_products()
    ensures
        TINY_NUM * TINY_NUM == 0x100_0000_0000,
        TINY_DEN * TINY_DEN == 0x10_0000,
        TINY_NUM * TINY_NUM * (TINY_DEN * TINY_DEN) == 0x1000_0000_0000_0000,
        SMALL_NUM * SMALL_DEN == 0x400_0000_0000_0000,
        SMALL_DEN * SMALL_DEN == 0x100_0000_0000,
{
    assert(TINY_NUM * TINY_NUM == 0x100_0000_0000 && TINY_DEN * TINY_DEN == 0x10_0000
        && TINY_NUM * TINY_NUM * (TINY_DEN * TINY_DEN) == 0x1000_0000_0000_0000
        && SMALL_NUM * SMALL_DEN == 0x400_0000_0000_0000
        && SMALL_DEN * SMALL_DEN == 0x100_0000_0000) by (nonlinear_arith)
        requires
            TINY_NUM == 0x10_0000,
            TINY_DEN == 0x400,
            SMALL_NUM == 0x40_0000_0000,
            SMALL_DEN == 0x10_0000,
    ;
}

/// Bounds for the four-factor products of a cross or dot computation on
/// `tiny` operands.
proof fn lemma_tiny_products(a: RatV, b: RatV, c: RatV, d: RatV)
    requires
        rat_tiny(a),
        rat_tiny(b),
        rat_tiny(c),
        rat_tiny(d),
    ensures
        abs_int(a.num * b.num) <= TINY_NUM * TINY_NUM,
        abs_int(c.num * d.num) <= TINY_NUM * TINY_NUM,
        1 <= a.den * b.den <= TINY_DEN * TINY_DEN,
        1 <= c.den * d.den <= TINY_DEN * TINY_DEN,
        abs_int(a.num * b.num * (c.den * d.den)) <= TINY_NUM * TINY_NUM * (TINY_DEN * TINY_DEN),
        abs_int(c.num * d.num * (a.den * b.den)) <= TINY_NUM * TINY_NUM * (TINY_DEN * TINY_DEN),
        1 <= a.den * b.den * (c.den * d.den) <= TINY_DEN * TINY_DEN * (TINY_DEN * TINY_DEN),
{
    lemma_mul_bounds(a.num, TINY_NUM as int, b.num, TINY_NUM as int);
    lemma_mul_bounds(c.den, TINY_DEN as int, d.den, TINY_DEN as int);
    lemma_mul_bounds(a.num * b.num, TINY_NUM * TINY_NUM, c.den * d.den, TINY_DEN * TINY_DEN);
    lemma_mul_bounds(c.num, TINY_NUM as int, d.num, TINY_NUM as int);
    lemma_mul_bounds(a.den, TINY_DEN as int, b.den, TINY_DEN as int);
    lemma_mul_bounds(c.num * d.num, TINY_NUM * TINY_NUM, a.den * b.den, TINY_DEN * TINY_DEN);
    assert(1 <= a.den * b.den && a.den * b.den <= TINY_DEN * TINY_DEN) by (nonlinear_arith)
        requires 1 <= a.den <= TINY_DEN, 1 <= b.den <= TINY_DEN,
    ;
    assert(1 <= c.den * d.den && c.den * d.den <= TINY_DEN * TINY_DEN) by (nonlinear_arith)
        requires 1 <= c.den <= TINY_DEN, 1 <= d.den <= TINY_DEN,
    ;
    assert(1 <= (a.den * b.den) * (c.den * d.den) <= (TINY_DEN * TINY_DEN) * (TINY_DEN
        * TINY_DEN)) by (nonlinear_arith)
        requires
            1 <= a.den * b.den <= TINY_DEN * TINY_DEN,
            1 <= c.den * d.den <= TINY_DEN * TINY_DEN,
    ;
}

/// The raw fraction computed for a cross product has the value of the
/// model cross product.
proof fn lemma_cross_value(a: PointV, b: PointV, r: RatV, n: int, d: int)
    requires
        point_wf(a),
        point_wf(b),
        n == a.x.num * b.y.num * (a.y.den * b.x.den) - a.y.num * b.x.num * (a.x.den * b.y.den),
        d == a.x.den * b.y.den * (a.y.den * b.x.den),
        rat_eq(r, RatV { num: n, den: d }),
        rat_wf(r),
    ensures
        rat_eq(r, point_cross(a, b)),
{
    let c = point_cross(a, b);
    assert(n * c.den == c.num * d) by (nonlinear_arith)
        requires
            n == a.x.num * b.y.num * (a.y.den * b.x.den) - a.y.num * b.x.num * (a.x.den
                * b.y.den),
            d == a.x.den * b.y.den * (a.y.den * b.x.den),
            c == point_cross(a, b),
    ;
    assert(d >= 1) by (nonlinear_arith)
        requires
            d == a.x.den * b.y.den * (a.y.den * b.x.den),
            a.x.den >= 1, a.y.den >= 1, b.x.den >= 1, b.y.den >= 1,
    ;
    lemma_rat_eq_trans_through(r, RatV { num: n, den: d }, c);
}

/// The raw fraction computed for a dot product has the value of the model
/// dot product.
proof fn lemma_dot_value(a: PointV, b: PointV, r: RatV, n: int, d: int)
    requires
        point_wf(a),
        point_wf(b),
        n == a.x.num * b.x.num * (a.y.den * b.y.den) + a.y.num * b.y.num * (a.x.den * b.x.den),
        d == a.x.den * b.x.den * (a.y.den * b.y.den),
        rat_eq(r, RatV { num: n, den: d }),
        rat_wf(r),
    ensures
        rat_eq(r, point_dot(a, b)),
{
    let c = point_dot(a, b);
    assert(n * c.den == c.num * d) by (nonlinear_arith)
        requires
            n == a.x.num * b.x.num * (a.y.den * b.y.den) + a.y.num * b.y.num * (a.x.den
                * b.x.den),
            d == a.x.den * b.x.den * (a.y.den * b.y.den),
            c == point_dot(a, b),
    ;
    assert(d >= 1) by (nonlinear_arith)
        requires
            d == a.x.den * b.x.den * (a.y.den * b.y.den),
            a.x.den >= 1, a.y.den >= 1, b.x.den >= 1, b.y.den >= 1,
    ;
    lemma_rat_eq_trans_through(r, RatV { num: n, den: d }, c);
}

/// Value equality propagates from a raw fraction to anything
/// cross-multiplication-equal to it.
pub proof fn lemma_rat_eq_trans_through(r: RatV, mid: RatV, c: RatV)
    requires
        rat_eq(r, mid),
        mid.num * c.den == c.num * mid.den,
        mid.den >= 1,
        rat_wf(r),
        rat_wf(c),
    ensures
        rat_eq(r, c),
{
    assert(r.num * c.den == c.num * r.den) by (nonlinear_arith)
        requires
            r.num * mid.den == mid.num * r.den,
            mid.num * c.den == c.num * mid.den,
            mid.den >= 1,
    ;
}

/// Sum of two rationals, as a reduced stored value.
fn rat_add_exec(a: &Rat, b: &Rat) -> (r: Rat)
    requires
        rat_small(a@),
        rat_small(b@),
    ensures
        rat_eq(r@, rat_add(a@, b@)),
        rat_wf(r@),
{
    proof {
        lemma_mul_bounds(a@.num, SMALL_NUM as int, b@.den, SMALL_DEN as int);
        lemma_mul_bounds(b@.num, SMALL_NUM as int, a@.den, SMALL_DEN as int);
        lemma_mul_bounds(a@.den, SMALL_DEN as int, b@.den, SMALL_DEN as int);
        assert(a@.den * b@.den >= 1) by (nonlinear_arith)
            requires a@.den >= 1, b@.den >= 1,
        ;
    }
    let n: i128 = a.num() * b.den() + b.num() * a.den();
    let d: i128 = a.den() * b.den();
    Rat::new(n, d)
}

/// Difference of two rationals, as a reduced stored value.
fn rat_sub_exec(a: &Rat, b: &Rat) -> (r: Rat)
    requires
        rat_small(a@),
        rat_small(b@),
    ensures
        rat_eq(r@, rat_sub(a@, b@)),
        rat_wf(r@),
{
    proof {
        lemma_mul_bounds(a@.num, SMALL_NUM as int, b@.den, SMALL_DEN as int);
        lemma_mul_bounds(b@.num, SMALL_NUM as int, a@.den, SMALL_DEN as int);
        lemma_mul_bounds(a@.den, SMALL_DEN as int, b@.den, SMALL_DEN as int);
        assert(a@.den * b@.den >= 1) by (nonlinear_arith)
            requires a@.den >= 1, b@.den >= 1,
        ;
    }
    let n: i128 = a.num() * b.den() - b.num() * a.den();
    let d: i128 = a.den() * b.den();
    Rat::new(n, d)
}

/// Product of two rationals, as a reduced stored value.
fn rat_mul_exec(a: &Rat, b: &Rat) -> (r: Rat)
    requires
        rat_tiny(a@),
        rat_tiny(b@),
    ensures
        rat_eq(r@, rat_mul(a@, b@)),
        rat_wf(r@),
{
    proof {
        lemma_mul_bounds(a@.num, TINY_NUM as int, b@.num, TINY_NUM as int);
        lemma_mul_bounds(a@.den, TINY_DEN as int, b@.den, TINY_DEN as int);
        assert(a@.den * b@.den >= 1) by (nonlinear_arith)
            requires a@.den >= 1, b@.den >= 1,
        ;
    }
    let n: i128 = a.num() * b.num();
    let d: i128 = a.den() * b.den();
    Rat::new(n, d)
}

/// Quotient of two rationals (`b` nonzero): the result `r` satisfies
/// `r * b == a` as values.
fn rat_div_exec(a: &Rat, b: &Rat) -> (r: Rat)
    requires
        rat_tiny(a@),
        rat_tiny(b@),
        b@.num != 0,
    ensures
        rat_eq(rat_mul(r@, b@), a@),
        rat_wf(r@),
{
    proof {
        lemma_mul_bounds(a@.num, TINY_NUM as int, b@.den, TINY_DEN as int);
        lemma_mul_bounds(a@.den, TINY_DEN as int, b@.num, TINY_NUM as int);
    }
    let n0: i128 = a.num() * b.den();
    let d0: i128 = a.den() * b.num();
    let (n, d): (i128, i128) = if d0 < 0 {
        (-n0, -d0)
    } else {
        (n0, d0)
    };
    proof {
        assert(d0 != 0) by (nonlinear_arith)
            requires d0 == a@.den * b@.num, a@.den >= 1, b@.num != 0,
        ;
    }
    let r = Rat::new(n, d);
    proof {
        let q = r@;
        assert(q.num * d == n * q.den);
        assert(rat_mul(q, b@).num * a@.den == a@.num * rat_mul(q, b@).den) by (nonlinear_arith)
            requires
                q.num * (d as int) == (n as int) * q.den,
                n as int == (if d0 < 0 { -(a@.num * b@.den) } else { a@.num * b@.den }),
                d as int == (if d0 < 0 { -(a@.den * b@.num) } else { a@.den * b@.num }),
                d0 == a@.den * b@.num,
                a@.den >= 1,
                q.den >= 1,
                rat_mul(q, b@) == (RatV { num: q.num * b@.num, den: q.den * b@.den }),
        ;
    }
    r
}

} // verus!
