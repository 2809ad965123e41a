//! Exact rational numbers over `i128`, kept in reduced form.
//!
//! Coordinates of intersection points are true rationals (a ray meeting a
//! segment at parameter `t = 3/5` has exactly representable coordinates),
//! so the whole geometry core works on this type instead of approximate
//! floating point. Every stored value is reduced by the greatest common
//! divisor of its parts and carries a positive denominator, so two equal
//! values always have identical representations and exact equality is
//! reliable for deduplication.

use vstd::prelude::*;
use vstd::arithmetic::div_mod::{
    lemma_add_mod_noop, lemma_fundamental_div_mod, lemma_mod_multiples_basic,
    lemma_mod_self_0, lemma_small_mod,
};

verus! {

/// Largest magnitude a stored numerator may have. Every operation in the
/// crate proves its results stay inside this bound, so comparisons by
/// cross-multiplication never overflow an `i128`.
pub const NUM_LIMIT: i128 = 0x2000_0000_0000_0000;

/// Largest value a stored denominator may have.
pub const DEN_LIMIT: i128 = 0x80_0000_0000_00;

/// Mathematical model of a rational number: an integer numerator over a
/// positive integer denominator. Contracts speak in terms of this model.
pub ghost struct RatV {
    pub num: int,
    pub den: int,
}

/// A model rational is well formed when its denominator is positive.
pub open spec fn rat_wf(r: RatV) -> bool {
    r.den >= 1
}

/// Value equality of two model rationals, by cross-multiplication.
pub open spec fn rat_eq(a: RatV, b: RatV) -> bool {
    a.num * b.den == b.num * a.den
}

/// `a <= b` as rational values (denominators must be positive).
pub open spec fn rat_le(a: RatV, b: RatV) -> bool {
    a.num * b.den <= b.num * a.den
}

/// `a < b` as rational values (denominators must be positive).
pub open spec fn rat_lt(a: RatV, b: RatV) -> bool {
    a.num * b.den < b.num * a.den
}

/// Sum of two model rationals.
pub open spec fn rat_add(a: RatV, b: RatV) -> RatV {
    RatV { num: a.num * b.den + b.num * a.den, den: a.den * b.den }
}

/// Difference of two model rationals.
pub open spec fn rat_sub(a: RatV, b: RatV) -> RatV {
    RatV { num: a.num * b.den - b.num * a.den, den: a.den * b.den }
}

/// Product of two model rationals.
pub open spec fn rat_mul(a: RatV, b: RatV) -> RatV {
    RatV { num: a.num * b.num, den: a.den * b.den }
}

/// The model rational with value of the integer `n`.
pub open spec fn rat_int(n: int) -> RatV {
    RatV { num: n, den: 1 }
}

/// Magnitude of an integer.
pub open spec fn abs_int(n: int) -> int {
    if n < 0 {
        -n
    } else {
        n
    }
}

/// Greatest common divisor, by Euclid's recursion.
pub open spec fn gcd(a: nat, b: nat) -> nat
    decreases b,
{
    if b == 0 {
        a
    } else {
        gcd(b, a % b)
    }
}

/// The gcd of two numbers divides both of them, and is positive as soon as
/// the second one is.
pub proof fn lemma_gcd_properties(a: nat, b: nat)
    ensures
        a > 0 || b > 0 ==> gcd(a, b) > 0,
        gcd(a, b) > 0 ==> (a as int) % (gcd(a, b) as int) == 0 && (b as int) % (gcd(a, b) as int)
            == 0,
    decreases b,
{
    if b == 0 {
        if a > 0 {
            lemma_mod_self_0(a as int);
            lemma_small_mod(0nat, a);
        }
    } else {
        lemma_gcd_properties(b, a % b);
        let ai = a as int;
        let bi = b as int;
        let g = gcd(b, a % b) as int;
        assert(g > 0);
        assert(bi % g == 0);
        assert((ai % bi) as int % g == 0);
        lemma_fundamental_div_mod(ai, bi);
        assert(ai == bi * (ai / bi) + ai % bi);
        let k = ai / bi;
        lemma_fundamental_div_mod(bi, g);
        assert(bi == g * (bi / g)) by {
            assert(bi == g * (bi / g) + bi % g);
        }
        assert(bi * k == ((bi / g) * k) * g) by (nonlinear_arith)
            requires
                bi == g * (bi / g),
        ;
        lemma_mod_multiples_basic((bi / g) * k, g);
        assert((bi * k) % g == 0);
        lemma_add_mod_noop(bi * k, ai % bi, g);
        lemma_small_mod(0nat, g as nat);
        assert(ai % g == 0);
    }
}

/// Reduction of a fraction to lowest terms, with the sign carried by the
/// numerator. This is the canonical representation every stored rational
/// uses.
pub open spec fn spec_reduce(num: int, den: int) -> RatV
    recommends
        den >= 1,
{
    let g = gcd(abs_int(num) as nat, den as nat) as int;
    RatV {
        num: if num < 0 {
            -(abs_int(num) / g)
        } else {
            abs_int(num) / g
        },
        den: den / g,
    }
}

/// Reducing a fraction keeps its value, keeps the denominator positive,
/// and never grows either part.
pub proof fn lemma_reduce_value(num: int, den: int)
    requires
        den >= 1,
    ensures
        rat_wf(spec_reduce(num, den)),
        rat_eq(spec_reduce(num, den), RatV { num, den }),
        abs_int(spec_reduce(num, den).num) <= abs_int(num),
        spec_reduce(num, den).den <= den,
{
    let m = abs_int(num);
    let g = gcd(m as nat, den as nat) as int;
    lemma_gcd_properties(m as nat, den as nat);
    assert(g >= 1);
    assert(m % g == 0);
    assert(den % g == 0);
    lemma_fundamental_div_mod(m, g);
    lemma_fundamental_div_mod(den, g);
    let mq = m / g;
    let dq = den / g;
    assert(m == g * mq);
    assert(den == g * dq);
    assert(mq >= 0 && dq >= 1 && mq <= m && dq <= den) by (nonlinear_arith)
        requires m == g * mq, den == g * dq, g >= 1, m >= 0, den >= 1,
    ;
    assert(mq * den == m * dq) by (nonlinear_arith)
        requires m == g * mq, den == g * dq,
    ;
    if num < 0 {
        assert((-mq) * den == num * dq) by (nonlinear_arith)
            requires mq * den == m * dq, m == -num,
        ;
    }
}

/// The value order on well-formed rationals is transitive.
pub proof fn lemma_rat_le_trans(a: RatV, b: RatV, c: RatV)
    requires
        rat_wf(a),
        rat_wf(b),
        rat_wf(c),
        rat_le(a, b),
        rat_le(b, c),
    ensures
        rat_le(a, c),
{
    assert(a.num * c.den <= c.num * a.den) by (nonlinear_arith)
        requires
            a.num * b.den <= b.num * a.den,
            b.num * c.den <= c.num * b.den,
            a.den >= 1,
            b.den >= 1,
            c.den >= 1,
    ;
}

/// An exact rational number in reduced form: positive denominator, parts
/// bounded so that cross-multiplied comparisons stay inside `i128`.
#[derive(Clone, Copy, Debug, PartialEq, Eq, Structural)]
pub struct Rat {
    num: i128,
    den: i128,
}

impl View for Rat {
    type V = RatV;

    closed spec fn view(&self) -> RatV {
        RatV { num: self.num as int, den: self.den as int }
    }
}

impl Rat {
    /// Representation invariant: reduced-form storage is well formed and
    /// within the crate's bounds. Established at every construction;
    /// available through `use_type_invariant`.
    #[verifier::type_invariant]
    pub open spec fn inv(self) -> bool {
        rat_wf(self@) && abs_int(self@.num) <= NUM_LIMIT && self@.den <= DEN_LIMIT
    }

    /// The stored numerator.
    pub fn num(&self) -> (n: i128)
        ensures
            n as int == self@.num,
    {
        self.num
    }

    /// The stored denominator (always positive).
    pub fn den(&self) -> (d: i128)
        ensures
            d as int == self@.den,
            1 <= d,
    {
        proof {
            use_type_invariant(&*self);
        }
        self.den
    }

    /// The rational with the value of the integer `n`.
    pub fn from_int(n: i128) -> (r: Rat)
        requires
            -NUM_LIMIT <= n <= NUM_LIMIT,
        ensures
            r@ == rat_int(n as int),
            rat_wf(r@),
    {
        Rat { num: n, den: 1 }
    }

    /// The rational `num / den`, reduced to lowest terms.
    pub fn new(num: i128, den: i128) -> (r: Rat)
        requires
            1 <= den <= DEN_LIMIT,
            -NUM_LIMIT <= num <= NUM_LIMIT,
        ensures
            r@ == spec_reduce(num as int, den as int),
            rat_eq(r@, RatV { num: num as int, den: den as int }),
            rat_wf(r@),
    {
        proof {
            lemma_reduce_value(num as int, den as int);
        }
        let neg: bool = num < 0;
        let m: u128 = if neg {
            (-num) as u128
        } else {
            num as u128
        };
        let d: u128 = den as u128;
        let g: u128 = gcd_exec(m, d);
        proof {
            lemma_gcd_properties(m as nat, d as nat);
            lemma_fundamental_div_mod(m as int, g as int);
            lemma_fundamental_div_mod(d as int, g as int);
            assert(m / g <= m as int && 1 <= d / g <= d as int) by (nonlinear_arith)
                requires
                    m as int == g as int * (m as int / g as int),
                    d as int == g as int * (d as int / g as int),
                    g >= 1,
                    d >= 1,
            ;
        }
        let mq: u128 = m / g;
        let dq: u128 = d / g;
        Rat { num: if neg { -(mq as i128) } else { mq as i128 }, den: dq as i128 }
    }

    /// Exact value equality, decided by cross-multiplication (reduced
    /// forms also make it coincide with representation equality at run
    /// time).
    pub fn eq_value(&self, other: &Rat) -> (r: bool)
        ensures
            r == rat_eq(self@, other@),
    {
        proof {
            use_type_invariant(&*self);
            use_type_invariant(&*other);
            lemma_mul_bounds(self.num as int, NUM_LIMIT as int, other.den as int, DEN_LIMIT as int);
            lemma_mul_bounds(other.num as int, NUM_LIMIT as int, self.den as int, DEN_LIMIT as int);
        }
        self.num * other.den == other.num * self.den
    }

    /// Exact value comparison `self < other`.
    pub fn lt_value(&self, other: &Rat) -> (r: bool)
        ensures
            r == rat_lt(self@, other@),
    {
        proof {
            use_type_invariant(&*self);
            use_type_invariant(&*other);
            lemma_mul_bounds(self.num as int, NUM_LIMIT as int, other.den as int, DEN_LIMIT as int);
            lemma_mul_bounds(other.num as int, NUM_LIMIT as int, self.den as int, DEN_LIMIT as int);
        }
        self.num * other.den < other.num * self.den
    }

    /// Exact value comparison `self <= other`.
    pub fn le_value(&self, other: &Rat) -> (r: bool)
        ensures
            r == rat_le(self@, other@),
    {
        proof {
            use_type_invariant(&*self);
            use_type_invariant(&*other);
            lemma_mul_bounds(self.num as int, NUM_LIMIT as int, other.den as int, DEN_LIMIT as int);
            lemma_mul_bounds(other.num as int, NUM_LIMIT as int, self.den as int, DEN_LIMIT as int);
        }
        self.num * other.den <= other.num * self.den
    }

    /// Two rationals with equal mathematical models are equal values.
    pub proof fn lemma_view_injective(a: Rat, b: Rat)
        requires
            a@ == b@,
        ensures
            a == b,
    {
        assert(a.num as int == b.num as int);
        assert(a.den as int == b.den as int);
        assert(a.num == b.num && a.den == b.den);
    }

    /// Whether the value is an integer (denominator 1 in reduced form).
    pub fn is_int(&self) -> (r: bool)
        ensures
            r == (self@.den == 1),
    {
        self.den == 1
    }
}

/// A product of two factors is bounded by the product of their bounds.
pub proof fn lemma_mul_bounds(a: int, abound: int, b: int, bbound: int)
    requires
        abs_int(a) <= abound,
        abs_int(b) <= bbound,
    ensures
        abs_int(a * b) <= abound * bbound,
{
    assert(abs_int(a * b) <= abound * bbound) by (nonlinear_arith)
        requires
            -abound <= a <= abound,
            -bbound <= b <= bbound,
    ;
}

/// Euclid's algorithm.
fn gcd_exec(a0: u128, b0: u128) -> (g: u128)
    ensures
        g as nat == gcd(a0 as nat, b0 as nat),
{
    let mut a: u128 = a0;
    let mut b: u128 = b0;
    while b != 0
        invariant
            gcd(a as nat, b as nat) == gcd(a0 as nat, b0 as nat),
        decreases b,
    {
        let r: u128 = a % b;
        a = b;
        b = r;
    }
    a
}

} // verus!
