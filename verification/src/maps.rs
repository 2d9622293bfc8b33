//! Concrete dynamical systems in fixed-point arithmetic: a Hénon-type
//! quadratic map, and the two branches of the sign-flip inverse relation.

use vstd::arithmetic::div_mod::{lemma_div_nonincreasing, lemma_div_pos_is_pos};
use vstd::prelude::*;

use crate::geometry::Point;
use crate::subdivision::ForwardMap;

verus! {

/// Units per 1.0 in the fixed-point convention of the bundled maps.
pub const HENON_SCALE: i64 = 1_000_000;

/// Largest admitted magnitude of a map parameter (1000.0 at `HENON_SCALE`).
pub const PARAM_LIMIT: i64 = 1_000_000_000;

/// Largest input coordinate the quadratic map evaluates exactly; beyond it
/// the map saturates to the far point.
pub const INPUT_LIMIT: i64 = 1_000_000_000_000;

/// The saturation value standing in for a non-finite image. It lies outside
/// every domain with bounded corners, so saturated points are pruned by the
/// engine's domain check.
pub open spec fn far_point() -> Point {
    Point { x: i64::MAX, y: i64::MAX }
}

/// Truncating division (quotient rounded towards zero) for a positive
/// divisor; the convention of Rust's `/` on machine integers.
pub open spec fn tdiv_spec(n: int, d: int) -> int
    recommends
        d > 0,
{
    if n >= 0 {
        n / d
    } else {
        -((-n) / d)
    }
}

/// Truncating division never grows the magnitude of the dividend.
pub proof fn lemma_tdiv_bound(n: int, d: int, m: int)
    requires
        d >= 1,
        0 <= m,
        -m <= n <= m,
    ensures
        -m <= tdiv_spec(n, d) <= m,
{
    if n >= 0 {
        lemma_div_pos_is_pos(n, d);
        lemma_div_nonincreasing(n, d);
    } else {
        lemma_div_pos_is_pos(-n, d);
        lemma_div_nonincreasing(-n, d);
    }
}

/// Truncating division on `i128`, for positive divisors.
pub fn tdiv_i128(n: i128, d: i128) -> (q: i128)
    requires
        d > 0,
        n > i128::MIN,
    ensures
        q == tdiv_spec(n as int, d as int),
{
    if n >= 0 {
        let q = (n as u128) / (d as u128);
        proof {
            lemma_div_pos_is_pos(n as int, d as int);
            lemma_div_nonincreasing(n as int, d as int);
        }
        q as i128
    } else {
        let m = ((-n) as u128) / (d as u128);
        proof {
            lemma_div_pos_is_pos(-(n as int), d as int);
            lemma_div_nonincreasing(-(n as int), d as int);
        }
        -(m as i128)
    }
}

/// A Hénon-type quadratic map `(x, y) -> (1 - a x^2 + y, b x)` in fixed-point
/// arithmetic at `HENON_SCALE` units per 1.0. Inputs beyond `INPUT_LIMIT`,
/// parameters beyond their admitted range, and images that do not fit an
/// `i64` all saturate to the far point, the fixed-point stand-in for a
/// non-finite value.
pub struct HenonMap {
    pub a: i64,
    pub b: i64,
}

impl HenonMap {
    /// Parameters and input small enough for an exact image.
    pub open spec fn defined(self, p: Point) -> bool {
        &&& 0 <= self.a <= PARAM_LIMIT
        &&& -PARAM_LIMIT <= self.b <= PARAM_LIMIT
        &&& -INPUT_LIMIT <= p.x <= INPUT_LIMIT
        &&& -INPUT_LIMIT <= p.y <= INPUT_LIMIT
    }

    /// The image of `p`: exact fixed-point evaluation where defined, the far
    /// point elsewhere.
    pub open spec fn henon_spec(self, p: Point) -> Point {
        if !self.defined(p) {
            far_point()
        } else {
            let q1 = (p.x * p.x) / (HENON_SCALE as int);
            let q2 = (self.a * q1) / (HENON_SCALE as int);
            let rx = HENON_SCALE - q2 + p.y;
            let ry = tdiv_spec(self.b * p.x, HENON_SCALE as int);
            if rx < i64::MIN || rx > i64::MAX || ry < i64::MIN || ry > i64::MAX {
                far_point()
            } else {
                Point { x: rx as i64, y: ry as i64 }
            }
        }
    }

    pub fn new(a: i64, b: i64) -> (r: Self)
        requires
            0 <= a <= PARAM_LIMIT,
            -PARAM_LIMIT <= b <= PARAM_LIMIT,
        ensures
            r == (HenonMap { a, b }),
    {
        HenonMap { a, b }
    }
}

impl ForwardMap for HenonMap {
    open spec fn map_spec(&self, p: Point) -> Point {
        self.henon_spec(p)
    }

    fn apply(&self, p: Point) -> (r: Point) {
        if !(self.a >= 0 && self.a <= PARAM_LIMIT && self.b >= -PARAM_LIMIT && self.b <= PARAM_LIMIT
            && p.x >= -INPUT_LIMIT && p.x <= INPUT_LIMIT && p.y >= -INPUT_LIMIT && p.y <= INPUT_LIMIT) {
            return Point { x: i64::MAX, y: i64::MAX };
        }
        let xi = p.x as i128;
        proof {
            crate::geometry::lemma_square_bound(xi as int, INPUT_LIMIT as int);
        }
        let xx = xi * xi;
        let q1 = tdiv_i128(xx, HENON_SCALE as i128);
        proof {
            lemma_div_pos_is_pos(xx as int, HENON_SCALE as int);
            lemma_div_nonincreasing(xx as int, HENON_SCALE as int);
            assert(0 <= (self.a as int) * q1 <= 1_000_000_000_000_000_000_000_000_000_000_000int)
                by (nonlinear_arith)
                requires
                    0 <= self.a <= 1_000_000_000,
                    0 <= q1 <= 1_000_000_000_000_000_000_000_000int,
            ;
        }
        let t = (self.a as i128) * q1;
        let q2 = tdiv_i128(t, HENON_SCALE as i128);
        proof {
            lemma_div_pos_is_pos(t as int, HENON_SCALE as int);
            lemma_div_nonincreasing(t as int, HENON_SCALE as int);
            assert(-1_000_000_000_000_000_000_000int <= (self.b as int) * (p.x as int)
                <= 1_000_000_000_000_000_000_000int) by (nonlinear_arith)
                requires
                    -1_000_000_000 <= self.b <= 1_000_000_000,
                    -1_000_000_000_000 <= p.x <= 1_000_000_000_000,
            ;
        }
        let rx = (HENON_SCALE as i128) - q2 + (p.y as i128);
        let ty = (self.b as i128) * (p.x as i128);
        let ry = tdiv_i128(ty, HENON_SCALE as i128);
        proof {
            lemma_tdiv_bound(ty as int, HENON_SCALE as int, 1_000_000_000_000_000_000_000int);
        }
        if rx < i64::MIN as i128 || rx > i64::MAX as i128 || ry < i64::MIN as i128 || ry > i64::MAX as i128 {
            Point { x: i64::MAX, y: i64::MAX }
        } else {
            Point { x: rx as i64, y: ry as i64 }
        }
    }
}

/// The identity map: the `+x` branch of the sign-flip inverse relation.
pub struct IdentityMap;

impl ForwardMap for IdentityMap {
    open spec fn map_spec(&self, p: Point) -> Point {
        p
    }

    fn apply(&self, p: Point) -> (r: Point) {
        p
    }
}

/// Negation of one coordinate; the one unrepresentable case saturates.
pub open spec fn neg_coord_spec(v: i64) -> i64 {
    if v == i64::MIN {
        i64::MAX
    } else {
        (-(v as int)) as i64
    }
}

/// The point reflection through the origin: the `-x` branch of the sign-flip
/// inverse relation.
pub struct NegationMap;

impl ForwardMap for NegationMap {
    open spec fn map_spec(&self, p: Point) -> Point {
        Point { x: neg_coord_spec(p.x), y: neg_coord_spec(p.y) }
    }

    fn apply(&self, p: Point) -> (r: Point) {
        let x = if p.x == i64::MIN { i64::MAX } else { -p.x };
        let y = if p.y == i64::MIN { i64::MAX } else { -p.y };
        Point { x, y }
    }
}

} // verus!
