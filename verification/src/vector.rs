//! Two-dimensional fixed-point vectors and the norms and directions the
//! engine takes of their differences.
use vstd::prelude::*;
use crate::fixed::{
    divide, floor_sqrt, is_floor_sqrt, isqrt, lemma_floor_sqrt, quot, sat, saturate, ONE,
};

verus! {

/// A point or displacement in the plane, in fixed-point world units.
#[derive(Clone, Copy, Debug, PartialEq, Eq, Structural)]
pub struct Vec2 {
    pub x: i32,
    pub y: i32,
}

/// The Euclidean length of `(dx, dy)`, rounded down.
pub open spec fn norm(dx: int, dy: int) -> int {
    floor_sqrt(dx * dx + dy * dy)
}

/// One component of the unit vector along a vector of length `len` whose
/// matching component is `c`; zero for a vector without length.
pub open spec fn direction(c: int, len: int) -> int {
    if len <= 0 {
        0
    } else {
        quot(c * ONE, len)
    }
}

/// The squared distance between two points.
pub open spec fn dist_sq(a: Vec2, b: Vec2) -> int {
    (a.x - b.x) * (a.x - b.x) + (a.y - b.y) * (a.y - b.y)
}

/// The vector `v` turned by a quarter turn: `(x, y)` becomes `(-y, x)`.
pub open spec fn perp(v: Vec2) -> Vec2 {
    Vec2 { x: sat(-v.y) as i32, y: v.x }
}

/// The sum of two vectors, each component saturating.
pub open spec fn plus(u: Vec2, v: Vec2) -> Vec2 {
    Vec2 { x: sat(u.x + v.x) as i32, y: sat(u.y + v.y) as i32 }
}

/// The difference of two vectors, each component saturating.
pub open spec fn minus(u: Vec2, v: Vec2) -> Vec2 {
    Vec2 { x: sat(u.x - v.x) as i32, y: sat(u.y - v.y) as i32 }
}

/// The product of two bounded integers is bounded by the product of the
/// bounds.
pub proof fn lemma_product_bound(a: int, b: int, ma: int, mb: int)
    requires
        -ma <= a <= ma,
        -mb <= b <= mb,
    ensures
        -(ma * mb) <= a * b <= ma * mb,
{
    assert(-(ma * mb) <= a * b <= ma * mb) by (nonlinear_arith)
        requires
            -ma <= a <= ma,
            -mb <= b <= mb,
    ;
}

/// Rounding a quotient toward zero never takes it further from zero than
/// the dividend, and keeps the dividend's sign.
pub proof fn lemma_quot_shrinks(a: int, b: int, m: int)
    requires
        b >= 1,
        -m <= a <= m,
    ensures
        -m <= quot(a, b) <= m,
        a >= 0 ==> 0 <= quot(a, b) <= a,
        a <= 0 ==> a <= quot(a, b) <= 0,
{
    if a >= 0 {
        assert(0 <= a / b <= a) by (nonlinear_arith)
            requires
                a >= 0,
                b >= 1,
        ;
    } else {
        assert(0 <= (-a) / b <= -a) by (nonlinear_arith)
            requires
                -a >= 0,
                b >= 1,
        ;
    }
}

/// No component of a vector is longer than the vector, so a direction never
/// leaves `[-ONE, ONE]` and keeps the sign of its component.
pub proof fn lemma_direction_bounds(dx: int, dy: int)
    ensures
        norm(dx, dy) >= 0,
        -norm(dx, dy) <= dx <= norm(dx, dy),
        -norm(dx, dy) <= dy <= norm(dx, dy),
        -ONE <= direction(dx, norm(dx, dy)) <= ONE,
        -ONE <= direction(dy, norm(dx, dy)) <= ONE,
        dx >= 0 ==> direction(dx, norm(dx, dy)) >= 0,
        dx <= 0 ==> direction(dx, norm(dx, dy)) <= 0,
        dy >= 0 ==> direction(dy, norm(dx, dy)) >= 0,
        dy <= 0 ==> direction(dy, norm(dx, dy)) <= 0,
        (dx != 0 || dy != 0) ==> norm(dx, dy) > 0,
{
    let n = dx * dx + dy * dy;
    assert(n >= 0 && dx * dx <= n && dy * dy <= n && ((dx != 0 || dy != 0) ==> n > 0))
        by (nonlinear_arith)
        requires
            n == dx * dx + dy * dy,
    ;
    lemma_floor_sqrt(n);
    let r = norm(dx, dy);
    lemma_component_below(dx, n, r);
    lemma_component_below(dy, n, r);
    lemma_quot_bounds(dx, r);
    lemma_quot_bounds(dy, r);
}

proof fn lemma_component_below(c: int, n: int, r: int)
    requires
        is_floor_sqrt(n, r),
        c * c <= n,
    ensures
        -r <= c <= r,
{
    if c > r {
        assert((r + 1) * (r + 1) <= c * c) by (nonlinear_arith)
            requires
                0 <= r,
                r + 1 <= c,
        ;
    }
    if c < -r {
        assert((r + 1) * (r + 1) <= c * c) by (nonlinear_arith)
            requires
                0 <= r,
                c <= -(r + 1),
        ;
    }
}

proof fn lemma_quot_bounds(c: int, r: int)
    requires
        -r <= c <= r,
    ensures
        -ONE <= direction(c, r) <= ONE,
        c >= 0 ==> direction(c, r) >= 0,
        c <= 0 ==> direction(c, r) <= 0,
{
    if r > 0 {
        if c >= 0 {
            assert(0 <= (c * ONE) / r <= ONE) by (nonlinear_arith)
                requires
                    0 <= c <= r,
                    r > 0,
            ;
        } else {
            assert(0 <= ((-c) * ONE) / r <= ONE) by (nonlinear_arith)
                requires
                    0 <= -c <= r,
                    r > 0,
            ;
            assert(-(c * ONE) == (-c) * ONE) by (nonlinear_arith);
        }
    }
}

impl Vec2 {
    /// The vector with the given components.
    pub fn new(x: i32, y: i32) -> (v: Vec2)
        ensures
            v == (Vec2 { x, y }),
    {
        Vec2 { x, y }
    }

    /// The vector without length.
    pub fn zero() -> (v: Vec2)
        ensures
            v == (Vec2 { x: 0, y: 0 }),
    {
        Vec2 { x: 0, y: 0 }
    }

    /// The sum of this vector and `o`, each component saturating.
    pub fn plus(self, o: Vec2) -> (v: Vec2)
        ensures
            v == plus(self, o),
    {
        Vec2 {
            x: saturate(self.x as i128 + o.x as i128),
            y: saturate(self.y as i128 + o.y as i128),
        }
    }

    /// The difference of this vector and `o`, each component saturating.
    pub fn minus(self, o: Vec2) -> (v: Vec2)
        ensures
            v == minus(self, o),
    {
        Vec2 {
            x: saturate(self.x as i128 - o.x as i128),
            y: saturate(self.y as i128 - o.y as i128),
        }
    }

    /// This vector turned by a quarter turn.
    pub fn perp(self) -> (v: Vec2)
        ensures
            v == perp(self),
    {
        Vec2 { x: saturate(-(self.y as i128)), y: self.x }
    }
}

/// Computes the length of `(dx, dy)`, rounded down.
pub fn norm_of(dx: i64, dy: i64) -> (r: u64)
    ensures
        r == norm(dx as int, dy as int),
{
    let wx: i128 = dx as i128;
    let wy: i128 = dy as i128;
    proof {
        lemma_product_bound(wx as int, wx as int, 0x8000_0000_0000_0000, 0x8000_0000_0000_0000);
        lemma_product_bound(wy as int, wy as int, 0x8000_0000_0000_0000, 0x8000_0000_0000_0000);
        assert(wx * wx >= 0 && wy * wy >= 0) by (nonlinear_arith);
    }
    let n: u128 = (wx * wx) as u128 + (wy * wy) as u128;
    isqrt(n)
}

/// Computes one component of the unit vector along a vector of length `len`,
/// from the matching component of that vector, which is no longer than the
/// vector.
pub fn direction_of(c: i64, len: u64) -> (u: i32)
    requires
        -(len as int) <= c <= len as int,
    ensures
        u == direction(c as int, len as int),
        -ONE <= u <= ONE,
{
    if len == 0 {
        0
    } else {
        proof {
            lemma_quot_bounds(c as int, len as int);
        }
        let wide: i128 = (c as i128) * (ONE as i128);
        divide(wide, len as i128) as i32
    }
}

} // verus!
