//! What two balls do to each other: the long-range force between them and
//! the correction that pushes an overlapping pair apart.
use vstd::prelude::*;
use crate::constants::BALL_SIZE;
use crate::fixed::{divide, quot, sat, saturate, ONE};
use crate::vector::{
    direction, direction_of, dist_sq, lemma_direction_bounds, lemma_product_bound,
    lemma_quot_shrinks, minus, norm, norm_of, plus, Vec2,
};

verus! {

/// Divisor of the long-range force at each accumulation: a ball accumulates
/// the force of a pair once in each of the relaxation passes of a step.
pub const FORCE_SHARE: i32 = 8;

/// Two balls with the given centres and radii overlap: their centres are
/// closer than the sum of the radii.
pub open spec fn overlapping(pos_a: Vec2, scale_a: int, pos_b: Vec2, scale_b: int) -> bool {
    dist_sq(pos_a, pos_b) < (scale_a + scale_b) * (scale_a + scale_b)
}

/// Two balls of the engine's radius overlap.
pub open spec fn touching(pos_a: Vec2, pos_b: Vec2) -> bool {
    overlapping(pos_a, BALL_SIZE as int, pos_b, BALL_SIZE as int)
}

/// One component of the long-range force: the unit direction `u` times the
/// force scale, over the squared distance `d2` in world units or one,
/// whichever is larger.
pub open spec fn force_axis(u: int, scale: int, d2: int) -> int {
    sat(quot(u * scale * ONE, if d2 > ONE * ONE { d2 } else { ONE * ONE }))
}

/// The long-range force on a ball at `pos_a` from one at `pos_b`: along the
/// line from `pos_b` to `pos_a`, falling with the square of the distance,
/// and none at all for centres closer than one radius.
pub open spec fn long_range_force(pos_a: Vec2, pos_b: Vec2, scale: int) -> Vec2 {
    let dx = pos_a.x - pos_b.x;
    let dy = pos_a.y - pos_b.y;
    let dist = norm(dx, dy);
    if dist < BALL_SIZE {
        Vec2 { x: 0, y: 0 }
    } else {
        Vec2 {
            x: force_axis(direction(dx, dist), scale, dx * dx + dy * dy) as i32,
            y: force_axis(direction(dy, dist), scale, dx * dx + dy * dy) as i32,
        }
    }
}

/// The share of a force that one visit of a pair accumulates.
pub open spec fn share(f: Vec2) -> Vec2 {
    Vec2 { x: quot(f.x as int, FORCE_SHARE as int) as i32, y: quot(f.y as int, FORCE_SHARE as int) as i32 }
}

/// Three quarters of the signed gap between two balls whose centres are
/// `dist` apart: negative while they overlap.
pub open spec fn slack(dist: int) -> int {
    quot(3 * (dist - 2 * BALL_SIZE), 4)
}

/// One component of the correction of a pair: half the slack along the unit
/// direction `u`.
pub open spec fn shift_axis(u: int, dist: int) -> int {
    sat(quot(u * slack(dist), 2 * ONE))
}

/// The correction of a pair at `pos_a` and `pos_b`: subtracted from the
/// first ball and added to the second. It is zero for coincident centres,
/// which have no direction.
pub open spec fn separation(pos_a: Vec2, pos_b: Vec2) -> Vec2 {
    let dx = pos_a.x - pos_b.x;
    let dy = pos_a.y - pos_b.y;
    let dist = norm(dx, dy);
    Vec2 {
        x: shift_axis(direction(dx, dist), dist) as i32,
        y: shift_axis(direction(dy, dist), dist) as i32,
    }
}

/// Positions and accumulated forces of all balls.
pub struct Cloud {
    pub pos: Seq<Vec2>,
    pub force: Seq<Vec2>,
}

impl Cloud {
    /// Both sequences have one entry for each of `n` balls.
    pub open spec fn has(self, n: int) -> bool {
        self.pos.len() == n && self.force.len() == n
    }
}

/// The cloud after one visit of the pair `(a, b)`, seen from a ball that
/// stood at `pos_a` when its visits began. The visitor `a` accumulates its
/// share of the long-range force from `b`. In a `mutual` visit `b`
/// accumulates its share from `a` too: that is the visit of a pair within
/// one cell, which is made once in a pass. A pair in two cells is visited
/// from each of them, and each visit serves its visitor alone. If the two
/// overlap, `a` moves back by the separation and `b` forward by it.
pub open spec fn visited(
    c: Cloud,
    pos_a: Vec2,
    a: int,
    b: int,
    scale: int,
    mutual: bool,
) -> Cloud {
    let pos_b = c.pos[b];
    let f1 = c.force.update(a, plus(c.force[a], share(long_range_force(pos_a, pos_b, scale))));
    let f2 = if mutual {
        f1.update(b, plus(f1[b], share(long_range_force(pos_b, pos_a, scale))))
    } else {
        f1
    };
    if touching(pos_a, pos_b) {
        let s = separation(pos_a, pos_b);
        let p1 = c.pos.update(a, minus(c.pos[a], s));
        let p2 = p1.update(b, plus(p1[b], s));
        Cloud { pos: p2, force: f2 }
    } else {
        Cloud { pos: c.pos, force: f2 }
    }
}

/// Tells whether two balls with the given centres and radii overlap.
pub fn ball_collides(pos_a: Vec2, scale_a: i32, pos_b: Vec2, scale_b: i32) -> (hit: bool)
    ensures
        hit == overlapping(pos_a, scale_a as int, pos_b, scale_b as int),
{
    let dx: i128 = pos_a.x as i128 - pos_b.x as i128;
    let dy: i128 = pos_a.y as i128 - pos_b.y as i128;
    let reach: i128 = scale_a as i128 + scale_b as i128;
    proof {
        lemma_product_bound(dx as int, dx as int, 0x1_0000_0000, 0x1_0000_0000);
        lemma_product_bound(dy as int, dy as int, 0x1_0000_0000, 0x1_0000_0000);
        lemma_product_bound(reach as int, reach as int, 0x1_0000_0000, 0x1_0000_0000);
    }
    dx * dx + dy * dy < reach * reach
}

/// Computes one component of the long-range force.
fn force_component(u: i32, scale: i32, d2: i128) -> (f: i32)
    requires
        -ONE <= u <= ONE,
        0 <= d2,
    ensures
        f == force_axis(u as int, scale as int, d2 as int),
{
    let floor: i128 = 10_000_000_000;
    let den: i128 = if d2 > floor { d2 } else { floor };
    proof {
        assert(floor == ONE * ONE) by (nonlinear_arith)
            requires
                floor == 10_000_000_000,
                ONE == 100_000,
        ;
        lemma_product_bound(u as int, scale as int, ONE as int, 0x8000_0000);
        lemma_product_bound(u * scale, ONE as int, ONE * 0x8000_0000, ONE as int);
    }
    let num: i128 = (u as i128) * (scale as i128) * (ONE as i128);
    saturate(divide(num, den))
}

/// Computes the long-range force on a ball at `pos_a` from one at `pos_b`.
pub fn force(pos_a: Vec2, pos_b: Vec2, scale: i32) -> (f: Vec2)
    ensures
        f == long_range_force(pos_a, pos_b, scale as int),
{
    let dx: i64 = pos_a.x as i64 - pos_b.x as i64;
    let dy: i64 = pos_a.y as i64 - pos_b.y as i64;
    let dist: u64 = norm_of(dx, dy);
    if dist < BALL_SIZE as u64 {
        return Vec2::zero();
    }
    proof {
        lemma_direction_bounds(dx as int, dy as int);
        lemma_product_bound(dx as int, dx as int, 0x1_0000_0000, 0x1_0000_0000);
        lemma_product_bound(dy as int, dy as int, 0x1_0000_0000, 0x1_0000_0000);
    }
    let d2: i128 = (dx as i128) * (dx as i128) + (dy as i128) * (dy as i128);
    assert(d2 >= 0) by (nonlinear_arith)
        requires
            d2 == dx * dx + dy * dy,
    ;
    let fx: i32 = force_component(direction_of(dx, dist), scale, d2);
    let fy: i32 = force_component(direction_of(dy, dist), scale, d2);
    Vec2 { x: fx, y: fy }
}

/// Computes the share of a force that one visit accumulates.
fn force_share(f: Vec2) -> (s: Vec2)
    ensures
        s == share(f),
{
    proof {
        lemma_quot_shrinks(f.x as int, FORCE_SHARE as int, 0x8000_0000);
        lemma_quot_shrinks(f.y as int, FORCE_SHARE as int, 0x8000_0000);
    }
    Vec2 {
        x: divide(f.x as i128, FORCE_SHARE as i128) as i32,
        y: divide(f.y as i128, FORCE_SHARE as i128) as i32,
    }
}

/// Computes one component of the correction of a pair.
fn shift_component(u: i32, dist: u64) -> (s: i32)
    requires
        -ONE <= u <= ONE,
    ensures
        s == shift_axis(u as int, dist as int),
{
    let gap: i128 = 3 * (dist as i128 - 2 * (BALL_SIZE as i128));
    let mvt: i128 = divide(gap, 4);
    proof {
        lemma_quot_shrinks(gap as int, 4, 0x4_0000_0000_0000_0000);
        lemma_product_bound(u as int, mvt as int, ONE as int, 0x4_0000_0000_0000_0000);
    }
    saturate(divide((u as i128) * mvt, 2 * (ONE as i128)))
}

/// Computes the correction of a pair at `pos_a` and `pos_b`.
pub fn separate(pos_a: Vec2, pos_b: Vec2) -> (s: Vec2)
    ensures
        s == separation(pos_a, pos_b),
{
    let dx: i64 = pos_a.x as i64 - pos_b.x as i64;
    let dy: i64 = pos_a.y as i64 - pos_b.y as i64;
    let dist: u64 = norm_of(dx, dy);
    proof {
        lemma_direction_bounds(dx as int, dy as int);
    }
    let sx: i32 = shift_component(direction_of(dx, dist), dist);
    let sy: i32 = shift_component(direction_of(dy, dist), dist);
    Vec2 { x: sx, y: sy }
}

/// Visits the pair `(a, b)` on behalf of a ball that stood at `pos_a` when
/// its visits began: the visitor accumulates its share of the long-range
/// force, in a `mutual` visit the other ball does too, and an overlapping
/// pair is pushed apart.
pub fn visit(
    c_pos: &mut Vec<Vec2>,
    c_force: &mut Vec<Vec2>,
    pos_a: Vec2,
    a: usize,
    b: usize,
    scale: i32,
    mutual: bool,
)
    requires
        a < old(c_pos).len(),
        b < old(c_pos).len(),
        old(c_force).len() == old(c_pos).len(),
    ensures
        (Cloud { pos: final(c_pos)@, force: final(c_force)@ }) == visited(
            (Cloud { pos: old(c_pos)@, force: old(c_force)@ }),
            pos_a,
            a as int,
            b as int,
            scale as int,
            mutual,
        ),
        final(c_pos).len() == old(c_pos).len(),
        final(c_force).len() == old(c_force).len(),
{
    let pos_b = c_pos[b];
    let pull_a = force_share(force(pos_a, pos_b, scale));
    c_force[a] = c_force[a].plus(pull_a);
    if mutual {
        let pull_b = force_share(force(pos_b, pos_a, scale));
        c_force[b] = c_force[b].plus(pull_b);
    }
    if ball_collides(pos_a, BALL_SIZE, pos_b, BALL_SIZE) {
        let s = separate(pos_a, pos_b);
        c_pos[a] = c_pos[a].minus(s);
        c_pos[b] = c_pos[b].plus(s);
    }
}

} // verus!
