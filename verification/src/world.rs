//! The state of all balls as plain sequences, and what a time step, a
//! relaxation pass, a cannon shot and an event make of it.
use vstd::prelude::*;
use crate::constants::INITIAL_BALL_SPEED_MODIFIER;
use crate::contact::Cloud;
use crate::fixed::{divide, quot, sat, saturate, ONE, SECOND};
use crate::grid::grid_of;
use crate::relax::cells_relaxed;
use crate::vector::{
    direction, direction_of, lemma_direction_bounds, lemma_product_bound, lemma_quot_shrinks, norm,
    norm_of, perp, Vec2,
};
use crate::wall::{walls_resolved, Trail};

verus! {

/// Acceleration of gravity along x.
pub const GRAVITY_X: i32 = 0;

/// Acceleration of gravity along y (9.8 world units).
pub const GRAVITY_Y: i32 = 980_000;

/// The fixed time step, in nanoseconds: one 480th of a second.
pub const PHYS_TIME_STEP: u64 = 2_083_333;

/// Number of relaxation passes in one time step.
pub const RELAXATION_PASSES: usize = 8;

/// Factor from a ball's displacement in one step to the speed its hue shows.
pub const VELOCITY_GAIN: i32 = 20;

/// Hue of a ball at rest (198 degrees).
pub const HUE_BASE: i32 = 19_800_000;

/// A full turn of hue (360 degrees).
pub const HUE_TURN: i32 = 36_000_000;

/// Number of balls in one cannon shot.
pub const CANNON_BATCH: usize = 20;

/// Distance between two neighbours in a cannon shot: 2.2 radii.
pub const CANNON_SPACING: i32 = 880_000;

/// All that the engine knows of its balls. The four sequences have one
/// entry for each ball.
pub struct World {
    pub pos: Seq<Vec2>,
    pub prev: Seq<Vec2>,
    pub hue: Seq<i32>,
    pub force: Seq<Vec2>,
}

impl World {
    /// The number of balls, where the four sequences agree on it.
    pub open spec fn count(self) -> nat {
        self.pos.len()
    }

    /// The four sequences have one entry for each ball.
    pub open spec fn aligned(self) -> bool {
        self.prev.len() == self.pos.len() && self.hue.len() == self.pos.len() && self.force.len()
            == self.pos.len()
    }
}

/// The ambient acceleration at a position: the field is switched off, so it
/// is zero everywhere.
pub open spec fn ambient(pos: Vec2) -> Vec2 {
    Vec2 { x: 0, y: 0 }
}

/// The hue of a ball that moved from `prev` to `pos`: its base hue plus the
/// length of its displacement times the gain, within one turn.
pub open spec fn hue_of(pos: Vec2, prev: Vec2) -> int {
    (norm(VELOCITY_GAIN * (pos.x - prev.x), VELOCITY_GAIN * (pos.y - prev.y)) + HUE_BASE) % (
    HUE_TURN as int)
}

/// One coordinate of a ball after a Verlet step of `dt` nanoseconds: as far
/// beyond `p` as `p` is beyond `q`, plus the acceleration `acc` times the
/// step.
pub open spec fn advanced_axis(p: int, q: int, acc: int, dt: int) -> int {
    sat(2 * p - q + quot(acc * dt, SECOND as int))
}

/// The position of a ball after a Verlet step under the ambient field,
/// gravity and its accumulated force.
pub open spec fn advanced(pos: Vec2, prev: Vec2, force: Vec2, dt: int) -> Vec2 {
    Vec2 {
        x: advanced_axis(
            pos.x as int,
            prev.x as int,
            ambient(pos).x + GRAVITY_X + force.x,
            dt,
        ) as i32,
        y: advanced_axis(
            pos.y as int,
            prev.y as int,
            ambient(pos).y + GRAVITY_Y + force.y,
            dt,
        ) as i32,
    }
}

/// The world after integration over `dt` nanoseconds: every ball has its
/// hue from the displacement it arrived with, has advanced, remembers where
/// it was, and has no force left.
pub open spec fn integrated(w: World, dt: int) -> World {
    World {
        pos: Seq::new(w.pos.len(), |i: int| advanced(w.pos[i], w.prev[i], w.force[i], dt)),
        prev: w.pos,
        hue: Seq::new(w.pos.len(), |i: int| hue_of(w.pos[i], w.prev[i]) as i32),
        force: Seq::new(w.pos.len(), |i: int| Vec2 { x: 0, y: 0 }),
    }
}

/// The world after one relaxation pass: the grid is made of the positions
/// as they are, every cell is relaxed, and then the balls in the edge cells
/// of that same grid bounce off the walls.
pub open spec fn pass(w: World, scale: int) -> World {
    let grid = grid_of(w.pos);
    let c = cells_relaxed((Cloud { pos: w.pos, force: w.force }), grid, 0, scale);
    let t = walls_resolved((Trail { pos: c.pos, prev: w.prev }), grid);
    World { pos: t.pos, prev: t.prev, hue: w.hue, force: c.force }
}

/// The world after `passes` relaxation passes.
pub open spec fn relaxed(w: World, scale: int, passes: nat) -> World
    decreases passes,
{
    if passes == 0 {
        w
    } else {
        relaxed(pass(w, scale), scale, (passes - 1) as nat)
    }
}

/// The world after one time step: integration, then the relaxation passes.
pub open spec fn stepped(w: World, dt: int, scale: int) -> World {
    relaxed(integrated(w, dt), scale, RELAXATION_PASSES as nat)
}

/// The unit vector along which a cannon lines up its balls: the cannon's
/// direction turned by a quarter turn, or the y axis for a cannon without
/// direction.
pub open spec fn launch_axis(cannon: Vec2) -> Vec2 {
    let p = perp(cannon);
    let len = norm(p.x as int, p.y as int);
    if len == 0 {
        Vec2 { x: 0, y: ONE }
    } else {
        Vec2 { x: direction(p.x as int, len) as i32, y: direction(p.y as int, len) as i32 }
    }
}

/// One coordinate of a ball placed `shift` along the axis component `u`
/// from `start`.
pub open spec fn placed_axis(start: int, u: int, shift: int) -> int {
    sat(start + quot(u * shift, ONE as int))
}

/// Where a cannon at `start` puts a ball that is `shift` along its line.
pub open spec fn placed(start: Vec2, cannon: Vec2, shift: int) -> Vec2 {
    Vec2 {
        x: placed_axis(start.x as int, launch_axis(cannon).x as int, shift) as i32,
        y: placed_axis(start.y as int, launch_axis(cannon).y as int, shift) as i32,
    }
}

/// The distance along one axis that a launched ball covers in `dt`
/// nanoseconds: the cannon's component times the speed modifier times the
/// step.
pub open spec fn launch_step(c: int, dt: int) -> int {
    quot(c * INITIAL_BALL_SPEED_MODIFIER * dt, ONE as int * SECOND as int)
}

/// The previous position that gives a ball at `pos` the cannon's launch
/// velocity.
pub open spec fn launched_from(pos: Vec2, cannon: Vec2, dt: int) -> Vec2 {
    Vec2 {
        x: sat(pos.x - launch_step(cannon.x as int, dt)) as i32,
        y: sat(pos.y - launch_step(cannon.y as int, dt)) as i32,
    }
}

/// The world with one more ball, placed `shift` along the line of a cannon
/// at `start` and launched along `cannon`.
pub open spec fn with_ball(w: World, shift: int, color: i32, dt: int, start: Vec2, cannon: Vec2) -> World {
    World {
        pos: w.pos.push(placed(start, cannon, shift)),
        prev: w.prev.push(launched_from(placed(start, cannon, shift), cannon, dt)),
        hue: w.hue.push(color),
        force: w.force.push(Vec2 { x: 0, y: 0 }),
    }
}

/// The place along the cannon's line of the `k`-th ball of a shot.
pub open spec fn shot_shift(k: int) -> int {
    -k * CANNON_SPACING
}

/// The world with the first `n` balls of a cannon shot behind the balls
/// that were there: in a line through `start` across the cannon's
/// direction, one spacing apart, all launched along `cannon`, with hue zero
/// and no force.
pub open spec fn fired_some(w: World, dt: int, start: Vec2, cannon: Vec2, n: nat) -> World {
    World {
        pos: w.pos + Seq::new(n, |k: int| placed(start, cannon, shot_shift(k))),
        prev: w.prev + Seq::new(
            n,
            |k: int| launched_from(placed(start, cannon, shot_shift(k)), cannon, dt),
        ),
        hue: w.hue + Seq::new(n, |k: int| 0i32),
        force: w.force + Seq::new(n, |k: int| Vec2 { x: 0, y: 0 }),
    }
}

/// The world after a cannon shot: a whole batch of new balls behind the
/// balls that were there.
pub open spec fn fired(w: World, dt: int, start: Vec2, cannon: Vec2) -> World {
    fired_some(w, dt, start, cannon, CANNON_BATCH as nat)
}

/// A hue lies within one turn.
pub proof fn lemma_hue_in_turn(pos: Vec2, prev: Vec2)
    ensures
        0 <= hue_of(pos, prev) < HUE_TURN,
{
}

/// Computes the ambient acceleration at a position.
pub fn arbitrary_vector_field(pos: Vec2) -> (acc: Vec2)
    ensures
        acc == ambient(pos),
{
    Vec2::zero()
}

/// Computes the hue of a ball that moved from `prev` to `pos`.
pub fn hue(pos: Vec2, prev: Vec2) -> (h: i32)
    ensures
        h == hue_of(pos, prev),
        0 <= h < HUE_TURN,
{
    let vx: i64 = (VELOCITY_GAIN as i64) * (pos.x as i64 - prev.x as i64);
    let vy: i64 = (VELOCITY_GAIN as i64) * (pos.y as i64 - prev.y as i64);
    let speed: u64 = norm_of(vx, vy);
    ((speed as u128 + HUE_BASE as u128) % (HUE_TURN as u128)) as i32
}

/// Computes one coordinate of a ball after a Verlet step.
fn advance_axis(p: i32, q: i32, acc: i64, dt: u64) -> (r: i32)
    requires
        -0x2_0000_0000 <= acc <= 0x2_0000_0000,
    ensures
        r == advanced_axis(p as int, q as int, acc as int, dt as int),
{
    proof {
        lemma_product_bound(acc as int, dt as int, 0x2_0000_0000, 0x1_0000_0000_0000_0000);
    }
    let push: i128 = divide((acc as i128) * (dt as i128), SECOND as i128);
    proof {
        lemma_quot_shrinks(
            acc * dt,
            SECOND as int,
            0x2_0000_0000int * 0x1_0000_0000_0000_0000int,
        );
    }
    saturate(2 * (p as i128) - (q as i128) + push)
}

/// Computes the position of a ball after a Verlet step.
pub fn advance(pos: Vec2, prev: Vec2, force: Vec2, dt: u64) -> (next: Vec2)
    ensures
        next == advanced(pos, prev, force, dt as int),
{
    let field = arbitrary_vector_field(pos);
    let ax: i64 = field.x as i64 + GRAVITY_X as i64 + force.x as i64;
    let ay: i64 = field.y as i64 + GRAVITY_Y as i64 + force.y as i64;
    Vec2 { x: advance_axis(pos.x, prev.x, ax, dt), y: advance_axis(pos.y, prev.y, ay, dt) }
}

/// Computes the unit vector along which a cannon lines up its balls.
pub fn aim(cannon: Vec2) -> (axis: Vec2)
    ensures
        axis == launch_axis(cannon),
        -ONE <= axis.x <= ONE,
        -ONE <= axis.y <= ONE,
{
    let p = cannon.perp();
    let len: u64 = norm_of(p.x as i64, p.y as i64);
    if len == 0 {
        Vec2 { x: 0, y: ONE }
    } else {
        proof {
            lemma_direction_bounds(p.x as int, p.y as int);
        }
        Vec2 { x: direction_of(p.x as i64, len), y: direction_of(p.y as i64, len) }
    }
}

/// Computes one coordinate of a ball placed along a cannon's line.
fn place_axis(start: i32, u: i32, shift: i32) -> (r: i32)
    requires
        -ONE <= u <= ONE,
    ensures
        r == placed_axis(start as int, u as int, shift as int),
{
    proof {
        lemma_product_bound(u as int, shift as int, ONE as int, 0x8000_0000);
        lemma_quot_shrinks(u * shift, ONE as int, ONE * 0x8000_0000int);
    }
    saturate(start as i128 + divide((u as i128) * (shift as i128), ONE as i128))
}

/// Computes where a cannon at `start` puts a ball that is `shift` along its
/// line.
pub fn place(start: Vec2, cannon: Vec2, shift: i32) -> (pos: Vec2)
    ensures
        pos == placed(start, cannon, shift as int),
{
    let axis = aim(cannon);
    Vec2 { x: place_axis(start.x, axis.x, shift), y: place_axis(start.y, axis.y, shift) }
}

/// Computes one coordinate of the previous position of a launched ball.
fn launch_axis_from(p: i32, c: i32, dt: u64) -> (r: i32)
    ensures
        r == sat(p - launch_step(c as int, dt as int)),
{
    proof {
        lemma_product_bound(
            c as int,
            INITIAL_BALL_SPEED_MODIFIER as int,
            0x8000_0000,
            INITIAL_BALL_SPEED_MODIFIER as int,
        );
        lemma_product_bound(
            c * INITIAL_BALL_SPEED_MODIFIER,
            dt as int,
            0x8000_0000int * INITIAL_BALL_SPEED_MODIFIER,
            0x1_0000_0000_0000_0000,
        );
        lemma_quot_shrinks(
            c * INITIAL_BALL_SPEED_MODIFIER * dt,
            ONE as int * SECOND as int,
            0x8000_0000int * INITIAL_BALL_SPEED_MODIFIER * 0x1_0000_0000_0000_0000int,
        );
    }
    let run: i128 = (c as i128) * (INITIAL_BALL_SPEED_MODIFIER as i128) * (dt as i128);
    let unit: i128 = (ONE as i128) * (SECOND as i128);
    saturate(p as i128 - divide(run, unit))
}

/// Computes the previous position that gives a ball at `pos` the cannon's
/// launch velocity.
pub fn launch_from(pos: Vec2, cannon: Vec2, dt: u64) -> (prev: Vec2)
    ensures
        prev == launched_from(pos, cannon, dt as int),
{
    Vec2 { x: launch_axis_from(pos.x, cannon.x, dt), y: launch_axis_from(pos.y, cannon.y, dt) }
}

} // verus!
