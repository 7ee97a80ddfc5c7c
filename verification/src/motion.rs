//! How balls move where nothing is in their way: free flight under
//! gravity, and the line in which a cannon sets its balls.
use vstd::prelude::*;
use crate::constants::BALL_SIZE;
use crate::contact::touching;
use crate::fixed::{lemma_floor_sqrt, lemma_floor_sqrt_unique, quot, sat, ONE, SECOND};
use crate::separation::{all_clear, lemma_relaxed_keeps_separated, separated};
use crate::vector::{
    direction, dist_sq, lemma_direction_bounds, lemma_product_bound, norm, perp, Vec2,
};
use crate::world::{
    advanced, fired, integrated, launch_axis, launched_from, placed, shot_shift, stepped, World,
    CANNON_BATCH, CANNON_SPACING, GRAVITY_Y, RELAXATION_PASSES,
};

verus! {

/// Where integration leaves no two balls overlapping and none touching a
/// wall, the time step is the integration alone: the relaxation passes move
/// nothing.
pub proof fn lemma_free_step(w: World, dt: int, scale: int)
    requires
        w.aligned(),
        w.count() <= usize::MAX,
        separated(integrated(w, dt).pos),
        all_clear(integrated(w, dt).pos),
    ensures
        stepped(w, dt, scale).pos == integrated(w, dt).pos,
        stepped(w, dt, scale).prev == w.pos,
        stepped(w, dt, scale).hue == integrated(w, dt).hue,
{
    lemma_relaxed_keeps_separated(integrated(w, dt), scale, RELAXATION_PASSES as nat);
}

/// A ball at rest with no force on it falls: integration leaves its x
/// alone and moves its y by gravity times the step.
pub proof fn lemma_resting_ball_falls(pos: Vec2, dt: int)
    ensures
        advanced(pos, pos, (Vec2 { x: 0, y: 0 }), dt).x == pos.x,
        advanced(pos, pos, (Vec2 { x: 0, y: 0 }), dt).y == sat(
            pos.y + quot(GRAVITY_Y * dt, SECOND as int),
        ),
{
    assert(0 * dt == 0) by (nonlinear_arith);
    assert((0 + GRAVITY_Y + 0) * dt == GRAVITY_Y * dt);
}

/// A cannon that points along x lines its balls up along y: the `k`-th ball
/// of its shot keeps the x of the cannon's place and stands `k` spacings
/// below it.
pub proof fn lemma_level_cannon_lines_up(start: Vec2, reach: i32, k: int)
    requires
        reach > 0,
    ensures
        launch_axis((Vec2 { x: reach, y: 0 })) == (Vec2 { x: 0, y: ONE }),
        placed(start, (Vec2 { x: reach, y: 0 }), shot_shift(k)).x == start.x,
        placed(start, (Vec2 { x: reach, y: 0 }), shot_shift(k)).y == sat(
            start.y - k * CANNON_SPACING,
        ),
{
    let cannon = Vec2 { x: reach, y: 0 };
    let p = perp(cannon);
    assert(p == (Vec2 { x: 0, y: reach }));
    let r = reach as int;
    assert(0 * 0 + r * r == r * r);
    assert(r * r < (r + 1) * (r + 1)) by (nonlinear_arith)
        requires
            r > 0,
    ;
    assert(r * r >= 0) by (nonlinear_arith);
    lemma_floor_sqrt_unique(0 * 0 + r * r, r);
    assert(norm(0, r) == r);
    assert(direction(0, r) == 0) by {
        assert(0 * ONE == 0);
        assert(0int / r == 0) by (nonlinear_arith)
            requires
                r > 0,
        ;
    }
    assert(direction(r, r) == ONE) by {
        assert((r * ONE) / r == ONE) by (nonlinear_arith)
            requires
                r > 0,
        ;
        assert(r * ONE >= 0) by (nonlinear_arith)
            requires
                r > 0,
        ;
    }
    let shift = shot_shift(k);
    assert(0 * shift == 0) by (nonlinear_arith);
    assert(quot(ONE * shift, ONE as int) == shift) by {
        if shift >= 0 {
            assert((ONE * shift) / (ONE as int) == shift) by (nonlinear_arith)
                requires
                    shift >= 0,
            ;
            assert(ONE * shift >= 0) by (nonlinear_arith)
                requires
                    shift >= 0,
            ;
        } else {
            assert((-(ONE * shift)) / (ONE as int) == -shift) by (nonlinear_arith)
                requires
                    shift < 0,
            ;
            assert(ONE * shift < 0) by (nonlinear_arith)
                requires
                    shift < 0,
            ;
        }
    }
    assert(shift == -k * CANNON_SPACING);
    assert(-k * CANNON_SPACING == -(k * CANNON_SPACING)) by (nonlinear_arith);
}

/// The cannon's direction has length one, rounded down.
pub open spec fn unit_cannon(cannon: Vec2) -> bool {
    norm(cannon.x as int, cannon.y as int) == ONE
}

/// The cannon's place leaves a whole shot room within the range of the
/// scalars.
pub open spec fn room_for_shot(start: Vec2) -> bool {
    &&& -2_000_000_000 <= start.x <= 2_000_000_000
    &&& -2_000_000_000 <= start.y <= 2_000_000_000
}

/// A number near another has a square near the other's: within `t` of `d`,
/// its square is no smaller than that of `d` less twice `t` times the size
/// of `d`.
proof fn lemma_near_square(x: int, d: int, t: int)
    requires
        t >= 0,
        d - t <= x <= d + t,
    ensures
        x * x >= d * d - 2 * t * (if d >= 0 { d } else { -d }),
{
    let ad = if d >= 0 { d } else { -d };
    if ad >= t {
        assert(x * x >= (ad - t) * (ad - t)) by (nonlinear_arith)
            requires
                ad >= t,
                t >= 0,
                x >= ad - t || x <= -(ad - t),
        ;
        assert((ad - t) * (ad - t) == ad * ad - 2 * t * ad + t * t) by (nonlinear_arith);
        assert(t * t >= 0) by (nonlinear_arith);
        assert(ad * ad == d * d) by (nonlinear_arith)
            requires
                ad == d || ad == -d,
        ;
    } else {
        assert(d * d - 2 * t * ad <= 0) by (nonlinear_arith)
            requires
                0 <= ad < t,
                ad == d || ad == -d,
        ;
        assert(x * x >= 0) by (nonlinear_arith);
    }
}

/// A cannon of length one lines its balls up along its own direction
/// turned by a quarter turn, which is square to it.
pub proof fn lemma_unit_cannon_axis(cannon: Vec2)
    requires
        unit_cannon(cannon),
    ensures
        -ONE <= cannon.x <= ONE,
        -ONE <= cannon.y <= ONE,
        ONE * ONE <= cannon.x * cannon.x + cannon.y * cannon.y < (ONE + 1) * (ONE + 1),
        launch_axis(cannon) == (Vec2 { x: (-cannon.y) as i32, y: cannon.x }),
        launch_axis(cannon).x * cannon.x + launch_axis(cannon).y * cannon.y == 0,
{
    let cx = cannon.x as int;
    let cy = cannon.y as int;
    lemma_direction_bounds(cx, cy);
    let n = cx * cx + cy * cy;
    assert(n >= 0) by (nonlinear_arith)
        requires
            n == cx * cx + cy * cy,
    ;
    lemma_floor_sqrt(n);
    let p = perp(cannon);
    assert(p == (Vec2 { x: (-cy) as i32, y: cannon.x }));
    assert((-cy) * (-cy) + cx * cx == n) by (nonlinear_arith)
        requires
            n == cx * cx + cy * cy,
    ;
    assert(norm(-cy, cx) == ONE);
    assert(direction(-cy, ONE as int) == -cy);
    assert(direction(cx, ONE as int) == cx);
    assert((-cy) * cx + cx * cy == 0) by (nonlinear_arith);
}

/// The `k`-th ball of the shot of a cannon of length one stands square to
/// the cannon's direction as seen from the cannon's place, to within two
/// hundred thousandths of a world unit, and `k` spacings from that place:
/// no more than that times the cannon's length, and short of it by less
/// than three units.
pub proof fn lemma_unit_cannon_lines_up(start: Vec2, cannon: Vec2, k: int)
    requires
        unit_cannon(cannon),
        room_for_shot(start),
        0 <= k < CANNON_BATCH,
    ensures
        ({
            let p = placed(start, cannon, shot_shift(k));
            let ox = p.x - start.x;
            let oy = p.y - start.y;
            let reach = k * CANNON_SPACING;
            &&& -2 * ONE <= ox * cannon.x + oy * cannon.y <= 2 * ONE
            &&& ox * ox + oy * oy >= reach * reach - 4 * reach
            &&& ONE * ONE * (ox * ox + oy * oy) <= reach * reach * (cannon.x * cannon.x
                + cannon.y * cannon.y)
        }),
{
    let cx = cannon.x as int;
    let cy = cannon.y as int;
    lemma_unit_cannon_axis(cannon);
    let s = shot_shift(k);
    let reach = k * CANNON_SPACING;
    assert(s == -reach) by (nonlinear_arith)
        requires
            s == -k * CANNON_SPACING,
            reach == k * CANNON_SPACING,
    ;
    assert(0 <= reach <= 19 * CANNON_SPACING) by (nonlinear_arith)
        requires
            reach == k * CANNON_SPACING,
            0 <= k <= 19,
            CANNON_SPACING == 880_000,
    ;
    let a1 = (-cy) * s;
    let a2 = cx * s;
    lemma_product_bound(-cy, s, ONE as int, 19 * CANNON_SPACING);
    lemma_product_bound(cx, s, ONE as int, 19 * CANNON_SPACING);
    let ox = quot(a1, ONE as int);
    let oy = quot(a2, ONE as int);
    let p = placed(start, cannon, s);
    assert(p.x == start.x + ox);
    assert(p.y == start.y + oy);
    let e1 = ONE * ox - a1;
    let e2 = ONE * oy - a2;
    assert(-ONE < e1 < ONE && -ONE < e2 < ONE);
    assert(a1 * cx + a2 * cy == 0) by (nonlinear_arith)
        requires
            a1 == (-cy) * s,
            a2 == cx * s,
    ;
    assert(ONE * (ox * cx + oy * cy) == e1 * cx + e2 * cy) by (nonlinear_arith)
        requires
            e1 == ONE * ox - a1,
            e2 == ONE * oy - a2,
            a1 * cx + a2 * cy == 0,
    ;
    lemma_product_bound(e1, cx, ONE as int, ONE as int);
    lemma_product_bound(e2, cy, ONE as int, ONE as int);
    assert(ONE * ONE == 10_000_000_000) by (nonlinear_arith)
        requires
            ONE == 100_000,
    ;
    let dot = ox * cx + oy * cy;
    assert(-2 * ONE <= dot <= 2 * ONE) by {
        assert(100_000 * dot == e1 * cx + e2 * cy);
    }
    let n = cx * cx + cy * cy;
    let acy = if cy >= 0 { cy } else { -cy };
    let acx = if cx >= 0 { cx } else { -cx };
    assert(a1 * a1 + a2 * a2 == reach * reach * n) by (nonlinear_arith)
        requires
            a1 == (-cy) * s,
            a2 == cx * s,
            s == -reach,
            n == cx * cx + cy * cy,
    ;
    let x1 = ONE * ox;
    let x2 = ONE * oy;
    lemma_near_square(x1, a1, ONE as int);
    lemma_near_square(x2, a2, ONE as int);
    assert((if a1 >= 0 { a1 } else { -a1 }) == acy * reach) by (nonlinear_arith)
        requires
            a1 == (-cy) * s,
            s == -reach,
            reach >= 0,
            acy == cy || acy == -cy,
            acy >= 0,
    ;
    assert((if a2 >= 0 { a2 } else { -a2 }) == acx * reach) by (nonlinear_arith)
        requires
            a2 == cx * s,
            s == -reach,
            reach >= 0,
            acx == cx || acx == -cx,
            acx >= 0,
    ;
    assert(acy * reach <= ONE * reach && acx * reach <= ONE * reach) by (nonlinear_arith)
        requires
            0 <= acy <= ONE,
            0 <= acx <= ONE,
            reach >= 0,
    ;
    assert(x1 * x1 == ONE * ONE * (ox * ox) && x2 * x2 == ONE * ONE * (oy * oy))
        by (nonlinear_arith)
        requires
            x1 == ONE * ox,
            x2 == ONE * oy,
    ;
    assert(reach * reach * n >= reach * reach * (ONE * ONE)) by (nonlinear_arith)
        requires
            n >= ONE * ONE,
    ;
    let sq = ox * ox + oy * oy;
    let rr = reach * reach;
    assert(ONE * ONE * sq == x1 * x1 + x2 * x2) by (nonlinear_arith)
        requires
            x1 * x1 == ONE * ONE * (ox * ox),
            x2 * x2 == ONE * ONE * (oy * oy),
            sq == ox * ox + oy * oy,
    ;
    assert(rr * (ONE * ONE) == 10_000_000_000 * rr) by (nonlinear_arith)
        requires
            ONE * ONE == 10_000_000_000,
    ;
    assert(2 * ONE * (acy * reach) + 2 * ONE * (acx * reach) <= 40_000_000_000 * reach)
        by (nonlinear_arith)
        requires
            acy * reach <= ONE * reach,
            acx * reach <= ONE * reach,
            ONE == 100_000,
    ;
    assert(10_000_000_000 * sq >= 10_000_000_000 * rr - 40_000_000_000 * reach);
    assert(x1 * x1 <= a1 * a1) by (nonlinear_arith)
        requires
            (a1 >= 0 && 0 <= x1 <= a1) || (a1 <= 0 && a1 <= x1 <= 0),
    ;
    assert(x2 * x2 <= a2 * a2) by (nonlinear_arith)
        requires
            (a2 >= 0 && 0 <= x2 <= a2) || (a2 <= 0 && a2 <= x2 <= 0),
    ;
}

/// No two balls of the shot of a cannon of length one overlap.
pub proof fn lemma_unit_cannon_shot_is_clear(start: Vec2, cannon: Vec2, j: int, k: int)
    requires
        unit_cannon(cannon),
        room_for_shot(start),
        0 <= j < k < CANNON_BATCH,
    ensures
        !touching(placed(start, cannon, shot_shift(j)), placed(start, cannon, shot_shift(k))),
{
    let cx = cannon.x as int;
    let cy = cannon.y as int;
    lemma_unit_cannon_axis(cannon);
    let sj = shot_shift(j);
    let sk = shot_shift(k);
    let far = (k - j) * CANNON_SPACING;
    assert(sk - sj == -far) by (nonlinear_arith)
        requires
            sj == -j * CANNON_SPACING,
            sk == -k * CANNON_SPACING,
            far == (k - j) * CANNON_SPACING,
    ;
    assert(CANNON_SPACING <= far <= 19 * CANNON_SPACING) by (nonlinear_arith)
        requires
            far == (k - j) * CANNON_SPACING,
            1 <= k - j <= 19,
            CANNON_SPACING == 880_000,
    ;
    assert(-19 * CANNON_SPACING <= sj <= 0 && -19 * CANNON_SPACING <= sk <= 0)
        by (nonlinear_arith)
        requires
            sj == -j * CANNON_SPACING,
            sk == -k * CANNON_SPACING,
            0 <= j <= 19,
            0 <= k <= 19,
            CANNON_SPACING == 880_000,
    ;
    let a1j = (-cy) * sj;
    let a2j = cx * sj;
    let a1k = (-cy) * sk;
    let a2k = cx * sk;
    lemma_product_bound(-cy, sj, ONE as int, 19 * CANNON_SPACING);
    lemma_product_bound(cx, sj, ONE as int, 19 * CANNON_SPACING);
    lemma_product_bound(-cy, sk, ONE as int, 19 * CANNON_SPACING);
    lemma_product_bound(cx, sk, ONE as int, 19 * CANNON_SPACING);
    let oxj = quot(a1j, ONE as int);
    let oyj = quot(a2j, ONE as int);
    let oxk = quot(a1k, ONE as int);
    let oyk = quot(a2k, ONE as int);
    let pj = placed(start, cannon, sj);
    let pk = placed(start, cannon, sk);
    assert(pj.x == start.x + oxj && pj.y == start.y + oyj);
    assert(pk.x == start.x + oxk && pk.y == start.y + oyk);
    let x = ONE * (oxj - oxk);
    let y = ONE * (oyj - oyk);
    let d1 = a1j - a1k;
    let d2 = a2j - a2k;
    assert(d1 == (-cy) * far && d2 == cx * far) by (nonlinear_arith)
        requires
            d1 == (-cy) * sj - (-cy) * sk,
            d2 == cx * sj - cx * sk,
            sk - sj == -far,
    ;
    assert(d1 - 2 * ONE <= x <= d1 + 2 * ONE);
    assert(d2 - 2 * ONE <= y <= d2 + 2 * ONE);
    lemma_near_square(x, d1, 2 * ONE);
    lemma_near_square(y, d2, 2 * ONE);
    let n = cx * cx + cy * cy;
    let acy = if cy >= 0 { cy } else { -cy };
    let acx = if cx >= 0 { cx } else { -cx };
    assert(d1 * d1 + d2 * d2 == far * far * n) by (nonlinear_arith)
        requires
            d1 == (-cy) * far,
            d2 == cx * far,
            n == cx * cx + cy * cy,
    ;
    assert((if d1 >= 0 { d1 } else { -d1 }) == acy * far) by (nonlinear_arith)
        requires
            d1 == (-cy) * far,
            far >= 0,
            acy == cy || acy == -cy,
            acy >= 0,
    ;
    assert((if d2 >= 0 { d2 } else { -d2 }) == acx * far) by (nonlinear_arith)
        requires
            d2 == cx * far,
            far >= 0,
            acx == cx || acx == -cx,
            acx >= 0,
    ;
    assert(acy * far <= ONE * far && acx * far <= ONE * far) by (nonlinear_arith)
        requires
            0 <= acy <= ONE,
            0 <= acx <= ONE,
            far >= 0,
    ;
    assert(ONE * ONE == 10_000_000_000) by (nonlinear_arith)
        requires
            ONE == 100_000,
    ;
    let ff = far * far;
    assert(ff * n >= ff * (ONE * ONE)) by (nonlinear_arith)
        requires
            n >= ONE * ONE,
            ff == far * far,
    ;
    assert(ff * (ONE * ONE) == 10_000_000_000 * ff) by (nonlinear_arith)
        requires
            ONE * ONE == 10_000_000_000,
    ;
    assert(2 * (2 * ONE) * (acy * far) + 2 * (2 * ONE) * (acx * far) <= 80_000_000_000 * far)
        by (nonlinear_arith)
        requires
            acy * far <= ONE * far,
            acx * far <= ONE * far,
            ONE == 100_000,
    ;
    let gx = pj.x - pk.x;
    let gy = pj.y - pk.y;
    let sq = gx * gx + gy * gy;
    assert(x * x + y * y == 10_000_000_000 * sq) by (nonlinear_arith)
        requires
            x == 100_000 * gx,
            y == 100_000 * gy,
            sq == gx * gx + gy * gy,
    ;
    assert(10_000_000_000 * sq >= 10_000_000_000 * ff - 80_000_000_000 * far);
    assert(sq >= ff - 8 * far);
    assert(ff - 8 * far >= 774_392_960_000) by (nonlinear_arith)
        requires
            ff == far * far,
            far >= 880_000,
    ;
    assert((BALL_SIZE + BALL_SIZE) * (BALL_SIZE + BALL_SIZE) == 640_000_000_000)
        by (nonlinear_arith)
        requires
            BALL_SIZE == 400_000,
    ;
    assert(dist_sq(pj, pk) == sq);
}

/// The `k`-th ball of a shot is the ball that stands `k` places behind the
/// balls that were there before.
pub proof fn lemma_fired_places(w: World, dt: int, start: Vec2, cannon: Vec2, k: int)
    requires
        w.aligned(),
        0 <= k < CANNON_BATCH,
    ensures
        fired(w, dt, start, cannon).pos[w.count() + k] == placed(start, cannon, shot_shift(k)),
        fired(w, dt, start, cannon).prev[w.count() + k] == launched_from(
            placed(start, cannon, shot_shift(k)),
            cannon,
            dt,
        ),
        fired(w, dt, start, cannon).hue[w.count() + k] == 0,
        fired(w, dt, start, cannon).force[w.count() + k] == (Vec2 { x: 0, y: 0 }),
{
}

} // verus!
