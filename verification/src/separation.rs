//! What the relaxation does to the distance between balls: it pushes an
//! overlapping pair apart, and it leaves balls that keep their distance
//! where they are.
use vstd::prelude::*;
use crate::constants::{BALL_SIZE, CELL_COUNT, X_LEN};
use crate::vector::lemma_product_bound;
use crate::contact::{separation, shift_axis, slack, touching, visited, Cloud};
use crate::fixed::{lemma_floor_sqrt, ONE, SCALAR_MAX, SCALAR_MIN};
use crate::grid::{grid_of, indexes, neighbors};
use crate::relax::{
    cell_relaxed, cells_relaxed, indexes_below, lemma_neighbors_indexes, paired_across,
    paired_within, visited_all,
};
use crate::shape::{
    lemma_bucket_of_indexes, lemma_cell_place, lemma_grid_indexes, lemma_line_in_grid,
};
use crate::vector::{
    direction, dist_sq, lemma_direction_bounds, lemma_quot_shrinks, minus, norm, plus, Vec2,
};
use crate::wall::{bounced_all, bounced_at, clear_of_walls, swept, Trail};
use crate::world::{pass, relaxed, World};

verus! {

/// No two balls overlap.
pub open spec fn separated(pos: Seq<Vec2>) -> bool {
    forall|i: int, j: int|
        #![trigger pos[i], pos[j]]
        0 <= i < pos.len() && 0 <= j < pos.len() && i != j ==> !touching(pos[i], pos[j])
}

/// Every ball stands clear of the walls.
pub open spec fn all_clear(pos: Seq<Vec2>) -> bool {
    forall|i: int| 0 <= i < pos.len() ==> clear_of_walls(#[trigger] pos[i])
}

/// Moving the first ball back by `s` and the second forward by `s` takes
/// neither beyond the range of the scalars.
pub open spec fn room_for(pos_a: Vec2, pos_b: Vec2, s: Vec2) -> bool {
    &&& SCALAR_MIN <= pos_a.x - s.x <= SCALAR_MAX
    &&& SCALAR_MIN <= pos_a.y - s.y <= SCALAR_MAX
    &&& SCALAR_MIN <= pos_b.x + s.x <= SCALAR_MAX
    &&& SCALAR_MIN <= pos_b.y + s.y <= SCALAR_MAX
}

/// The gap `e` along one axis is the gap `d` widened: no smaller, and on
/// the same side of nothing.
pub open spec fn widened(d: int, e: int) -> bool {
    (d >= 0 ==> e >= d) && (d <= 0 ==> e <= d)
}

/// Two balls that stood at `p0` and `p1` stand parted at `q0` and `q1`:
/// the point midway between them has not moved, and along each axis the
/// gap between them has widened.
pub open spec fn parted(p0: Vec2, p1: Vec2, q0: Vec2, q1: Vec2) -> bool {
    &&& q0.x + q1.x == p0.x + p1.x
    &&& q0.y + q1.y == p0.y + p1.y
    &&& widened(p0.x - p1.x, q0.x - q1.x)
    &&& widened(p0.y - p1.y, q0.y - q1.y)
}

/// Parted balls are no closer than they were.
pub proof fn lemma_parted_is_no_closer(p0: Vec2, p1: Vec2, q0: Vec2, q1: Vec2)
    requires
        parted(p0, p1, q0, q1),
    ensures
        dist_sq(q0, q1) >= dist_sq(p0, p1),
{
    let dx = p0.x - p1.x;
    let dy = p0.y - p1.y;
    let ex = q0.x - q1.x;
    let ey = q0.y - q1.y;
    assert(ex * ex >= dx * dx) by (nonlinear_arith)
        requires
            widened(dx, ex),
    ;
    assert(ey * ey >= dy * dy) by (nonlinear_arith)
        requires
            widened(dy, ey),
    ;
}

/// Balls whose centres are closer than two radii are closer than that by
/// the rounded measure too, so their slack is not positive.
proof fn lemma_touching_slack(pos_a: Vec2, pos_b: Vec2)
    requires
        touching(pos_a, pos_b),
    ensures
        slack(norm(pos_a.x - pos_b.x, pos_a.y - pos_b.y)) <= 0,
{
    let dx = pos_a.x - pos_b.x;
    let dy = pos_a.y - pos_b.y;
    let n = dx * dx + dy * dy;
    assert(n >= 0) by (nonlinear_arith)
        requires
            n == dx * dx + dy * dy,
    ;
    lemma_floor_sqrt(n);
    let dist = norm(dx, dy);
    let reach = 2 * BALL_SIZE;
    assert(n < reach * reach);
    if dist >= reach {
        assert(dist * dist >= reach * reach) by (nonlinear_arith)
            requires
                dist >= reach,
                reach >= 0,
        ;
    }
    lemma_quot_shrinks(3 * (dist - 2 * BALL_SIZE), 4, 3 * (2 * BALL_SIZE - dist));
}

/// One component of the correction never has the sign of the matching
/// component of the line between the centres.
proof fn lemma_shift_sign(d: int, dist: int)
    requires
        -dist <= d <= dist,
        slack(dist) <= 0,
    ensures
        d >= 0 ==> shift_axis(direction(d, dist), dist) <= 0,
        d <= 0 ==> shift_axis(direction(d, dist), dist) >= 0,
{
    let u = direction(d, dist);
    let m = slack(dist);
    if dist > 0 {
        if d >= 0 {
            assert(0 <= (d * ONE) / dist) by (nonlinear_arith)
                requires
                    d >= 0,
                    dist > 0,
            ;
        } else {
            assert(0 <= ((-d) * ONE) / dist) by (nonlinear_arith)
                requires
                    d < 0,
                    dist > 0,
            ;
            assert(-(d * ONE) == (-d) * ONE) by (nonlinear_arith);
        }
    }
    if d >= 0 {
        assert(u >= 0);
        assert(u * m <= 0) by (nonlinear_arith)
            requires
                u >= 0,
                m <= 0,
        ;
        lemma_quot_shrinks(u * m, 2 * ONE, -(u * m));
    }
    if d <= 0 {
        assert(u <= 0);
        assert(u * m >= 0) by (nonlinear_arith)
            requires
                u <= 0,
                m <= 0,
        ;
        lemma_quot_shrinks(u * m, 2 * ONE, u * m);
    }
}

/// Along one axis, a correction against the sign of the gap widens the gap,
/// and strictly so unless the correction is nothing.
proof fn lemma_gap_widens(d: int, s: int)
    requires
        d >= 0 ==> s <= 0,
        d <= 0 ==> s >= 0,
    ensures
        (d - 2 * s) * (d - 2 * s) >= d * d,
        s != 0 ==> (d - 2 * s) * (d - 2 * s) > d * d,
{
    assert((d - 2 * s) * (d - 2 * s) == d * d - 4 * (d * s) + 4 * (s * s)) by (nonlinear_arith);
    assert(d * s <= 0) by (nonlinear_arith)
        requires
            d >= 0 ==> s <= 0,
            d <= 0 ==> s >= 0,
    ;
    assert(s * s >= 0 && (s != 0 ==> s * s > 0)) by (nonlinear_arith);
}

/// A visit of an overlapping pair, by a ball that stands where its visits
/// began, never brings the two closer, and moves them strictly apart unless
/// the correction is nothing: for coincident centres, which have no
/// direction, or so near to contact that it rounds away. This holds where
/// the correction has room within the range of the scalars.
pub proof fn lemma_visit_moves_apart(c: Cloud, a: int, b: int, scale: int, mutual: bool)
    requires
        0 <= a < c.pos.len(),
        0 <= b < c.pos.len(),
        c.force.len() == c.pos.len(),
        a != b,
        touching(c.pos[a], c.pos[b]),
        room_for(c.pos[a], c.pos[b], separation(c.pos[a], c.pos[b])),
    ensures
        dist_sq(visited(c, c.pos[a], a, b, scale, mutual).pos[a], visited(c, c.pos[a], a, b, scale, mutual).pos[b])
            >= dist_sq(c.pos[a], c.pos[b]),
        separation(c.pos[a], c.pos[b]) != (Vec2 { x: 0, y: 0 }) ==> dist_sq(
            visited(c, c.pos[a], a, b, scale, mutual).pos[a],
            visited(c, c.pos[a], a, b, scale, mutual).pos[b],
        ) > dist_sq(c.pos[a], c.pos[b]),
        parted(
            c.pos[a],
            c.pos[b],
            visited(c, c.pos[a], a, b, scale, mutual).pos[a],
            visited(c, c.pos[a], a, b, scale, mutual).pos[b],
        ),
        visited(c, c.pos[a], a, b, scale, mutual).pos[a] == minus(
            c.pos[a],
            separation(c.pos[a], c.pos[b]),
        ),
        visited(c, c.pos[a], a, b, scale, mutual).pos[b] == plus(
            c.pos[b],
            separation(c.pos[a], c.pos[b]),
        ),
{
    let pa = c.pos[a];
    let pb = c.pos[b];
    let dx = pa.x - pb.x;
    let dy = pa.y - pb.y;
    let dist = norm(dx, dy);
    let s = separation(pa, pb);
    let r = visited(c, pa, a, b, scale, mutual);
    lemma_touching_slack(pa, pb);
    lemma_direction_bounds(dx, dy);
    lemma_shift_sign(dx, dist);
    lemma_shift_sign(dy, dist);
    assert(s.x == shift_axis(direction(dx, dist), dist));
    assert(s.y == shift_axis(direction(dy, dist), dist));
    assert(r.pos[a].x == pa.x - s.x && r.pos[a].y == pa.y - s.y);
    assert(r.pos[b].x == pb.x + s.x && r.pos[b].y == pb.y + s.y);
    lemma_gap_widens(dx, s.x as int);
    lemma_gap_widens(dy, s.y as int);
    assert(r.pos[a].x - r.pos[b].x == dx - 2 * s.x);
    assert(r.pos[a].y - r.pos[b].y == dy - 2 * s.y);
}

/// One component of the correction is something where its axis carries the
/// larger share of the line between the centres and the pair is four units
/// or more short of contact.
proof fn lemma_shift_is_something(d: int, dist: int)
    requires
        0 < dist <= 2 * BALL_SIZE - 4,
        -dist <= d <= dist,
        2 * (d * d) >= dist * dist,
    ensures
        shift_axis(direction(d, dist), dist) != 0,
{
    let ad = if d >= 0 { d } else { -d };
    let m = slack(dist);
    assert(m <= -3);
    lemma_quot_shrinks(3 * (dist - 2 * BALL_SIZE), 4, 3 * (2 * BALL_SIZE - dist));
    assert(ad * ad == d * d) by (nonlinear_arith)
        requires
            ad == d || ad == -d,
    ;
    if ad * 100_000 < 70_710 * dist {
        assert((ad * 100_000) * (ad * 100_000) < (70_710 * dist) * (70_710 * dist))
            by (nonlinear_arith)
            requires
                0 <= ad * 100_000 < 70_710 * dist,
        ;
        assert((ad * 100_000) * (ad * 100_000) == 10_000_000_000 * (ad * ad))
            by (nonlinear_arith);
        assert((70_710 * dist) * (70_710 * dist) == 4_999_904_100 * (dist * dist))
            by (nonlinear_arith);
        assert(dist * dist >= 0) by (nonlinear_arith);
    }
    assert((ad * ONE) / dist >= 70_710) by (nonlinear_arith)
        requires
            ad * ONE >= 70_710 * dist,
            dist > 0,
    ;
    assert(ad * ONE >= 0) by (nonlinear_arith)
        requires
            ad >= 0,
    ;
    let u = direction(d, dist);
    if d >= 0 {
        assert(u >= 70_710);
        assert(u * m <= -200_000) by (nonlinear_arith)
            requires
                u >= 70_710,
                m <= -3,
        ;
    } else {
        assert(-(d * ONE) == ad * ONE) by (nonlinear_arith)
            requires
                ad == -d,
        ;
        assert(d * ONE < 0) by (nonlinear_arith)
            requires
                d < 0,
        ;
        assert(u <= -70_710);
        assert(u * m >= 200_000) by (nonlinear_arith)
            requires
                u <= -70_710,
                m <= -3,
        ;
    }
    lemma_direction_small(d, dist);
    lemma_product_bound(u, m, ONE as int, 3 * (2 * BALL_SIZE));
}

/// The unit direction along a component no longer than the vector stays
/// within one.
proof fn lemma_direction_small(d: int, dist: int)
    requires
        0 < dist,
        -dist <= d <= dist,
    ensures
        -ONE <= direction(d, dist) <= ONE,
{
    if d >= 0 {
        assert(0 <= (d * ONE) / dist <= ONE) by (nonlinear_arith)
            requires
                0 <= d <= dist,
                dist > 0,
        ;
    } else {
        assert(0 <= ((-d) * ONE) / dist <= ONE) by (nonlinear_arith)
            requires
                0 <= -d <= dist,
                dist > 0,
        ;
        assert(-(d * ONE) == (-d) * ONE) by (nonlinear_arith);
    }
}

/// Two balls with distinct centres that are four units or more short of
/// contact have a correction that is something: it does not round away.
pub proof fn lemma_overlap_is_corrected(pos_a: Vec2, pos_b: Vec2)
    requires
        pos_a != pos_b,
        dist_sq(pos_a, pos_b) < (2 * BALL_SIZE - 3) * (2 * BALL_SIZE - 3),
    ensures
        touching(pos_a, pos_b),
        separation(pos_a, pos_b) != (Vec2 { x: 0, y: 0 }),
{
    let dx = pos_a.x - pos_b.x;
    let dy = pos_a.y - pos_b.y;
    let n = dx * dx + dy * dy;
    assert(n > 0 && dx * dx >= 0 && dy * dy >= 0) by (nonlinear_arith)
        requires
            n == dx * dx + dy * dy,
            dx != 0 || dy != 0,
    ;
    lemma_floor_sqrt(n);
    lemma_direction_bounds(dx, dy);
    let dist = norm(dx, dy);
    let near = 2 * BALL_SIZE - 3;
    if dist >= near {
        assert(dist * dist >= near * near) by (nonlinear_arith)
            requires
                dist >= near,
                near >= 0,
        ;
    }
    assert(near * near < (2 * BALL_SIZE) * (2 * BALL_SIZE)) by (nonlinear_arith)
        requires
            near == 2 * BALL_SIZE - 3,
            BALL_SIZE == 400_000,
    ;
    let s = separation(pos_a, pos_b);
    assert(s.x == shift_axis(direction(dx, dist), dist));
    assert(s.y == shift_axis(direction(dy, dist), dist));
    if dx * dx >= dy * dy {
        lemma_shift_is_something(dx, dist);
    } else {
        lemma_shift_is_something(dy, dist);
    }
}

/// A visit moves nothing if it is of a ball by itself, or of two balls
/// that do not overlap, as long as the visitor stands where its visits
/// began.
pub proof fn lemma_visit_keeps_apart(c: Cloud, a: int, b: int, scale: int, mutual: bool)
    requires
        0 <= a < c.pos.len(),
        0 <= b < c.pos.len(),
        c.force.len() == c.pos.len(),
        a == b || !touching(c.pos[a], c.pos[b]),
    ensures
        visited(c, c.pos[a], a, b, scale, mutual).pos == c.pos,
        visited(c, c.pos[a], a, b, scale, mutual).force.len() == c.pos.len(),
{
    let r = visited(c, c.pos[a], a, b, scale, mutual);
    if touching(c.pos[a], c.pos[b]) {
        let s = separation(c.pos[a], c.pos[a]);
        let dist = norm(0, 0);
        assert(direction(0, dist) == 0) by {
            assert(0int * ONE == 0);
            if dist > 0 {
                assert(0int / dist == 0) by (nonlinear_arith)
                    requires
                        dist > 0,
                ;
            }
        }
        assert(0 * slack(dist) == 0) by (nonlinear_arith);
        assert(shift_axis(0, dist) == 0);
        assert(s == (Vec2 { x: 0, y: 0 }));
        assert(r.pos =~= c.pos);
    }
}

/// The visits of a ball that stands where they began move nothing if the
/// ball overlaps none of the balls it visits.
pub proof fn lemma_visits_keep_apart(
    c: Cloud,
    a: int,
    list: Seq<usize>,
    from: int,
    scale: int,
    mutual: bool,
)
    requires
        0 <= a < c.pos.len(),
        c.force.len() == c.pos.len(),
        indexes_below(list, c.pos.len() as int),
        separated(c.pos),
    ensures
        visited_all(c, c.pos[a], a, list, from, scale, mutual).pos == c.pos,
        visited_all(c, c.pos[a], a, list, from, scale, mutual).force.len() == c.pos.len(),
    decreases list.len() - from,
{
    if 0 <= from < list.len() {
        let b = list[from] as int;
        if a != b {
            assert(!touching(c.pos[a], c.pos[b]));
        }
        lemma_visit_keeps_apart(c, a, b, scale, mutual);
        let next = visited(c, c.pos[a], a, b, scale, mutual);
        lemma_visits_keep_apart(next, a, list, from + 1, scale, mutual);
    }
}

/// Pairing the balls of a cell with each other moves nothing if no two
/// balls overlap.
pub proof fn lemma_paired_within_keeps(c: Cloud, cur: Seq<usize>, i: int, scale: int)
    requires
        c.force.len() == c.pos.len(),
        indexes_below(cur, c.pos.len() as int),
        separated(c.pos),
    ensures
        paired_within(c, cur, i, scale).pos == c.pos,
        paired_within(c, cur, i, scale).force.len() == c.pos.len(),
    decreases cur.len() - i,
{
    if 0 <= i < cur.len() {
        let a = cur[i] as int;
        lemma_visits_keep_apart(c, a, cur, i + 1, scale, true);
        lemma_paired_within_keeps(
            visited_all(c, c.pos[a], a, cur, i + 1, scale, true),
            cur,
            i + 1,
            scale,
        );
    }
}

/// Pairing the balls of a cell with those around it moves nothing if no two
/// balls overlap.
pub proof fn lemma_paired_across_keeps(
    c: Cloud,
    cur: Seq<usize>,
    others: Seq<usize>,
    i: int,
    scale: int,
)
    requires
        c.force.len() == c.pos.len(),
        indexes_below(cur, c.pos.len() as int),
        indexes_below(others, c.pos.len() as int),
        separated(c.pos),
    ensures
        paired_across(c, cur, others, i, scale).pos == c.pos,
        paired_across(c, cur, others, i, scale).force.len() == c.pos.len(),
    decreases cur.len() - i,
{
    if 0 <= i < cur.len() {
        let a = cur[i] as int;
        lemma_visits_keep_apart(c, a, others, 0, scale, false);
        lemma_paired_across_keeps(
            visited_all(c, c.pos[a], a, others, 0, scale, false),
            cur,
            others,
            i + 1,
            scale,
        );
    }
}

/// Relaxing the cells of a grid moves nothing if no two balls overlap.
pub proof fn lemma_cells_relaxed_keep(c: Cloud, grid: Seq<Seq<usize>>, cell: int, scale: int)
    requires
        c.force.len() == c.pos.len(),
        grid.len() == CELL_COUNT,
        indexes(grid, c.pos.len() as int),
        separated(c.pos),
    ensures
        cells_relaxed(c, grid, cell, scale).pos == c.pos,
        cells_relaxed(c, grid, cell, scale).force.len() == c.pos.len(),
    decreases CELL_COUNT - cell,
{
    if 0 <= cell < CELL_COUNT {
        let n = c.pos.len() as int;
        lemma_cell_place(cell);
        let cur = grid[cell];
        let others = neighbors(grid, cell % (X_LEN as int), cell / (X_LEN as int));
        lemma_bucket_of_indexes(grid, cell, n);
        lemma_neighbors_indexes(grid, cell % (X_LEN as int), cell / (X_LEN as int), n);
        lemma_paired_within_keeps(c, cur, 0, scale);
        lemma_paired_across_keeps(paired_within(c, cur, 0, scale), cur, others, 0, scale);
        lemma_cells_relaxed_keep(cell_relaxed(c, cur, others, scale), grid, cell + 1, scale);
    }
}

/// Bouncing the balls of a list changes nothing if every ball stands clear
/// of the walls.
pub proof fn lemma_bounced_all_keeps(t: Trail, list: Seq<usize>, from: int)
    requires
        t.prev.len() == t.pos.len(),
        indexes_below(list, t.pos.len() as int),
        all_clear(t.pos),
    ensures
        bounced_all(t, list, from) == t,
    decreases list.len() - from,
{
    if 0 <= from < list.len() {
        let next = bounced_at(t, list[from] as int);
        assert(next.pos =~= t.pos);
        assert(next.prev =~= t.prev);
        lemma_bounced_all_keeps(next, list, from + 1);
    }
}

/// Bouncing the balls of a line of cells changes nothing if every ball
/// stands clear of the walls.
pub proof fn lemma_swept_keeps(
    t: Trail,
    grid: Seq<Seq<usize>>,
    start: int,
    stride: int,
    from: int,
    count: int,
)
    requires
        t.prev.len() == t.pos.len(),
        grid.len() == CELL_COUNT,
        indexes(grid, t.pos.len() as int),
        0 <= start,
        0 <= stride,
        start + (count - 1) * stride < CELL_COUNT,
        all_clear(t.pos),
    ensures
        swept(t, grid, start, stride, from, count) == t,
    decreases count - from,
{
    if 0 <= from < count {
        lemma_line_in_grid(start, stride, from, count);
        let cell = start + from * stride;
        lemma_bucket_of_indexes(grid, cell, t.pos.len() as int);
        lemma_bounced_all_keeps(t, grid[cell], 0);
        lemma_swept_keeps(t, grid, start, stride, from + 1, count);
    }
}

/// A relaxation pass over balls of which no two overlap and none touches a
/// wall leaves every position and previous position as it was.
pub proof fn lemma_pass_keeps_separated(w: World, scale: int)
    requires
        w.aligned(),
        w.count() <= usize::MAX,
        separated(w.pos),
        all_clear(w.pos),
    ensures
        pass(w, scale).pos == w.pos,
        pass(w, scale).prev == w.prev,
        pass(w, scale).hue == w.hue,
        pass(w, scale).force.len() == w.force.len(),
{
    let grid = grid_of(w.pos);
    let xs = X_LEN as int;
    let ys = crate::constants::Y_LEN as int;
    lemma_grid_indexes(w.pos);
    let c0 = Cloud { pos: w.pos, force: w.force };
    lemma_cells_relaxed_keep(c0, grid, 0, scale);
    let c = cells_relaxed(c0, grid, 0, scale);
    let t = Trail { pos: c.pos, prev: w.prev };
    lemma_swept_keeps(t, grid, 0, xs, 0, ys);
    lemma_swept_keeps(t, grid, xs - 1, xs, 0, ys);
    lemma_swept_keeps(t, grid, 0, 1, 0, xs);
    lemma_swept_keeps(t, grid, (ys - 1) * xs, 1, 0, xs);
}

/// Relaxation is idle on a settled world: over balls of which no two
/// overlap and none touches a wall, any number of relaxation passes leaves
/// every position and previous position as it was.
pub proof fn lemma_relaxed_keeps_separated(w: World, scale: int, passes: nat)
    requires
        w.aligned(),
        w.count() <= usize::MAX,
        separated(w.pos),
        all_clear(w.pos),
    ensures
        relaxed(w, scale, passes).pos == w.pos,
        relaxed(w, scale, passes).prev == w.prev,
        relaxed(w, scale, passes).hue == w.hue,
    decreases passes,
{
    if passes > 0 {
        lemma_pass_keeps_separated(w, scale);
        lemma_relaxed_keeps_separated(pass(w, scale), scale, (passes - 1) as nat);
    }
}

} // verus!
