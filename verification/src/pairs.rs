//! Relaxation over two balls alone, away from the grid's edge: no pass
//! brings an overlapping pair closer, and the passes move them strictly
//! apart unless their first correction is nothing.
use vstd::prelude::*;
use crate::constants::{BALL_SIZE, CELL_COUNT, GRID_SIZE, HEIGHT, WIDTH, X_LEN, Y_LEN};
use crate::contact::{separation, shift_axis, slack, touching, visited, Cloud};
use crate::fixed::{lemma_floor_sqrt, quot, ONE};
use crate::grid::{
    bucket, bucket_beside, cell_coord, cell_index, grid_of, neighbors, on_edge,
};
use crate::relax::{cell_relaxed, cells_relaxed, paired_across, paired_within, visited_all};
use crate::separation::{
    all_clear, lemma_overlap_is_corrected, lemma_parted_is_no_closer, lemma_pass_keeps_separated, lemma_visit_keeps_apart,
    lemma_visit_moves_apart, parted, separated,
};
use crate::clearance::lemma_inner_cells_are_clear;
use crate::shape::lemma_pass_shape;
use crate::vector::{direction, dist_sq, lemma_direction_bounds, lemma_product_bound, norm, Vec2};
use crate::wall::{bounced_all, swept, walls_resolved, Trail};
use crate::world::{pass, relaxed, World};

verus! {

/// The correction of an overlapping pair is small: no component of it is
/// longer than three quarters of a radius.
pub proof fn lemma_separation_small(pos_a: Vec2, pos_b: Vec2)
    requires
        touching(pos_a, pos_b),
    ensures
        -300_000 <= separation(pos_a, pos_b).x <= 300_000,
        -300_000 <= separation(pos_a, pos_b).y <= 300_000,
{
    let dx = pos_a.x - pos_b.x;
    let dy = pos_a.y - pos_b.y;
    let n = dx * dx + dy * dy;
    assert(n >= 0) by (nonlinear_arith)
        requires
            n == dx * dx + dy * dy,
    ;
    lemma_floor_sqrt(n);
    let dist = norm(dx, dy);
    let reach = 2 * BALL_SIZE;
    if dist >= reach {
        assert(dist * dist >= reach * reach) by (nonlinear_arith)
            requires
                dist >= reach,
                reach >= 0,
        ;
    }
    let m = slack(dist);
    assert(-600_000 <= m <= 0);
    lemma_direction_bounds(dx, dy);
    let ux = direction(dx, dist);
    let uy = direction(dy, dist);
    lemma_product_bound(ux, m, ONE as int, 600_000);
    lemma_product_bound(uy, m, ONE as int, 600_000);
    assert(ONE * 600_000 == 60_000_000_000) by (nonlinear_arith)
        requires
            ONE == 100_000,
    ;
    assert(-300_000 <= quot(ux * m, 2 * ONE) <= 300_000);
    assert(-300_000 <= quot(uy * m, 2 * ONE) <= 300_000);
    assert(separation(pos_a, pos_b).x == shift_axis(ux, dist));
    assert(separation(pos_a, pos_b).y == shift_axis(uy, dist));
}

/// The distance between two points does not depend on which is named
/// first.
pub proof fn lemma_dist_sq_mirrors(a: Vec2, b: Vec2)
    ensures
        dist_sq(a, b) == dist_sq(b, a),
{
    assert((a.x - b.x) * (a.x - b.x) == (b.x - a.x) * (b.x - a.x)) by (nonlinear_arith);
    assert((a.y - b.y) * (a.y - b.y) == (b.y - a.y) * (b.y - a.y)) by (nonlinear_arith);
}

/// One component of the unit direction of a mirrored vector is the
/// opposite of the component of the vector.
proof fn lemma_direction_mirrors(d: int, dist: int)
    ensures
        direction(-d, dist) == -direction(d, dist),
{
    assert((-d) * ONE == -(d * ONE)) by (nonlinear_arith);
}

/// One component of the correction for a mirrored direction is nothing
/// exactly if that for the direction is.
proof fn lemma_shift_mirrors(u: int, dist: int)
    ensures
        shift_axis(-u, dist) == 0 <==> shift_axis(u, dist) == 0,
{
    assert((-u) * slack(dist) == -(u * slack(dist))) by (nonlinear_arith);
}

/// The correction of a pair is nothing exactly if that of the same pair
/// named the other way round is.
pub proof fn lemma_separation_mirrors(pos_a: Vec2, pos_b: Vec2)
    ensures
        separation(pos_b, pos_a) == (Vec2 { x: 0, y: 0 }) <==> separation(pos_a, pos_b) == (Vec2 {
            x: 0,
            y: 0,
        }),
{
    let dx = pos_a.x - pos_b.x;
    let dy = pos_a.y - pos_b.y;
    assert((-dx) * (-dx) == dx * dx) by (nonlinear_arith);
    assert((-dy) * (-dy) == dy * dy) by (nonlinear_arith);
    let dist = norm(dx, dy);
    assert(norm(-dx, -dy) == dist);
    lemma_direction_mirrors(dx, dist);
    lemma_direction_mirrors(dy, dist);
    lemma_shift_mirrors(direction(dx, dist), dist);
    lemma_shift_mirrors(direction(dy, dist), dist);
    assert(pos_b.x - pos_a.x == -dx && pos_b.y - pos_a.y == -dy);
    assert(separation(pos_b, pos_a).x == shift_axis(direction(-dx, dist), dist));
    assert(separation(pos_b, pos_a).y == shift_axis(direction(-dy, dist), dist));
    assert(separation(pos_a, pos_b).x == shift_axis(direction(dx, dist), dist));
    assert(separation(pos_a, pos_b).y == shift_axis(direction(dy, dist), dist));
}

/// Of two balls, a bucket holds those that fall into its cell, the first
/// before the second.
pub proof fn lemma_bucket_of_two(pos: Seq<Vec2>, cell: int)
    requires
        pos.len() == 2,
    ensures
        bucket(pos, cell, 2) =~= (if cell_index(pos[0]) == cell {
            seq![0usize]
        } else {
            Seq::<usize>::empty()
        }) + (if cell_index(pos[1]) == cell {
            seq![1usize]
        } else {
            Seq::<usize>::empty()
        }),
{
    reveal_with_fuel(bucket, 3);
}

/// Relaxing cells without balls changes nothing.
pub proof fn lemma_skip_empty_cells(
    c: Cloud,
    grid: Seq<Seq<usize>>,
    from: int,
    to: int,
    scale: int,
)
    requires
        0 <= from <= to <= CELL_COUNT,
        forall|k: int| from <= k < to ==> (#[trigger] grid[k]).len() == 0,
    ensures
        cells_relaxed(c, grid, from, scale) == cells_relaxed(c, grid, to, scale),
    decreases to - from,
{
    if from < to {
        assert(grid[from].len() == 0);
        let others = neighbors(grid, from % (X_LEN as int), from / (X_LEN as int));
        assert(cell_relaxed(c, grid[from], others, scale) == c);
        lemma_skip_empty_cells(c, grid, from + 1, to, scale);
    }
}

/// Bouncing the balls of a line of cells without balls changes nothing.
pub proof fn lemma_sweep_of_empty_cells(
    t: Trail,
    grid: Seq<Seq<usize>>,
    start: int,
    stride: int,
    from: int,
    count: int,
)
    requires
        0 <= from,
        forall|k: int| from <= k < count ==> (#[trigger] grid[start + k * stride]).len() == 0,
    ensures
        swept(t, grid, start, stride, from, count) == t,
    decreases count - from,
{
    if from < count {
        assert(grid[start + from * stride].len() == 0);
        assert(bounced_all(t, grid[start + from * stride], 0) == t);
        lemma_sweep_of_empty_cells(t, grid, start, stride, from + 1, count);
    }
}

/// A cell with one ball and one ball around it makes the first visit the
/// second.
pub proof fn lemma_cell_of_one(c: Cloud, a: usize, b: usize, scale: int)
    ensures
        cell_relaxed(c, seq![a], seq![b], scale) == visited(
            c,
            c.pos[a as int],
            a as int,
            b as int,
            scale,
            false,
        ),
{
    reveal_with_fuel(paired_within, 2);
    reveal_with_fuel(paired_across, 2);
    reveal_with_fuel(visited_all, 2);
    let cur = seq![a];
    let others = seq![b];
    assert(cur.len() == 1 && cur[0] == a);
    assert(others.len() == 1 && others[0] == b);
    assert(visited_all(c, c.pos[a as int], a as int, cur, 1, scale, true) == c);
    assert(paired_within(c, cur, 0, scale) == c);
    let v = visited(c, c.pos[a as int], a as int, b as int, scale, false);
    assert(visited_all(c, c.pos[a as int], a as int, others, 0, scale, false) == v);
    assert(paired_across(c, cur, others, 0, scale) == v);
}

/// A cell with two balls and none around it makes the first visit the
/// second.
pub proof fn lemma_cell_of_two(c: Cloud, scale: int)
    ensures
        cell_relaxed(c, seq![0usize, 1usize], Seq::<usize>::empty(), scale) == visited(
            c,
            c.pos[0],
            0,
            1,
            scale,
            true,
        ),
{
    reveal_with_fuel(paired_within, 3);
    reveal_with_fuel(paired_across, 3);
    reveal_with_fuel(visited_all, 2);
    let cur = seq![0usize, 1usize];
    let none = Seq::<usize>::empty();
    assert(cur.len() == 2 && cur[0] == 0 && cur[1] == 1);
    let v = visited(c, c.pos[0], 0, 1, scale, true);
    assert(visited_all(c, c.pos[0], 0, cur, 1, scale, true) == v);
    assert(visited_all(v, v.pos[1], 1, cur, 2, scale, true) == v);
    assert(paired_within(v, cur, 1, scale) == v);
    assert(paired_within(c, cur, 0, scale) == v);
    assert(visited_all(v, v.pos[0], 0, none, 0, scale, false) == v);
    assert(visited_all(v, v.pos[1], 1, none, 0, scale, false) == v);
    assert(paired_across(v, cur, none, 1, scale) == v);
    assert(paired_across(v, cur, none, 0, scale) == v);
}

/// Around a cell away from the grid's edge, where no cell but the cell
/// itself holds a ball, there are no balls.
pub proof fn lemma_no_neighbor(grid: Seq<Seq<usize>>, x: int, y: int)
    requires
        1 <= x <= X_LEN - 2,
        1 <= y <= Y_LEN - 2,
        forall|c: int|
            0 <= c < CELL_COUNT && c != y * X_LEN + x ==> (#[trigger] grid[c]).len() == 0,
    ensures
        neighbors(grid, x, y) =~= Seq::<usize>::empty(),
{
    let xs = X_LEN as int;
    assert(bucket_beside(grid, x, y, -1, -1) == grid[(y - 1) * xs + (x - 1)]);
    assert(bucket_beside(grid, x, y, 0, -1) == grid[(y - 1) * xs + x]);
    assert(bucket_beside(grid, x, y, 1, -1) == grid[(y - 1) * xs + (x + 1)]);
    assert(bucket_beside(grid, x, y, -1, 0) == grid[y * xs + (x - 1)]);
    assert(bucket_beside(grid, x, y, 1, 0) == grid[y * xs + (x + 1)]);
    assert(bucket_beside(grid, x, y, -1, 1) == grid[(y + 1) * xs + (x - 1)]);
    assert(bucket_beside(grid, x, y, 0, 1) == grid[(y + 1) * xs + x]);
    assert(bucket_beside(grid, x, y, 1, 1) == grid[(y + 1) * xs + (x + 1)]);
}

/// Around a cell away from the grid's edge, where one cell beside it holds
/// one ball and no cell but these two holds any, there is that one ball.
pub proof fn lemma_one_neighbor(
    grid: Seq<Seq<usize>>,
    x: int,
    y: int,
    tx: int,
    ty: int,
    item: usize,
)
    requires
        1 <= x <= X_LEN - 2,
        1 <= y <= Y_LEN - 2,
        x - 1 <= tx <= x + 1,
        y - 1 <= ty <= y + 1,
        tx != x || ty != y,
        grid[ty * X_LEN + tx] =~= seq![item],
        forall|c: int|
            0 <= c < CELL_COUNT && c != y * X_LEN + x && c != ty * X_LEN + tx ==> (
            #[trigger] grid[c]).len() == 0,
    ensures
        neighbors(grid, x, y) =~= seq![item],
{
    let xs = X_LEN as int;
    assert(bucket_beside(grid, x, y, -1, -1) == grid[(y - 1) * xs + (x - 1)]);
    assert(bucket_beside(grid, x, y, 0, -1) == grid[(y - 1) * xs + x]);
    assert(bucket_beside(grid, x, y, 1, -1) == grid[(y - 1) * xs + (x + 1)]);
    assert(bucket_beside(grid, x, y, -1, 0) == grid[y * xs + (x - 1)]);
    assert(bucket_beside(grid, x, y, 1, 0) == grid[y * xs + (x + 1)]);
    assert(bucket_beside(grid, x, y, -1, 1) == grid[(y + 1) * xs + (x - 1)]);
    assert(bucket_beside(grid, x, y, 0, 1) == grid[(y + 1) * xs + x]);
    assert(bucket_beside(grid, x, y, 1, 1) == grid[(y + 1) * xs + (x + 1)]);
}

/// A ball away from the grid's edge falls into the cell whose row and
/// column its coordinates give without clamping.
pub proof fn lemma_inner_cell(pos: Vec2)
    requires
        !on_edge(pos),
    ensures
        1 <= cell_coord(pos.x as int, X_LEN as int) <= X_LEN - 2,
        1 <= cell_coord(pos.y as int, Y_LEN as int) <= Y_LEN - 2,
        cell_coord(pos.x as int, X_LEN as int) == pos.x / 1_000_000,
        cell_coord(pos.y as int, Y_LEN as int) == pos.y / 1_000_000,
        cell_index(pos) == cell_coord(pos.y as int, Y_LEN as int) * X_LEN + cell_coord(
            pos.x as int,
            X_LEN as int,
        ),
        0 <= cell_index(pos) < CELL_COUNT,
{
}

/// Overlapping balls are less than two radii apart along each axis.
pub proof fn lemma_touching_is_near(pos_a: Vec2, pos_b: Vec2)
    requires
        touching(pos_a, pos_b),
    ensures
        -2 * BALL_SIZE < pos_a.x - pos_b.x < 2 * BALL_SIZE,
        -2 * BALL_SIZE < pos_a.y - pos_b.y < 2 * BALL_SIZE,
{
    let dx = pos_a.x - pos_b.x;
    let dy = pos_a.y - pos_b.y;
    let reach = 2 * BALL_SIZE;
    assert(dx * dx < reach * reach && dy * dy < reach * reach) by (nonlinear_arith)
        requires
            dx * dx + dy * dy < reach * reach,
    ;
    assert(-reach < dx < reach) by (nonlinear_arith)
        requires
            dx * dx < reach * reach,
            reach > 0,
    ;
    assert(-reach < dy < reach) by (nonlinear_arith)
        requires
            dy * dy < reach * reach,
            reach > 0,
    ;
}

/// The cloud after the cells of a grid were relaxed that holds two balls
/// away from its edge, in two cells beside each other: the ball in the
/// lower cell has visited the other, and then the other has visited it.
pub proof fn lemma_two_cells_relaxed(c: Cloud, scale: int, a: usize, b: usize)
    requires
        c.pos.len() == 2,
        c.force.len() == 2,
        a + b == 1,
        !on_edge(c.pos[a as int]),
        !on_edge(c.pos[b as int]),
        touching(c.pos[a as int], c.pos[b as int]),
        cell_index(c.pos[a as int]) < cell_index(c.pos[b as int]),
    ensures
        cells_relaxed(c, grid_of(c.pos), 0, scale) == visited(
            visited(c, c.pos[a as int], a as int, b as int, scale, false),
            visited(c, c.pos[a as int], a as int, b as int, scale, false).pos[b as int],
            b as int,
            a as int,
            scale,
            false,
        ),
{
    let pos = c.pos;
    let grid = grid_of(pos);
    let xs = X_LEN as int;
    let ys = Y_LEN as int;
    let pa = pos[a as int];
    let pb = pos[b as int];
    lemma_inner_cell(pa);
    lemma_inner_cell(pb);
    lemma_touching_is_near(pa, pb);
    let xa = cell_coord(pa.x as int, xs);
    let ya = cell_coord(pa.y as int, ys);
    let xb = cell_coord(pb.x as int, xs);
    let yb = cell_coord(pb.y as int, ys);
    let ca = ya * xs + xa;
    let cb = yb * xs + xb;
    assert(ca == cell_index(pa) && cb == cell_index(pb));
    assert forall|k: int| 0 <= k < CELL_COUNT implies (#[trigger] grid[k]) =~= (if k == ca {
        seq![a]
    } else if k == cb {
        seq![b]
    } else {
        Seq::<usize>::empty()
    }) by {
        lemma_bucket_of_two(pos, k);
        assert(grid[k] == bucket(pos, k, 2));
    }
    assert(ca % xs == xa && ca / xs == ya);
    assert(cb % xs == xb && cb / xs == yb);
    lemma_skip_empty_cells(c, grid, 0, ca, scale);
    assert(grid[cb] =~= seq![b]);
    lemma_one_neighbor(grid, xa, ya, xb, yb, b);
    assert(grid[ca] =~= seq![a]);
    lemma_cell_of_one(c, a, b, scale);
    let v1 = visited(c, pa, a as int, b as int, scale, false);
    assert(cell_relaxed(c, grid[ca], neighbors(grid, ca % xs, ca / xs), scale) == v1);
    assert(cells_relaxed(c, grid, ca, scale) == cells_relaxed(v1, grid, ca + 1, scale));
    lemma_skip_empty_cells(v1, grid, ca + 1, cb, scale);
    lemma_one_neighbor(grid, xb, yb, xa, ya, a);
    lemma_cell_of_one(v1, b, a, scale);
    let v2 = visited(v1, v1.pos[b as int], b as int, a as int, scale, false);
    assert(cell_relaxed(v1, grid[cb], neighbors(grid, cb % xs, cb / xs), scale) == v2);
    assert(cells_relaxed(v1, grid, cb, scale) == cells_relaxed(v2, grid, cb + 1, scale));
    lemma_skip_empty_cells(v2, grid, cb + 1, CELL_COUNT as int, scale);
    assert(cells_relaxed(v2, grid, CELL_COUNT as int, scale) == v2);
}

/// The cloud after the cells of a grid were relaxed that holds two balls
/// in one cell away from its edge: the first ball has visited the second.
pub proof fn lemma_one_cell_relaxed(c: Cloud, scale: int)
    requires
        c.pos.len() == 2,
        c.force.len() == 2,
        !on_edge(c.pos[0]),
        cell_index(c.pos[0]) == cell_index(c.pos[1]),
    ensures
        cells_relaxed(c, grid_of(c.pos), 0, scale) == visited(c, c.pos[0], 0, 1, scale, true),
{
    let pos = c.pos;
    let grid = grid_of(pos);
    let xs = X_LEN as int;
    let ys = Y_LEN as int;
    lemma_inner_cell(pos[0]);
    let x = cell_coord(pos[0].x as int, xs);
    let y = cell_coord(pos[0].y as int, ys);
    let cell = y * xs + x;
    assert(cell == cell_index(pos[0]));
    assert forall|k: int| 0 <= k < CELL_COUNT implies (#[trigger] grid[k]) =~= (if k == cell {
        seq![0usize, 1usize]
    } else {
        Seq::<usize>::empty()
    }) by {
        lemma_bucket_of_two(pos, k);
        assert(grid[k] == bucket(pos, k, 2));
    }
    assert(cell % xs == x && cell / xs == y);
    lemma_skip_empty_cells(c, grid, 0, cell, scale);
    lemma_no_neighbor(grid, x, y);
    assert(grid[cell] =~= seq![0usize, 1usize]);
    lemma_cell_of_two(c, scale);
    let v = visited(c, pos[0], 0, 1, scale, true);
    assert(cell_relaxed(c, grid[cell], neighbors(grid, cell % xs, cell / xs), scale) == v);
    assert(cells_relaxed(c, grid, cell, scale) == cells_relaxed(v, grid, cell + 1, scale));
    lemma_skip_empty_cells(v, grid, cell + 1, CELL_COUNT as int, scale);
    assert(cells_relaxed(v, grid, CELL_COUNT as int, scale) == v);
}

/// No edge cell of a grid holds a ball if every ball is away from the
/// grid's edge, so resolving the walls on that grid changes nothing.
pub proof fn lemma_walls_idle_inside(t: Trail, base: Seq<Vec2>)
    requires
        base.len() == 2,
        !on_edge(base[0]),
        !on_edge(base[1]),
    ensures
        walls_resolved(t, grid_of(base)) == t,
{
    let grid = grid_of(base);
    let xs = X_LEN as int;
    let ys = Y_LEN as int;
    lemma_inner_cell(base[0]);
    lemma_inner_cell(base[1]);
    let c0 = cell_index(base[0]);
    let c1 = cell_index(base[1]);
    assert forall|k: int| 0 <= k < CELL_COUNT && k != c0 && k != c1 implies (#[trigger] grid[k]).len()
        == 0 by {
        lemma_bucket_of_two(base, k);
        assert(grid[k] == bucket(base, k, 2));
    }
    assert forall|k: int| 0 <= k < ys implies (#[trigger] grid[0 + k * xs]).len() == 0 by {
        assert(0 <= 0 + k * xs < CELL_COUNT);
    }
    lemma_sweep_of_empty_cells(t, grid, 0, xs, 0, ys);
    assert forall|k: int| 0 <= k < ys implies (#[trigger] grid[xs - 1 + k * xs]).len() == 0 by {
        assert(0 <= xs - 1 + k * xs < CELL_COUNT);
    }
    lemma_sweep_of_empty_cells(t, grid, xs - 1, xs, 0, ys);
    assert forall|k: int| 0 <= k < xs implies (#[trigger] grid[0 + k * 1]).len() == 0 by {
        assert(0 <= 0 + k * 1 < CELL_COUNT);
    }
    lemma_sweep_of_empty_cells(t, grid, 0, 1, 0, xs);
    assert forall|k: int| 0 <= k < xs implies (#[trigger] grid[(ys - 1) * xs + k * 1]).len()
        == 0 by {
        assert(0 <= (ys - 1) * xs + k * 1 < CELL_COUNT);
    }
    lemma_sweep_of_empty_cells(t, grid, (ys - 1) * xs, 1, 0, xs);
}

/// Along each axis two balls are no further apart than a pair can be right
/// after a correction: two radii and twice the longest correction.
pub open spec fn within_reach(q0: Vec2, q1: Vec2) -> bool {
    &&& -1_400_000 <= q0.x - q1.x <= 1_400_000
    &&& -1_400_000 <= q0.y - q1.y <= 1_400_000
}

/// Two visits of an overlapping pair, each by a ball that stands where its
/// visit begins, never bring the two closer, and move them strictly apart
/// unless the first correction is nothing.
proof fn lemma_two_visits_move_apart(c: Cloud, scale: int, a: usize, b: usize)
    requires
        c.pos.len() == 2,
        c.force.len() == 2,
        a + b == 1,
        !on_edge(c.pos[a as int]),
        !on_edge(c.pos[b as int]),
        touching(c.pos[a as int], c.pos[b as int]),
    ensures
        ({
            let v1 = visited(c, c.pos[a as int], a as int, b as int, scale, false);
            let v2 = visited(v1, v1.pos[b as int], b as int, a as int, scale, false);
            &&& v2.pos.len() == 2
            &&& dist_sq(v2.pos[a as int], v2.pos[b as int]) >= dist_sq(
                c.pos[a as int],
                c.pos[b as int],
            )
            &&& separation(c.pos[a as int], c.pos[b as int]) != (Vec2 { x: 0, y: 0 }) ==> dist_sq(
                v2.pos[a as int],
                v2.pos[b as int],
            ) > dist_sq(c.pos[a as int], c.pos[b as int])
            &&& parted(c.pos[a as int], c.pos[b as int], v2.pos[a as int], v2.pos[b as int])
            &&& within_reach(v2.pos[a as int], v2.pos[b as int])
        }),
{
    let pa = c.pos[a as int];
    let pb = c.pos[b as int];
    lemma_inner_cell(pa);
    lemma_inner_cell(pb);
    lemma_touching_is_near(pa, pb);
    lemma_separation_small(pa, pb);
    lemma_visit_moves_apart(c, a as int, b as int, scale, false);
    let v1 = visited(c, pa, a as int, b as int, scale, false);
    let qa = v1.pos[a as int];
    let qb = v1.pos[b as int];
    let v2 = visited(v1, qb, b as int, a as int, scale, false);
    lemma_dist_sq_mirrors(qa, qb);
    if touching(qb, qa) {
        lemma_touching_is_near(qb, qa);
        lemma_separation_small(qb, qa);
        lemma_visit_moves_apart(v1, b as int, a as int, scale, false);
        lemma_dist_sq_mirrors(v2.pos[a as int], v2.pos[b as int]);
    } else {
        lemma_visit_keeps_apart(v1, b as int, a as int, scale, false);
    }
}

/// A relaxation pass over two overlapping balls alone, both away from the
/// grid's edge, never brings them closer, and moves them strictly apart
/// unless their correction is nothing: for coincident centres, or so near
/// to contact that it rounds away. The pass leaves their previous positions
/// alone.
pub proof fn lemma_pass_parts_a_pair(w: World, scale: int)
    requires
        w.aligned(),
        w.count() == 2,
        !on_edge(w.pos[0]),
        !on_edge(w.pos[1]),
        touching(w.pos[0], w.pos[1]),
    ensures
        pass(w, scale).pos.len() == 2,
        pass(w, scale).prev == w.prev,
        dist_sq(pass(w, scale).pos[0], pass(w, scale).pos[1]) >= dist_sq(w.pos[0], w.pos[1]),
        separation(w.pos[0], w.pos[1]) != (Vec2 { x: 0, y: 0 }) ==> dist_sq(
            pass(w, scale).pos[0],
            pass(w, scale).pos[1],
        ) > dist_sq(w.pos[0], w.pos[1]),
        parted(w.pos[0], w.pos[1], pass(w, scale).pos[0], pass(w, scale).pos[1]),
        within_reach(pass(w, scale).pos[0], pass(w, scale).pos[1]),
        pass(w, scale).aligned(),
{
    lemma_pass_shape(w, scale);
    let c = Cloud { pos: w.pos, force: w.force };
    let grid = grid_of(w.pos);
    let p0 = w.pos[0];
    let p1 = w.pos[1];
    let r = cells_relaxed(c, grid, 0, scale);
    lemma_walls_idle_inside((Trail { pos: r.pos, prev: w.prev }), w.pos);
    assert(pass(w, scale).pos == r.pos);
    lemma_dist_sq_mirrors(p0, p1);
    lemma_separation_mirrors(p0, p1);
    if cell_index(p0) == cell_index(p1) {
        lemma_one_cell_relaxed(c, scale);
        lemma_inner_cell(p0);
        lemma_inner_cell(p1);
        lemma_touching_is_near(p0, p1);
        lemma_separation_small(p0, p1);
        lemma_visit_moves_apart(c, 0, 1, scale, true);
    } else if cell_index(p0) < cell_index(p1) {
        lemma_two_cells_relaxed(c, scale, 0, 1);
        lemma_two_visits_move_apart(c, scale, 0, 1);
    } else {
        lemma_touching_mirrors(p0, p1);
        lemma_two_cells_relaxed(c, scale, 1, 0);
        lemma_two_visits_move_apart(c, scale, 1, 0);
        lemma_dist_sq_mirrors(r.pos[0], r.pos[1]);
    }
}

/// Whether two balls overlap does not depend on which is named first.
pub proof fn lemma_touching_mirrors(a: Vec2, b: Vec2)
    ensures
        touching(a, b) == touching(b, a),
{
    lemma_dist_sq_mirrors(a, b);
}

/// A ball is at least two cells away from every wall.
pub open spec fn well_inside(p: Vec2) -> bool {
    &&& 2 * GRID_SIZE <= p.x <= WIDTH - 2 * GRID_SIZE
    &&& 2 * GRID_SIZE <= p.y <= HEIGHT - 2 * GRID_SIZE
}

/// Two balls that overlapped well inside the domain and were parted since,
/// no further than a correction reaches, are still away from the grid's
/// edge.
pub proof fn lemma_parted_stays_inner(o0: Vec2, o1: Vec2, q0: Vec2, q1: Vec2)
    requires
        well_inside(o0),
        well_inside(o1),
        touching(o0, o1),
        parted(o0, o1, q0, q1),
        within_reach(q0, q1),
    ensures
        !on_edge(q0),
        !on_edge(q1),
{
    lemma_touching_is_near(o0, o1);
    assert(1_300_000 <= q0.x <= WIDTH - 1_300_000);
    assert(1_300_000 <= q1.x <= WIDTH - 1_300_000);
    assert(1_300_000 <= q0.y <= HEIGHT - 1_300_000);
    assert(1_300_000 <= q1.y <= HEIGHT - 1_300_000);
}

/// A relaxation pass over two balls alone that do not overlap, both away
/// from the grid's edge, moves neither.
pub proof fn lemma_pass_leaves_a_pair(w: World, scale: int)
    requires
        w.aligned(),
        w.count() == 2,
        !on_edge(w.pos[0]),
        !on_edge(w.pos[1]),
        !touching(w.pos[0], w.pos[1]),
    ensures
        pass(w, scale).pos == w.pos,
        pass(w, scale).prev == w.prev,
        pass(w, scale).aligned(),
{
    lemma_pass_shape(w, scale);
    lemma_touching_mirrors(w.pos[0], w.pos[1]);
    lemma_inner_cells_are_clear(w.pos[0]);
    lemma_inner_cells_are_clear(w.pos[1]);
    assert(separated(w.pos));
    assert(all_clear(w.pos));
    lemma_pass_keeps_separated(w, scale);
}

/// Relaxation passes over two balls alone that once overlapped at `o0` and
/// `o1`, well inside the domain, and have been parted since: the passes
/// part them further or leave them, and never bring them closer.
proof fn lemma_relaxed_of_two(o0: Vec2, o1: Vec2, w: World, scale: int, passes: nat)
    requires
        w.aligned(),
        w.count() == 2,
        well_inside(o0),
        well_inside(o1),
        touching(o0, o1),
        parted(o0, o1, w.pos[0], w.pos[1]),
        within_reach(w.pos[0], w.pos[1]),
    ensures
        relaxed(w, scale, passes).pos.len() == 2,
        relaxed(w, scale, passes).prev == w.prev,
        parted(o0, o1, relaxed(w, scale, passes).pos[0], relaxed(w, scale, passes).pos[1]),
        parted(
            w.pos[0],
            w.pos[1],
            relaxed(w, scale, passes).pos[0],
            relaxed(w, scale, passes).pos[1],
        ),
        within_reach(relaxed(w, scale, passes).pos[0], relaxed(w, scale, passes).pos[1]),
    decreases passes,
{
    if passes > 0 {
        lemma_parted_stays_inner(o0, o1, w.pos[0], w.pos[1]);
        if touching(w.pos[0], w.pos[1]) {
            lemma_pass_parts_a_pair(w, scale);
        } else {
            lemma_pass_leaves_a_pair(w, scale);
        }
        lemma_relaxed_of_two(o0, o1, pass(w, scale), scale, (passes - 1) as nat);
    }
}

/// Any number of relaxation passes over two overlapping balls alone, both
/// at least two cells from every wall, parts them: the point midway between
/// them stays, along each axis their gap widens or stays, they never come
/// closer, and they end strictly further apart unless their first
/// correction is nothing. It is something for any two distinct centres that
/// are four units or more short of contact. Their previous positions stay
/// as they were.
pub proof fn lemma_relaxed_parts_a_pair(w: World, scale: int, passes: nat)
    requires
        w.aligned(),
        w.count() == 2,
        well_inside(w.pos[0]),
        well_inside(w.pos[1]),
        touching(w.pos[0], w.pos[1]),
    ensures
        relaxed(w, scale, passes).pos.len() == 2,
        relaxed(w, scale, passes).prev == w.prev,
        parted(
            w.pos[0],
            w.pos[1],
            relaxed(w, scale, passes).pos[0],
            relaxed(w, scale, passes).pos[1],
        ),
        dist_sq(relaxed(w, scale, passes).pos[0], relaxed(w, scale, passes).pos[1]) >= dist_sq(
            w.pos[0],
            w.pos[1],
        ),
        passes >= 1 && separation(w.pos[0], w.pos[1]) != (Vec2 { x: 0, y: 0 }) ==> dist_sq(
            relaxed(w, scale, passes).pos[0],
            relaxed(w, scale, passes).pos[1],
        ) > dist_sq(w.pos[0], w.pos[1]),
        passes >= 1 && w.pos[0] != w.pos[1] && dist_sq(w.pos[0], w.pos[1]) < (2 * BALL_SIZE - 3)
            * (2 * BALL_SIZE - 3) ==> dist_sq(
            relaxed(w, scale, passes).pos[0],
            relaxed(w, scale, passes).pos[1],
        ) > dist_sq(w.pos[0], w.pos[1]),
{
    let p0 = w.pos[0];
    let p1 = w.pos[1];
    if p0 != p1 && dist_sq(p0, p1) < (2 * BALL_SIZE - 3) * (2 * BALL_SIZE - 3) {
        lemma_overlap_is_corrected(p0, p1);
    }
    lemma_touching_is_near(p0, p1);
    lemma_relaxed_of_two(p0, p1, w, scale, passes);
    let r = relaxed(w, scale, passes);
    lemma_parted_is_no_closer(p0, p1, r.pos[0], r.pos[1]);
    if passes >= 1 {
        lemma_parted_stays_inner(p0, p1, p0, p1);
        lemma_pass_parts_a_pair(w, scale);
        let v = pass(w, scale);
        lemma_relaxed_of_two(p0, p1, v, scale, (passes - 1) as nat);
        lemma_parted_is_no_closer(v.pos[0], v.pos[1], r.pos[0], r.pos[1]);
    }
}

} // verus!
