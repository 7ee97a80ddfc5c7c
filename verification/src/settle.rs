//! Two balls alone, one above the other: the relaxation passes of a time
//! step bring them to contact and not beyond it.
use vstd::prelude::*;
use crate::constants::BALL_SIZE;
use crate::contact::{separation, shift_axis, slack, touching, visited, Cloud};
use crate::fixed::{lemma_floor_sqrt_unique, ONE};
use crate::grid::{cell_index, grid_of, on_edge};
use crate::pairs::{
    lemma_inner_cell, lemma_one_cell_relaxed, lemma_parted_stays_inner,
    lemma_pass_leaves_a_pair, lemma_separation_small, lemma_touching_is_near,
    lemma_touching_mirrors, lemma_two_cells_relaxed, lemma_walls_idle_inside, well_inside,
};
use crate::relax::cells_relaxed;
use crate::separation::{lemma_visit_keeps_apart, lemma_visit_moves_apart, parted, room_for};
use crate::shape::lemma_pass_shape;
use crate::vector::{direction, norm, Vec2};
use crate::wall::Trail;
use crate::world::{pass, relaxed, World, RELAXATION_PASSES};

verus! {

/// What is missing between two balls, one above the other, for their
/// centres to be two radii apart.
pub open spec fn gap(q0: Vec2, q1: Vec2) -> int {
    if q0.y >= q1.y {
        2 * BALL_SIZE - (q0.y - q1.y)
    } else {
        2 * BALL_SIZE - (q1.y - q0.y)
    }
}

/// What one correction leaves of a gap `g`: each ball takes up half of
/// three quarters of it, both quotients rounded down.
pub open spec fn gap_left(g: int) -> int {
    g - 2 * ((3 * g / 4) / 2)
}

/// Two balls, one above the other, overlap exactly if there is a gap left
/// between them.
pub proof fn lemma_upright_touching(q0: Vec2, q1: Vec2)
    requires
        q0.x == q1.x,
    ensures
        touching(q0, q1) <==> gap(q0, q1) > 0,
{
    let dy = q0.y - q1.y;
    let reach = 2 * BALL_SIZE;
    assert((q0.x - q1.x) * (q0.x - q1.x) == 0) by (nonlinear_arith)
        requires
            q0.x - q1.x == 0,
    ;
    if -reach < dy < reach {
        assert(dy * dy < reach * reach) by (nonlinear_arith)
            requires
                -reach < dy < reach,
        ;
    } else {
        assert(dy * dy >= reach * reach) by (nonlinear_arith)
            requires
                dy <= -reach || dy >= reach,
                reach > 0,
        ;
    }
}

/// A visit of two overlapping balls, one above the other, by a ball that
/// stands where its visit begins: both stay on their line, and each takes
/// up its half of three quarters of the gap.
pub proof fn lemma_upright_visit(c: Cloud, a: int, b: int, scale: int, mutual: bool)
    requires
        0 <= a < c.pos.len(),
        0 <= b < c.pos.len(),
        c.force.len() == c.pos.len(),
        a != b,
        room_for(c.pos[a], c.pos[b], separation(c.pos[a], c.pos[b])),
        c.pos[a].x == c.pos[b].x,
        c.pos[a].y != c.pos[b].y,
        touching(c.pos[a], c.pos[b]),
    ensures
        visited(c, c.pos[a], a, b, scale, mutual).pos[a].x == c.pos[a].x,
        visited(c, c.pos[a], a, b, scale, mutual).pos[b].x == c.pos[b].x,
        parted(
            c.pos[a],
            c.pos[b],
            visited(c, c.pos[a], a, b, scale, mutual).pos[a],
            visited(c, c.pos[a], a, b, scale, mutual).pos[b],
        ),
        gap(
            visited(c, c.pos[a], a, b, scale, mutual).pos[a],
            visited(c, c.pos[a], a, b, scale, mutual).pos[b],
        ) == gap_left(gap(c.pos[a], c.pos[b])),
{
    let pa = c.pos[a];
    let pb = c.pos[b];
    let dy = pa.y - pb.y;
    let ady = if dy >= 0 { dy } else { -dy };
    let g = gap(pa, pb);
    lemma_upright_touching(pa, pb);
    lemma_visit_moves_apart(c, a, b, scale, mutual);
    let n = 0 * 0 + dy * dy;
    assert(n == ady * ady) by (nonlinear_arith)
        requires
            n == 0 * 0 + dy * dy,
            ady == dy || ady == -dy,
    ;
    assert(ady * ady < (ady + 1) * (ady + 1)) by (nonlinear_arith)
        requires
            ady >= 0,
    ;
    lemma_floor_sqrt_unique(n, ady);
    let dist = norm(pa.x - pb.x, dy);
    assert(dist == ady);
    let m = slack(dist);
    let t = 3 * g / 4;
    assert(m == -t);
    assert(direction(0, dist) == 0) by {
        assert(0 * ONE == 0);
        assert(0int / dist == 0) by (nonlinear_arith)
            requires
                dist > 0,
        ;
    }
    assert(0 * m == 0) by (nonlinear_arith);
    assert(shift_axis(0, dist) == 0);
    let s = separation(pa, pb);
    assert(s.x == shift_axis(direction(pa.x - pb.x, dist), dist));
    assert(s.y == shift_axis(direction(dy, dist), dist));
    assert(s.x == 0);
    if dy > 0 {
        assert((dy * ONE) / dy == ONE) by (nonlinear_arith)
            requires
                dy > 0,
        ;
        assert(dy * ONE >= 0) by (nonlinear_arith)
            requires
                dy > 0,
        ;
        let u = direction(dy, dist);
        assert(u == ONE);
        assert(u * m == -(100_000 * t)) by (nonlinear_arith)
            requires
                u == 100_000,
                m == -t,
        ;
        assert((100_000 * t) / 200_000 == t / 2);
        assert(s.y == -(t / 2));
    } else {
        assert(((-dy) * ONE) / (-dy) == ONE) by (nonlinear_arith)
            requires
                dy < 0,
        ;
        assert(dy * ONE < 0 && -(dy * ONE) == (-dy) * ONE) by (nonlinear_arith)
            requires
                dy < 0,
        ;
        let u = direction(dy, dist);
        assert(u == -ONE);
        assert(u * m == 100_000 * t) by (nonlinear_arith)
            requires
                u == -100_000,
                m == -t,
        ;
        assert((100_000 * t) / 200_000 == t / 2);
        assert(s.y == t / 2);
    }
}

/// A correction never takes two balls beyond contact, takes up at least
/// three quarters of their gap but for the rounding, and leaves a gap of
/// three units or more smaller than it was.
pub proof fn lemma_gap_left(g: int)
    requires
        g >= 0,
    ensures
        0 <= gap_left(g) <= g,
        4 * gap_left(g) <= g + 12,
        g >= 3 ==> gap_left(g) < g,
{
}

/// The world holds two balls alone, one above the other and not beyond
/// contact.
pub open spec fn upright_pair(w: World) -> bool {
    &&& w.aligned()
    &&& w.count() == 2
    &&& w.pos[0].x == w.pos[1].x
    &&& w.pos[0].y != w.pos[1].y
    &&& gap(w.pos[0], w.pos[1]) >= 0
}

/// Two visits across cells of two balls, one above the other, each by a
/// ball that stands where its visit begins: both stay on their line, and
/// their gap shrinks to a quarter or less but for the rounding, never below
/// nothing.
proof fn lemma_upright_visits(c: Cloud, scale: int, a: usize, b: usize)
    requires
        c.pos.len() == 2,
        c.force.len() == 2,
        a + b == 1,
        !on_edge(c.pos[a as int]),
        !on_edge(c.pos[b as int]),
        c.pos[a as int].x == c.pos[b as int].x,
        c.pos[a as int].y != c.pos[b as int].y,
        gap(c.pos[a as int], c.pos[b as int]) > 0,
    ensures
        ({
            let v1 = visited(c, c.pos[a as int], a as int, b as int, scale, false);
            let v2 = visited(v1, v1.pos[b as int], b as int, a as int, scale, false);
            let g = gap(c.pos[a as int], c.pos[b as int]);
            &&& v2.pos.len() == 2
            &&& v2.pos[a as int].x == c.pos[a as int].x
            &&& v2.pos[b as int].x == c.pos[b as int].x
            &&& parted(c.pos[a as int], c.pos[b as int], v2.pos[a as int], v2.pos[b as int])
            &&& 0 <= gap(v2.pos[a as int], v2.pos[b as int]) <= g
            &&& 4 * gap(v2.pos[a as int], v2.pos[b as int]) <= g + 12
            &&& g >= 3 ==> gap(v2.pos[a as int], v2.pos[b as int]) < g
        }),
{
    let pa = c.pos[a as int];
    let pb = c.pos[b as int];
    let g = gap(pa, pb);
    lemma_upright_touching(pa, pb);
    lemma_inner_cell(pa);
    lemma_inner_cell(pb);
    lemma_touching_is_near(pa, pb);
    lemma_separation_small(pa, pb);
    lemma_upright_visit(c, a as int, b as int, scale, false);
    lemma_gap_left(g);
    let v1 = visited(c, pa, a as int, b as int, scale, false);
    let qa = v1.pos[a as int];
    let qb = v1.pos[b as int];
    let g1 = gap(qb, qa);
    assert(g1 == gap(qa, qb));
    lemma_upright_touching(qb, qa);
    if g1 > 0 {
        lemma_touching_is_near(qb, qa);
        lemma_separation_small(qb, qa);
        lemma_upright_visit(v1, b as int, a as int, scale, false);
        lemma_gap_left(g1);
    } else {
        lemma_visit_keeps_apart(v1, b as int, a as int, scale, false);
    }
}

/// A relaxation pass over two balls alone, one above the other and away
/// from the grid's edge: both stay on their line, and their gap shrinks to
/// a quarter or less but for the rounding, never below nothing.
pub proof fn lemma_pass_of_upright(w: World, scale: int)
    requires
        upright_pair(w),
        !on_edge(w.pos[0]),
        !on_edge(w.pos[1]),
    ensures
        upright_pair(pass(w, scale)),
        pass(w, scale).prev == w.prev,
        pass(w, scale).pos[0].x == w.pos[0].x,
        pass(w, scale).pos[1].x == w.pos[1].x,
        parted(w.pos[0], w.pos[1], pass(w, scale).pos[0], pass(w, scale).pos[1]),
        gap(pass(w, scale).pos[0], pass(w, scale).pos[1]) <= gap(w.pos[0], w.pos[1]),
        4 * gap(pass(w, scale).pos[0], pass(w, scale).pos[1]) <= gap(w.pos[0], w.pos[1]) + 12,
        gap(w.pos[0], w.pos[1]) >= 3 ==> gap(pass(w, scale).pos[0], pass(w, scale).pos[1]) < gap(
            w.pos[0],
            w.pos[1],
        ),
{
    let p0 = w.pos[0];
    let p1 = w.pos[1];
    let g = gap(p0, p1);
    lemma_pass_shape(w, scale);
    lemma_upright_touching(p0, p1);
    if g == 0 {
        lemma_pass_leaves_a_pair(w, scale);
    } else {
        let c = Cloud { pos: w.pos, force: w.force };
        let r = cells_relaxed(c, grid_of(w.pos), 0, scale);
        lemma_walls_idle_inside((Trail { pos: r.pos, prev: w.prev }), w.pos);
        assert(pass(w, scale).pos == r.pos);
        if cell_index(p0) == cell_index(p1) {
            lemma_one_cell_relaxed(c, scale);
            lemma_inner_cell(p0);
            lemma_inner_cell(p1);
            lemma_touching_is_near(p0, p1);
            lemma_separation_small(p0, p1);
            lemma_upright_visit(c, 0, 1, scale, true);
            lemma_gap_left(g);
        } else if cell_index(p0) < cell_index(p1) {
            lemma_two_cells_relaxed(c, scale, 0, 1);
            lemma_upright_visits(c, scale, 0, 1);
        } else {
            lemma_touching_mirrors(p0, p1);
            lemma_two_cells_relaxed(c, scale, 1, 0);
            lemma_upright_visits(c, scale, 1, 0);
        }
    }
}

/// The bound on a gap after some passes, where it was `bound` before: each
/// pass leaves a quarter of it, but for the rounding.
pub open spec fn settled(bound: int, passes: nat) -> int
    decreases passes,
{
    if passes == 0 {
        bound
    } else {
        settled((bound + 12) / 4, (passes - 1) as nat)
    }
}

/// Relaxation passes over two balls alone, one above the other, that once
/// overlapped at `o0` and `o1` well inside the domain and have been parted
/// since: both stay on their line, and their gap shrinks as `settled` says.
proof fn lemma_relaxed_of_upright(
    o0: Vec2,
    o1: Vec2,
    w: World,
    scale: int,
    passes: nat,
    bound: int,
)
    requires
        upright_pair(w),
        well_inside(o0),
        well_inside(o1),
        touching(o0, o1),
        parted(o0, o1, w.pos[0], w.pos[1]),
        gap(w.pos[0], w.pos[1]) <= bound,
    ensures
        upright_pair(relaxed(w, scale, passes)),
        relaxed(w, scale, passes).prev == w.prev,
        relaxed(w, scale, passes).pos[0].x == w.pos[0].x,
        relaxed(w, scale, passes).pos[1].x == w.pos[1].x,
        parted(o0, o1, relaxed(w, scale, passes).pos[0], relaxed(w, scale, passes).pos[1]),
        parted(
            w.pos[0],
            w.pos[1],
            relaxed(w, scale, passes).pos[0],
            relaxed(w, scale, passes).pos[1],
        ),
        gap(relaxed(w, scale, passes).pos[0], relaxed(w, scale, passes).pos[1]) <= gap(
            w.pos[0],
            w.pos[1],
        ),
        gap(relaxed(w, scale, passes).pos[0], relaxed(w, scale, passes).pos[1]) <= settled(
            bound,
            passes,
        ),
    decreases passes,
{
    if passes > 0 {
        lemma_parted_stays_inner(o0, o1, w.pos[0], w.pos[1]);
        lemma_pass_of_upright(w, scale);
        lemma_relaxed_of_upright(
            o0,
            o1,
            pass(w, scale),
            scale,
            (passes - 1) as nat,
            (bound + 12) / 4,
        );
    }
}

/// The relaxation passes of one time step over two balls alone, one above
/// the other, at least two cells from every wall, that overlap by no more
/// than a radius: both stay on their line with the point midway between
/// them unmoved, they end in contact or short of it by a ten thousandth of
/// a world unit at most, never beyond it, and closer to contact than they
/// began unless they began within three units of it.
pub proof fn lemma_upright_pair_settles(w: World, scale: int)
    requires
        w.aligned(),
        w.count() == 2,
        well_inside(w.pos[0]),
        well_inside(w.pos[1]),
        w.pos[0].x == w.pos[1].x,
        0 < gap(w.pos[0], w.pos[1]) <= BALL_SIZE,
    ensures
        relaxed(w, scale, RELAXATION_PASSES as nat).pos.len() == 2,
        relaxed(w, scale, RELAXATION_PASSES as nat).prev == w.prev,
        relaxed(w, scale, RELAXATION_PASSES as nat).pos[0].x == w.pos[0].x,
        relaxed(w, scale, RELAXATION_PASSES as nat).pos[1].x == w.pos[1].x,
        parted(
            w.pos[0],
            w.pos[1],
            relaxed(w, scale, RELAXATION_PASSES as nat).pos[0],
            relaxed(w, scale, RELAXATION_PASSES as nat).pos[1],
        ),
        0 <= gap(
            relaxed(w, scale, RELAXATION_PASSES as nat).pos[0],
            relaxed(w, scale, RELAXATION_PASSES as nat).pos[1],
        ) <= 10,
        gap(
            relaxed(w, scale, RELAXATION_PASSES as nat).pos[0],
            relaxed(w, scale, RELAXATION_PASSES as nat).pos[1],
        ) <= gap(w.pos[0], w.pos[1]),
        gap(w.pos[0], w.pos[1]) >= 3 ==> gap(
            relaxed(w, scale, RELAXATION_PASSES as nat).pos[0],
            relaxed(w, scale, RELAXATION_PASSES as nat).pos[1],
        ) < gap(w.pos[0], w.pos[1]),
{
    let p0 = w.pos[0];
    let p1 = w.pos[1];
    lemma_upright_touching(p0, p1);
    assert(upright_pair(w));
    lemma_relaxed_of_upright(p0, p1, w, scale, RELAXATION_PASSES as nat, BALL_SIZE as int);
    assert(settled(BALL_SIZE as int, RELAXATION_PASSES as nat) == 10) by {
        reveal_with_fuel(settled, 9);
    }
    lemma_parted_stays_inner(p0, p1, p0, p1);
    lemma_pass_of_upright(w, scale);
    let v = pass(w, scale);
    lemma_relaxed_of_upright(p0, p1, v, scale, (RELAXATION_PASSES - 1) as nat, BALL_SIZE as int);
    assert(relaxed(w, scale, RELAXATION_PASSES as nat) == relaxed(
        v,
        scale,
        (RELAXATION_PASSES - 1) as nat,
    ));
}

} // verus!
