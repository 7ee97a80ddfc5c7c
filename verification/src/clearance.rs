//! What resolving the walls achieves: every ball that the grid holds in an
//! edge cell ends clear of all four walls, and on a fresh grid that is
//! every ball there is.
use vstd::prelude::*;
use crate::constants::{CELL_COUNT, X_LEN, Y_LEN};
use crate::contact::Cloud;
use crate::grid::{
    bucket, cell_coord, cell_index, grid_of, indexes, lemma_bucket_holds, on_edge,
};
use crate::relax::{cells_relaxed, indexes_below};
use crate::shape::{
    lemma_bounced_all_shape, lemma_bucket_of_indexes, lemma_cells_relaxed_shape,
    lemma_grid_indexes, lemma_line_in_grid, lemma_swept_shape,
};
use crate::vector::Vec2;
use crate::wall::{
    bounced, bounced_all, bounced_at, clear_of_walls, swept, walls_resolved, Trail,
};
use crate::world::{pass, World};

verus! {

/// Between two trails, every ball either is where it was, with the previous
/// position it had, or stands clear of the walls.
pub open spec fn kept_or_clear(before: Trail, after: Trail) -> bool {
    forall|i: int|
        0 <= i < before.pos.len() ==> (#[trigger] after.pos[i] == before.pos[i] && after.prev[i]
            == before.prev[i]) || clear_of_walls(after.pos[i])
}

/// A bounce puts any ball clear of the walls, and does nothing to a ball
/// that stands clear of them.
pub proof fn lemma_bounce_clears(pos: Vec2, prev: Vec2)
    ensures
        clear_of_walls(bounced(pos, prev).0),
        clear_of_walls(pos) ==> bounced(pos, prev) == (pos, prev),
{
}

/// After the balls of a list have bounced, each of them stands clear of the
/// walls, and every other ball is where it was.
pub proof fn lemma_bounced_all_clears(t: Trail, list: Seq<usize>, from: int, n: int)
    requires
        t.has(n),
        indexes_below(list, n),
        0 <= from,
    ensures
        bounced_all(t, list, from).has(n),
        kept_or_clear(t, bounced_all(t, list, from)),
        forall|k: int|
            from <= k < list.len() ==> clear_of_walls(
                bounced_all(t, list, from).pos[(#[trigger] list[k]) as int],
            ),
    decreases list.len() - from,
{
    lemma_bounced_all_shape(t, list, from, n);
    if from < list.len() {
        let idx = list[from] as int;
        let t1 = bounced_at(t, idx);
        let r = bounced_all(t1, list, from + 1);
        lemma_bounce_clears(t.pos[idx], t.prev[idx]);
        lemma_bounced_all_clears(t1, list, from + 1, n);
        assert forall|i: int| 0 <= i < t.pos.len() implies (#[trigger] r.pos[i] == t.pos[i]
            && r.prev[i] == t.prev[i]) || clear_of_walls(r.pos[i]) by {
            if !clear_of_walls(r.pos[i]) {
                assert(r.pos[i] == t1.pos[i] && r.prev[i] == t1.prev[i]);
            }
        }
        assert forall|k: int| from <= k < list.len() implies clear_of_walls(
            r.pos[(#[trigger] list[k]) as int],
        ) by {
            if k == from {
                assert(r.pos[idx] == t1.pos[idx] || clear_of_walls(r.pos[idx]));
            }
        }
    }
}

/// After the balls of a line of cells have bounced, each of them stands
/// clear of the walls, and every other ball is where it was.
pub proof fn lemma_swept_clears(
    t: Trail,
    grid: Seq<Seq<usize>>,
    start: int,
    stride: int,
    from: int,
    count: int,
    n: int,
)
    requires
        t.has(n),
        grid.len() == CELL_COUNT,
        indexes(grid, n),
        0 <= start,
        0 <= stride,
        0 <= from,
        start + (count - 1) * stride < CELL_COUNT,
    ensures
        swept(t, grid, start, stride, from, count).has(n),
        kept_or_clear(t, swept(t, grid, start, stride, from, count)),
        forall|k: int, j: int|
            from <= k < count && 0 <= j < grid[start + k * stride].len() ==> clear_of_walls(
                swept(t, grid, start, stride, from, count).pos[(#[trigger] grid[start + k
                    * stride][j]) as int],
            ),
    decreases count - from,
{
    lemma_swept_shape(t, grid, start, stride, from, count, n);
    if from < count {
        lemma_line_in_grid(start, stride, from, count);
        let cell = start + from * stride;
        lemma_bucket_of_indexes(grid, cell, n);
        let t1 = bounced_all(t, grid[cell], 0);
        let r = swept(t1, grid, start, stride, from + 1, count);
        lemma_bounced_all_clears(t, grid[cell], 0, n);
        lemma_swept_clears(t1, grid, start, stride, from + 1, count, n);
        assert forall|i: int| 0 <= i < t.pos.len() implies (#[trigger] r.pos[i] == t.pos[i]
            && r.prev[i] == t.prev[i]) || clear_of_walls(r.pos[i]) by {
            if !clear_of_walls(r.pos[i]) {
                assert(r.pos[i] == t1.pos[i] && r.prev[i] == t1.prev[i]);
                assert(t1.pos[i] == t.pos[i] || clear_of_walls(t1.pos[i]));
            }
        }
        assert forall|k: int, j: int|
            from <= k < count && 0 <= j < grid[start + k * stride].len() implies clear_of_walls(
            r.pos[(#[trigger] grid[start + k * stride][j]) as int],
        ) by {
            if k == from {
                let idx = grid[cell][j] as int;
                assert(clear_of_walls(t1.pos[idx]));
                assert(r.pos[idx] == t1.pos[idx] || clear_of_walls(r.pos[idx]));
            }
        }
    }
}

/// A ball in no edge cell of the grid stands clear of the walls.
pub proof fn lemma_inner_cells_are_clear(pos: Vec2)
    ensures
        !on_edge(pos) ==> clear_of_walls(pos),
{
}

/// Resolving the walls on the grid of the positions `base` leaves every
/// ball that this grid holds in an edge cell clear of all four walls, and
/// every other ball where it was unless it stands clear of them too.
pub proof fn lemma_walls_clear_the_edge(t: Trail, base: Seq<Vec2>)
    requires
        t.has(base.len() as int),
        base.len() <= usize::MAX,
    ensures
        walls_resolved(t, grid_of(base)).has(base.len() as int),
        kept_or_clear(t, walls_resolved(t, grid_of(base))),
        forall|i: int|
            0 <= i < base.len() && on_edge(base[i]) ==> clear_of_walls(
                #[trigger] walls_resolved(t, grid_of(base)).pos[i],
            ),
{
    let n = base.len() as int;
    let grid = grid_of(base);
    let xs = X_LEN as int;
    let ys = Y_LEN as int;
    lemma_grid_indexes(base);
    let left = swept(t, grid, 0, xs, 0, ys);
    lemma_swept_clears(t, grid, 0, xs, 0, ys, n);
    let right = swept(left, grid, xs - 1, xs, 0, ys);
    lemma_swept_clears(left, grid, xs - 1, xs, 0, ys, n);
    let bottom = swept(right, grid, 0, 1, 0, xs);
    lemma_swept_clears(right, grid, 0, 1, 0, xs, n);
    let top = swept(bottom, grid, (ys - 1) * xs, 1, 0, xs);
    lemma_swept_clears(bottom, grid, (ys - 1) * xs, 1, 0, xs, n);
    assert(top == walls_resolved(t, grid));
    assert forall|i: int| 0 <= i < n implies (#[trigger] top.pos[i] == t.pos[i] && top.prev[i]
        == t.prev[i]) || clear_of_walls(top.pos[i]) by {
        assert(left.pos[i] == t.pos[i] || clear_of_walls(left.pos[i]));
        assert(right.pos[i] == left.pos[i] || clear_of_walls(right.pos[i]));
        assert(bottom.pos[i] == right.pos[i] || clear_of_walls(bottom.pos[i]));
        assert(top.pos[i] == bottom.pos[i] || clear_of_walls(top.pos[i]));
    }
    assert forall|i: int| 0 <= i < n && on_edge(base[i]) implies clear_of_walls(
        #[trigger] top.pos[i],
    ) by {
        let p = base[i];
        let cx = cell_coord(p.x as int, xs);
        let cy = cell_coord(p.y as int, ys);
        let cell = cy * xs + cx;
        assert(cell == cell_index(p));
        lemma_bucket_holds(base, cell, n, i as usize);
        assert(0 <= cy * xs <= 119 * 150) by (nonlinear_arith)
            requires
                0 <= cy <= 119,
                xs == 150,
        ;
        assert(grid[cell] == bucket(base, cell, n));
        let j = choose|j: int| 0 <= j < grid[cell].len() && grid[cell][j] == i as usize;
        if cx == 0 {
            assert(cell == 0 + cy * xs);
            assert(clear_of_walls(left.pos[grid[0 + cy * xs][j] as int]));
        } else if cx == xs - 1 {
            assert(cell == (xs - 1) + cy * xs);
            assert(clear_of_walls(right.pos[grid[(xs - 1) + cy * xs][j] as int]));
        } else if cy == 0 {
            assert(cell == 0 + cx * 1);
            assert(clear_of_walls(bottom.pos[grid[0 + cx * 1][j] as int]));
        } else {
            assert(cell == (ys - 1) * xs + cx * 1);
            assert(clear_of_walls(top.pos[grid[(ys - 1) * xs + cx * 1][j] as int]));
        }
        assert(left.pos[i] == t.pos[i] || clear_of_walls(left.pos[i]));
        assert(right.pos[i] == left.pos[i] || clear_of_walls(right.pos[i]));
        assert(bottom.pos[i] == right.pos[i] || clear_of_walls(bottom.pos[i]));
        assert(top.pos[i] == bottom.pos[i] || clear_of_walls(top.pos[i]));
    }
}

/// Once the grid is made of the positions as they are, resolving the walls
/// leaves every ball clear of all four walls: at least one radius and the
/// gap away from each.
pub proof fn lemma_walls_resolved_clears(t: Trail)
    requires
        t.prev.len() == t.pos.len(),
        t.pos.len() <= usize::MAX,
    ensures
        walls_resolved(t, grid_of(t.pos)).pos.len() == t.pos.len(),
        forall|i: int|
            0 <= i < t.pos.len() ==> clear_of_walls(
                #[trigger] walls_resolved(t, grid_of(t.pos)).pos[i],
            ),
{
    lemma_walls_clear_the_edge(t, t.pos);
    let r = walls_resolved(t, grid_of(t.pos));
    assert forall|i: int| 0 <= i < t.pos.len() implies clear_of_walls(#[trigger] r.pos[i]) by {
        lemma_inner_cells_are_clear(t.pos[i]);
        assert(r.pos[i] == t.pos[i] || clear_of_walls(r.pos[i]));
    }
}

/// A relaxation pass leaves every ball that it found in an edge cell of the
/// grid clear of all four walls. A ball that it found further in is not
/// looked at when the walls are resolved, so it is where the relaxation of
/// the cells has put it.
pub proof fn lemma_pass_clears_the_edge(w: World, scale: int)
    requires
        w.aligned(),
        w.count() <= usize::MAX,
    ensures
        pass(w, scale).pos.len() == w.count(),
        forall|i: int|
            0 <= i < w.count() && on_edge(w.pos[i]) ==> clear_of_walls(
                #[trigger] pass(w, scale).pos[i],
            ),
        forall|i: int|
            0 <= i < w.count() && !on_edge(w.pos[i]) ==> (#[trigger] pass(w, scale).pos[i])
                == cells_relaxed(
                (Cloud { pos: w.pos, force: w.force }),
                grid_of(w.pos),
                0,
                scale,
            ).pos[i] || clear_of_walls(pass(w, scale).pos[i]),
{
    let n = w.count() as int;
    let grid = grid_of(w.pos);
    lemma_grid_indexes(w.pos);
    let c0 = Cloud { pos: w.pos, force: w.force };
    lemma_cells_relaxed_shape(c0, grid, 0, scale, n);
    let c = cells_relaxed(c0, grid, 0, scale);
    let t = Trail { pos: c.pos, prev: w.prev };
    lemma_walls_clear_the_edge(t, w.pos);
    let r = walls_resolved(t, grid);
    assert forall|i: int| 0 <= i < w.count() && !on_edge(w.pos[i]) implies (#[trigger] pass(
        w,
        scale,
    ).pos[i]) == c.pos[i] || clear_of_walls(pass(w, scale).pos[i]) by {
        assert(r.pos[i] == t.pos[i] || clear_of_walls(r.pos[i]));
    }
}

} // verus!
