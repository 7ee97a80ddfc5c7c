//! Nothing but a cannon shot changes the number of balls: every stage of a
//! time step leaves each sequence of the world as long as it was.
use vstd::prelude::*;
use crate::constants::{CELL_COUNT, X_LEN, Y_LEN};
use crate::contact::{visited, Cloud};
use crate::grid::{bucket, grid_of, indexes, lemma_bucket_indexes, neighbors};
use crate::relax::{
    cell_relaxed, cells_relaxed, indexes_below, lemma_neighbors_indexes, paired_across,
    paired_within, visited_all,
};
use crate::vector::Vec2;
use crate::wall::{bounced_all, bounced_at, swept, walls_resolved, Trail};
use crate::world::{
    fired, hue_of, integrated, lemma_hue_in_turn, pass, relaxed, stepped, World, CANNON_BATCH,
    HUE_TURN, RELAXATION_PASSES,
};

verus! {

/// The grid of any positions holds nothing but indices of those positions,
/// and every bucket of a grid that does so is a list of such indices.
pub proof fn lemma_grid_indexes(pos: Seq<Vec2>)
    requires
        pos.len() <= usize::MAX,
    ensures
        grid_of(pos).len() == CELL_COUNT,
        indexes(grid_of(pos), pos.len() as int),
{
    let grid = grid_of(pos);
    assert forall|c: int, k: int| 0 <= c < grid.len() && 0 <= k < grid[c].len() implies (
    #[trigger] grid[c][k]) < pos.len() by {
        lemma_bucket_indexes(pos, c, pos.len() as int);
        assert(grid[c] == bucket(pos, c, pos.len() as int));
    }
}

/// Each bucket of a grid of indices is a list of indices.
pub proof fn lemma_bucket_of_indexes(grid: Seq<Seq<usize>>, c: int, n: int)
    requires
        indexes(grid, n),
        0 <= c < grid.len(),
    ensures
        indexes_below(grid[c], n),
{
    assert forall|k: int| 0 <= k < grid[c].len() implies (#[trigger] grid[c][k]) < n by {}
}

/// A ball's visits leave the cloud as large as it was.
pub proof fn lemma_visited_all_shape(
    c: Cloud,
    pos_a: Vec2,
    a: int,
    list: Seq<usize>,
    from: int,
    scale: int,
    mutual: bool,
    n: int,
)
    requires
        c.has(n),
        0 <= a < n,
        indexes_below(list, n),
    ensures
        visited_all(c, pos_a, a, list, from, scale, mutual).has(n),
    decreases list.len() - from,
{
    if 0 <= from < list.len() {
        let next = visited(c, pos_a, a, list[from] as int, scale, mutual);
        lemma_visited_all_shape(next, pos_a, a, list, from + 1, scale, mutual, n);
    }
}

/// Pairing the balls of a cell with each other leaves the cloud as large as
/// it was.
pub proof fn lemma_paired_within_shape(c: Cloud, cur: Seq<usize>, i: int, scale: int, n: int)
    requires
        c.has(n),
        indexes_below(cur, n),
    ensures
        paired_within(c, cur, i, scale).has(n),
    decreases cur.len() - i,
{
    if 0 <= i < cur.len() {
        let a = cur[i] as int;
        lemma_visited_all_shape(c, c.pos[a], a, cur, i + 1, scale, true, n);
        lemma_paired_within_shape(
            visited_all(c, c.pos[a], a, cur, i + 1, scale, true),
            cur,
            i + 1,
            scale,
            n,
        );
    }
}

/// Pairing the balls of a cell with those around it leaves the cloud as
/// large as it was.
pub proof fn lemma_paired_across_shape(
    c: Cloud,
    cur: Seq<usize>,
    others: Seq<usize>,
    i: int,
    scale: int,
    n: int,
)
    requires
        c.has(n),
        indexes_below(cur, n),
        indexes_below(others, n),
    ensures
        paired_across(c, cur, others, i, scale).has(n),
    decreases cur.len() - i,
{
    if 0 <= i < cur.len() {
        let a = cur[i] as int;
        lemma_visited_all_shape(c, c.pos[a], a, others, 0, scale, false, n);
        lemma_paired_across_shape(
            visited_all(c, c.pos[a], a, others, 0, scale, false),
            cur,
            others,
            i + 1,
            scale,
            n,
        );
    }
}

/// The cell `cell` of the grid lies in column `cell % X_LEN` of row
/// `cell / X_LEN`.
pub proof fn lemma_cell_place(cell: int)
    requires
        0 <= cell < CELL_COUNT,
    ensures
        0 <= cell % (X_LEN as int) < X_LEN,
        0 <= cell / (X_LEN as int) < Y_LEN,
        cell == (cell / (X_LEN as int)) * X_LEN + cell % (X_LEN as int),
{
}

/// Relaxing the cells of a grid leaves the cloud as large as it was.
pub proof fn lemma_cells_relaxed_shape(
    c: Cloud,
    grid: Seq<Seq<usize>>,
    cell: int,
    scale: int,
    n: int,
)
    requires
        c.has(n),
        grid.len() == CELL_COUNT,
        indexes(grid, n),
    ensures
        cells_relaxed(c, grid, cell, scale).has(n),
    decreases CELL_COUNT - cell,
{
    if 0 <= cell < CELL_COUNT {
        lemma_cell_place(cell);
        let cur = grid[cell];
        let others = neighbors(grid, cell % (X_LEN as int), cell / (X_LEN as int));
        lemma_bucket_of_indexes(grid, cell, n);
        lemma_neighbors_indexes(grid, cell % (X_LEN as int), cell / (X_LEN as int), n);
        lemma_paired_within_shape(c, cur, 0, scale, n);
        lemma_paired_across_shape(paired_within(c, cur, 0, scale), cur, others, 0, scale, n);
        lemma_cells_relaxed_shape(cell_relaxed(c, cur, others, scale), grid, cell + 1, scale, n);
    }
}

/// Bouncing the balls of a list leaves the trail as large as it was.
pub proof fn lemma_bounced_all_shape(t: Trail, list: Seq<usize>, from: int, n: int)
    requires
        t.has(n),
        indexes_below(list, n),
    ensures
        bounced_all(t, list, from).has(n),
    decreases list.len() - from,
{
    if 0 <= from < list.len() {
        lemma_bounced_all_shape(bounced_at(t, list[from] as int), list, from + 1, n);
    }
}

/// The cells of a line that ends inside the grid all lie inside the grid.
pub proof fn lemma_line_in_grid(start: int, stride: int, k: int, count: int)
    requires
        0 <= start,
        0 <= stride,
        0 <= k < count,
        start + (count - 1) * stride < CELL_COUNT,
    ensures
        0 <= start + k * stride < CELL_COUNT,
{
    assert(0 <= k * stride <= (count - 1) * stride) by (nonlinear_arith)
        requires
            0 <= k <= count - 1,
            0 <= stride,
    ;
}

/// Bouncing the balls of a line of cells leaves the trail as large as it
/// was.
pub proof fn lemma_swept_shape(
    t: Trail,
    grid: Seq<Seq<usize>>,
    start: int,
    stride: int,
    from: int,
    count: int,
    n: int,
)
    requires
        t.has(n),
        grid.len() == CELL_COUNT,
        indexes(grid, n),
        0 <= start,
        0 <= stride,
        start + (count - 1) * stride < CELL_COUNT,
    ensures
        swept(t, grid, start, stride, from, count).has(n),
    decreases count - from,
{
    if 0 <= from < count {
        lemma_line_in_grid(start, stride, from, count);
        let cell = start + from * stride;
        lemma_bucket_of_indexes(grid, cell, n);
        lemma_bounced_all_shape(t, grid[cell], 0, n);
        lemma_swept_shape(
            bounced_all(t, grid[cell], 0),
            grid,
            start,
            stride,
            from + 1,
            count,
            n,
        );
    }
}

/// Bouncing the balls of the grid's edges leaves the trail as large as it
/// was.
pub proof fn lemma_walls_resolved_shape(t: Trail, grid: Seq<Seq<usize>>, n: int)
    requires
        t.has(n),
        grid.len() == CELL_COUNT,
        indexes(grid, n),
    ensures
        walls_resolved(t, grid).has(n),
{
    let left = swept(t, grid, 0, X_LEN as int, 0, Y_LEN as int);
    lemma_swept_shape(t, grid, 0, X_LEN as int, 0, Y_LEN as int, n);
    let right = swept(left, grid, X_LEN - 1, X_LEN as int, 0, Y_LEN as int);
    lemma_swept_shape(left, grid, X_LEN - 1, X_LEN as int, 0, Y_LEN as int, n);
    let bottom = swept(right, grid, 0, 1, 0, X_LEN as int);
    lemma_swept_shape(right, grid, 0, 1, 0, X_LEN as int, n);
    lemma_swept_shape(bottom, grid, (Y_LEN - 1) * X_LEN, 1, 0, X_LEN as int, n);
}

/// A relaxation pass keeps the number of balls and leaves the four
/// sequences of the world aligned.
pub proof fn lemma_pass_shape(w: World, scale: int)
    requires
        w.aligned(),
        w.count() <= usize::MAX,
    ensures
        pass(w, scale).aligned(),
        pass(w, scale).count() == w.count(),
        pass(w, scale).hue == w.hue,
{
    let n = w.count() as int;
    let grid = grid_of(w.pos);
    lemma_grid_indexes(w.pos);
    let c = cells_relaxed((Cloud { pos: w.pos, force: w.force }), grid, 0, scale);
    lemma_cells_relaxed_shape((Cloud { pos: w.pos, force: w.force }), grid, 0, scale, n);
    lemma_walls_resolved_shape((Trail { pos: c.pos, prev: w.prev }), grid, n);
}

/// Any number of relaxation passes keeps the number of balls and leaves the
/// four sequences of the world aligned.
pub proof fn lemma_relaxed_shape(w: World, scale: int, passes: nat)
    requires
        w.aligned(),
        w.count() <= usize::MAX,
    ensures
        relaxed(w, scale, passes).aligned(),
        relaxed(w, scale, passes).count() == w.count(),
        relaxed(w, scale, passes).hue == w.hue,
    decreases passes,
{
    if passes > 0 {
        lemma_pass_shape(w, scale);
        lemma_relaxed_shape(pass(w, scale), scale, (passes - 1) as nat);
    }
}

/// A time step keeps the number of balls and leaves the four sequences of
/// the world aligned.
pub proof fn lemma_stepped_shape(w: World, dt: int, scale: int)
    requires
        w.aligned(),
        w.count() <= usize::MAX,
    ensures
        stepped(w, dt, scale).aligned(),
        stepped(w, dt, scale).count() == w.count(),
{
    lemma_relaxed_shape(integrated(w, dt), scale, RELAXATION_PASSES as nat);
}

/// After a time step every ball has the hue of the displacement it arrived
/// with, which lies within one turn.
pub proof fn lemma_stepped_hues(w: World, dt: int, scale: int)
    requires
        w.aligned(),
        w.count() <= usize::MAX,
    ensures
        stepped(w, dt, scale).hue.len() == w.count(),
        forall|i: int|
            0 <= i < w.count() ==> (#[trigger] stepped(w, dt, scale).hue[i]) == hue_of(
                w.pos[i],
                w.prev[i],
            ) && 0 <= stepped(w, dt, scale).hue[i] < HUE_TURN,
{
    lemma_relaxed_shape(integrated(w, dt), scale, RELAXATION_PASSES as nat);
    assert forall|i: int| 0 <= i < w.count() implies (#[trigger] stepped(w, dt, scale).hue[i])
        == hue_of(w.pos[i], w.prev[i]) && 0 <= stepped(w, dt, scale).hue[i]
        < HUE_TURN by {
        lemma_hue_in_turn(w.pos[i], w.prev[i]);
    }
}

/// A cannon shot adds a batch of balls to each of the four sequences of the
/// world, and so leaves them aligned.
pub proof fn lemma_fired_shape(w: World, dt: int, start: Vec2, cannon: Vec2)
    requires
        w.aligned(),
    ensures
        fired(w, dt, start, cannon).aligned(),
        fired(w, dt, start, cannon).count() == w.count() + CANNON_BATCH,
{
}

} // verus!
