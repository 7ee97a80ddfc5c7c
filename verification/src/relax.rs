//! One relaxation of the whole grid: every cell in turn, row by row, pairs
//! its balls with each other and with the balls of the cells around it.
use vstd::prelude::*;
use crate::constants::{CELL_COUNT, X_LEN, Y_LEN};
use crate::contact::{visit, visited, Cloud};
use crate::grid::{buckets, cell_current, gather, indexes, neighbors};
use crate::vector::Vec2;

verus! {

/// Every entry of `list` is the index of one of `n` balls.
pub open spec fn indexes_below(list: Seq<usize>, n: int) -> bool {
    forall|k: int| 0 <= k < list.len() ==> (#[trigger] list[k]) < n
}

/// The cloud after the ball `a`, which stood at `pos_a`, has visited the
/// entries of `list` from place `from` on, one after the other, all of the
/// visits `mutual` or none.
pub open spec fn visited_all(
    c: Cloud,
    pos_a: Vec2,
    a: int,
    list: Seq<usize>,
    from: int,
    scale: int,
    mutual: bool,
) -> Cloud
    decreases list.len() - from,
{
    if from < 0 || from >= list.len() {
        c
    } else {
        visited_all(
            visited(c, pos_a, a, list[from] as int, scale, mutual),
            pos_a,
            a,
            list,
            from + 1,
            scale,
            mutual,
        )
    }
}

/// The cloud after each ball of `cur` from place `i` on has visited the
/// balls behind it in `cur`, in mutual visits. Each ball visits from where
/// it stands when its turn comes.
pub open spec fn paired_within(c: Cloud, cur: Seq<usize>, i: int, scale: int) -> Cloud
    decreases cur.len() - i,
{
    if i < 0 || i >= cur.len() {
        c
    } else {
        paired_within(
            visited_all(c, c.pos[cur[i] as int], cur[i] as int, cur, i + 1, scale, true),
            cur,
            i + 1,
            scale,
        )
    }
}

/// The cloud after each ball of `cur` from place `i` on has visited all of
/// `others`, in visits that serve the visitor alone.
pub open spec fn paired_across(
    c: Cloud,
    cur: Seq<usize>,
    others: Seq<usize>,
    i: int,
    scale: int,
) -> Cloud
    decreases cur.len() - i,
{
    if i < 0 || i >= cur.len() {
        c
    } else {
        paired_across(
            visited_all(c, c.pos[cur[i] as int], cur[i] as int, others, 0, scale, false),
            cur,
            others,
            i + 1,
            scale,
        )
    }
}

/// The cloud after the balls of one cell were paired, first with each other
/// and then with the balls around them.
pub open spec fn cell_relaxed(c: Cloud, cur: Seq<usize>, others: Seq<usize>, scale: int) -> Cloud {
    paired_across(paired_within(c, cur, 0, scale), cur, others, 0, scale)
}

/// The cloud after the cells from `cell` on were relaxed in rising order,
/// which is row by row.
pub open spec fn cells_relaxed(c: Cloud, grid: Seq<Seq<usize>>, cell: int, scale: int) -> Cloud
    decreases CELL_COUNT - cell,
{
    if cell < 0 || cell >= CELL_COUNT {
        c
    } else {
        cells_relaxed(
            cell_relaxed(
                c,
                grid[cell],
                neighbors(grid, cell % (X_LEN as int), cell / (X_LEN as int)),
                scale,
            ),
            grid,
            cell + 1,
            scale,
        )
    }
}

/// Lets the ball `a`, which stood at `pos_a`, visit the entries of `list`
/// from place `from` on, in visits that are all `mutual` or all not.
pub fn visit_all(
    c_pos: &mut Vec<Vec2>,
    c_force: &mut Vec<Vec2>,
    pos_a: Vec2,
    a: usize,
    list: &Vec<usize>,
    from: usize,
    scale: i32,
    mutual: bool,
)
    requires
        old(c_force).len() == old(c_pos).len(),
        a < old(c_pos).len(),
        indexes_below(list@, old(c_pos).len() as int),
    ensures
        (Cloud { pos: final(c_pos)@, force: final(c_force)@ }) == visited_all(
            (Cloud { pos: old(c_pos)@, force: old(c_force)@ }),
            pos_a,
            a as int,
            list@,
            from as int,
            scale as int,
            mutual,
        ),
        final(c_pos).len() == old(c_pos).len(),
        final(c_force).len() == old(c_force).len(),
{
    let mut j: usize = from;
    while j < list.len()
        invariant
            from <= j,
            c_pos.len() == old(c_pos).len(),
            c_force.len() == old(c_pos).len(),
            a < c_pos.len(),
            indexes_below(list@, c_pos.len() as int),
            visited_all(
                (Cloud { pos: c_pos@, force: c_force@ }),
                pos_a,
                a as int,
                list@,
                j as int,
                scale as int,
                mutual,
            ) == visited_all(
                (Cloud { pos: old(c_pos)@, force: old(c_force)@ }),
                pos_a,
                a as int,
                list@,
                from as int,
                scale as int,
                mutual,
            ),
        decreases list.len() - j,
    {
        visit(c_pos, c_force, pos_a, a, list[j], scale, mutual);
        j += 1;
    }
}

/// Pairs the balls of one cell, `cur`, with each other and then with the
/// balls around them, `others`.
pub fn relax_cell(
    c_pos: &mut Vec<Vec2>,
    c_force: &mut Vec<Vec2>,
    cur: &Vec<usize>,
    others: &Vec<usize>,
    scale: i32,
)
    requires
        old(c_force).len() == old(c_pos).len(),
        indexes_below(cur@, old(c_pos).len() as int),
        indexes_below(others@, old(c_pos).len() as int),
    ensures
        (Cloud { pos: final(c_pos)@, force: final(c_force)@ }) == cell_relaxed(
            (Cloud { pos: old(c_pos)@, force: old(c_force)@ }),
            cur@,
            others@,
            scale as int,
        ),
        final(c_pos).len() == old(c_pos).len(),
        final(c_force).len() == old(c_force).len(),
{
    let mut i: usize = 0;
    while i < cur.len()
        invariant
            c_pos.len() == old(c_pos).len(),
            c_force.len() == old(c_pos).len(),
            indexes_below(cur@, c_pos.len() as int),
            paired_within((Cloud { pos: c_pos@, force: c_force@ }), cur@, i as int, scale as int)
                == paired_within(
                (Cloud { pos: old(c_pos)@, force: old(c_force)@ }),
                cur@,
                0,
                scale as int,
            ),
        decreases cur.len() - i,
    {
        let pos_a = c_pos[cur[i]];
        visit_all(c_pos, c_force, pos_a, cur[i], cur, i + 1, scale, true);
        i += 1;
    }
    let ghost mid = Cloud { pos: c_pos@, force: c_force@ };
    let mut i: usize = 0;
    while i < cur.len()
        invariant
            c_pos.len() == old(c_pos).len(),
            c_force.len() == old(c_pos).len(),
            indexes_below(cur@, c_pos.len() as int),
            indexes_below(others@, c_pos.len() as int),
            paired_across(
                (Cloud { pos: c_pos@, force: c_force@ }),
                cur@,
                others@,
                i as int,
                scale as int,
            ) == paired_across(mid, cur@, others@, 0, scale as int),
        decreases cur.len() - i,
    {
        let pos_a = c_pos[cur[i]];
        visit_all(c_pos, c_force, pos_a, cur[i], others, 0, scale, false);
        i += 1;
    }
}

/// The balls around any cell are balls of the grid.
pub proof fn lemma_neighbors_indexes(grid: Seq<Seq<usize>>, x: int, y: int, n: int)
    requires
        grid.len() == CELL_COUNT,
        indexes(grid, n),
        0 <= x < X_LEN,
        0 <= y < Y_LEN,
    ensures
        indexes_below(neighbors(grid, x, y), n),
{
    assert forall|c: int| 0 <= c < grid.len() implies indexes_below(#[trigger] grid[c], n) by {
        assert forall|k: int| 0 <= k < grid[c].len() implies (#[trigger] grid[c][k]) < n by {}
    }
}

/// Relaxes every cell of the grid in turn, row by row, with `others` as the
/// scratch space for each cell's neighbours.
pub fn relax_cells(
    c_pos: &mut Vec<Vec2>,
    c_force: &mut Vec<Vec2>,
    table: &Vec<Vec<usize>>,
    others: &mut Vec<usize>,
    scale: i32,
)
    requires
        old(c_force).len() == old(c_pos).len(),
        table.len() == CELL_COUNT,
        indexes(buckets(table@), old(c_pos).len() as int),
    ensures
        (Cloud { pos: final(c_pos)@, force: final(c_force)@ }) == cells_relaxed(
            (Cloud { pos: old(c_pos)@, force: old(c_force)@ }),
            buckets(table@),
            0,
            scale as int,
        ),
        final(c_pos).len() == old(c_pos).len(),
        final(c_force).len() == old(c_force).len(),
{
    let mut cell: usize = 0;
    while cell < CELL_COUNT
        invariant
            cell <= CELL_COUNT,
            table.len() == CELL_COUNT,
            c_pos.len() == old(c_pos).len(),
            c_force.len() == old(c_pos).len(),
            indexes(buckets(table@), c_pos.len() as int),
            cells_relaxed(
                (Cloud { pos: c_pos@, force: c_force@ }),
                buckets(table@),
                cell as int,
                scale as int,
            ) == cells_relaxed(
                (Cloud { pos: old(c_pos)@, force: old(c_force)@ }),
                buckets(table@),
                0,
                scale as int,
            ),
        decreases CELL_COUNT - cell,
    {
        let x: usize = cell % X_LEN;
        let y: usize = cell / X_LEN;
        gather(table, x, y, others);
        proof {
            lemma_neighbors_indexes(buckets(table@), x as int, y as int, c_pos.len() as int);
            assert(buckets(table@)[cell as int] == table@[cell as int]@);
            assert(indexes_below(table@[cell as int]@, c_pos.len() as int)) by {
                assert forall|k: int| 0 <= k < table@[cell as int]@.len() implies (
                #[trigger] table@[cell as int]@[k]) < c_pos.len() by {
                    assert(buckets(table@)[cell as int][k] < c_pos.len());
                }
            }
        }
        relax_cell(c_pos, c_force, cell_current(table, x, y), others, scale);
        cell += 1;
    }
}

} // verus!
