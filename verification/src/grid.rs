//! The broad phase: a uniform grid over the domain, each cell a bucket of the
//! balls whose centres fall into it.
use vstd::prelude::*;
use crate::constants::{CELL_COUNT, GRID_SIZE, X_LEN, Y_LEN};
use crate::vector::Vec2;

verus! {

/// The row or column of a coordinate among `count` of them: the coordinate
/// divided by the cell edge and rounded down, then clamped into the grid.
pub open spec fn cell_coord(p: int, count: int) -> int {
    let c = p / (GRID_SIZE as int);
    if c < 0 {
        0
    } else if c > count - 1 {
        count - 1
    } else {
        c
    }
}

/// The one cell that holds a ball at `pos`, counted row by row.
pub open spec fn cell_index(pos: Vec2) -> int {
    cell_coord(pos.y as int, Y_LEN as int) * X_LEN + cell_coord(pos.x as int, X_LEN as int)
}

/// The cell that holds a ball at `pos` lies in the first or last row or
/// column of the grid.
pub open spec fn on_edge(pos: Vec2) -> bool {
    ||| cell_coord(pos.x as int, X_LEN as int) == 0
    ||| cell_coord(pos.x as int, X_LEN as int) == X_LEN - 1
    ||| cell_coord(pos.y as int, Y_LEN as int) == 0
    ||| cell_coord(pos.y as int, Y_LEN as int) == Y_LEN - 1
}

/// The first `n` balls that fall into `cell`, in rising order.
pub open spec fn bucket(pos: Seq<Vec2>, cell: int, n: int) -> Seq<usize>
    decreases n,
{
    if n <= 0 {
        Seq::empty()
    } else if cell_index(pos[n - 1]) == cell {
        bucket(pos, cell, n - 1).push((n - 1) as usize)
    } else {
        bucket(pos, cell, n - 1)
    }
}

/// The grid of the first `n` of the given positions: one bucket for each
/// cell.
pub open spec fn grid_upto(pos: Seq<Vec2>, n: int) -> Seq<Seq<usize>> {
    Seq::new(CELL_COUNT as nat, |c: int| bucket(pos, c, n))
}

/// The grid of the given positions.
pub open spec fn grid_of(pos: Seq<Vec2>) -> Seq<Seq<usize>> {
    grid_upto(pos, pos.len() as int)
}

/// What a table of buckets holds.
pub open spec fn buckets(table: Seq<Vec<usize>>) -> Seq<Seq<usize>> {
    Seq::new(table.len(), |c: int| table[c]@)
}

/// Every entry of every bucket is the index of one of `n` balls.
pub open spec fn indexes(grid: Seq<Seq<usize>>, n: int) -> bool {
    forall|c: int, k: int|
        0 <= c < grid.len() && 0 <= k < grid[c].len() ==> (#[trigger] grid[c][k]) < n
}

/// The row or column next to `c` in direction `d`, or `c` itself at the
/// grid's edge.
pub open spec fn beside(c: int, d: int, count: int) -> int {
    if c + d < 0 {
        0
    } else if c + d > count - 1 {
        count - 1
    } else {
        c + d
    }
}

/// The bucket of the cell that lies `(dx, dy)` from the cell `(x, y)`.
pub open spec fn bucket_beside(grid: Seq<Seq<usize>>, x: int, y: int, dx: int, dy: int) -> Seq<
    usize,
> {
    grid[beside(y, dy, Y_LEN as int) * X_LEN + beside(x, dx, X_LEN as int)]
}

/// The balls in the eight cells around the cell `(x, y)`, row by row. At the
/// grid's edge the cell beyond it is the edge cell itself, so an edge cell's
/// neighbours include some cells twice and the cell itself.
pub open spec fn neighbors(grid: Seq<Seq<usize>>, x: int, y: int) -> Seq<usize> {
    bucket_beside(grid, x, y, -1, -1) + bucket_beside(grid, x, y, 0, -1) + bucket_beside(
        grid,
        x,
        y,
        1,
        -1,
    ) + bucket_beside(grid, x, y, -1, 0) + bucket_beside(grid, x, y, 1, 0) + bucket_beside(
        grid,
        x,
        y,
        -1,
        1,
    ) + bucket_beside(grid, x, y, 0, 1) + bucket_beside(grid, x, y, 1, 1)
}

/// A ball is in a bucket exactly if it falls into that bucket's cell, so
/// every ball is in one bucket and in no other.
pub proof fn lemma_bucket_holds(pos: Seq<Vec2>, cell: int, n: int, i: usize)
    requires
        0 <= n <= pos.len() <= usize::MAX,
    ensures
        bucket(pos, cell, n).contains(i) <==> i < n && cell_index(pos[i as int]) == cell,
    decreases n,
{
    if n > 0 {
        lemma_bucket_holds(pos, cell, n - 1, i);
        let rest = bucket(pos, cell, n - 1);
        let last = (n - 1) as usize;
        if cell_index(pos[n - 1]) == cell {
            let b = rest.push(last);
            assert(b[rest.len() as int] == last);
            if b.contains(i) {
                let k = choose|k: int| 0 <= k < b.len() && b[k] == i;
                if k < rest.len() {
                    assert(rest[k] == i);
                }
            }
            if rest.contains(i) {
                let k = choose|k: int| 0 <= k < rest.len() && rest[k] == i;
                assert(b[k] == i);
            }
        }
    }
}

/// Every entry of a bucket is the index of one of the balls it was made of.
pub proof fn lemma_bucket_indexes(pos: Seq<Vec2>, cell: int, n: int)
    requires
        0 <= n <= pos.len() <= usize::MAX,
    ensures
        forall|k: int|
            0 <= k < bucket(pos, cell, n).len() ==> (#[trigger] bucket(pos, cell, n)[k]) < n,
    decreases n,
{
    if n > 0 {
        lemma_bucket_indexes(pos, cell, n - 1);
        let rest = bucket(pos, cell, n - 1);
        let b = bucket(pos, cell, n);
        assert forall|k: int| 0 <= k < b.len() implies (#[trigger] b[k]) < n by {
            if k < rest.len() {
                assert(b[k] == rest[k]);
            }
        }
    }
}

/// A cell's place on an axis lies inside the grid.
pub proof fn lemma_cell_in_grid(pos: Vec2)
    ensures
        0 <= cell_index(pos) < CELL_COUNT,
{
    let cy = cell_coord(pos.y as int, Y_LEN as int);
    let cx = cell_coord(pos.x as int, X_LEN as int);
    assert(0 <= cy <= 119 && 0 <= cx <= 149);
    assert(cy * X_LEN <= 119 * 150) by (nonlinear_arith)
        requires
            0 <= cy <= 119,
            X_LEN == 150,
    ;
    assert(cy * X_LEN >= 0) by (nonlinear_arith)
        requires
            0 <= cy,
            X_LEN == 150,
    ;
}

/// Finds the row or column of a coordinate among `count` of them.
fn coord_of(p: i32, count: usize) -> (c: usize)
    requires
        0 < count <= 1000,
    ensures
        c == cell_coord(p as int, count as int),
        c < count,
{
    if p < 0 {
        0
    } else {
        let c: usize = (p / GRID_SIZE) as usize;
        if c > count - 1 {
            count - 1
        } else {
            c
        }
    }
}

/// Finds the cell that holds a ball at `pos`.
pub fn cell_of(pos: Vec2) -> (cell: usize)
    ensures
        cell == cell_index(pos),
        cell < CELL_COUNT,
{
    proof {
        lemma_cell_in_grid(pos);
    }
    let cy: usize = coord_of(pos.y, Y_LEN);
    let cx: usize = coord_of(pos.x, X_LEN);
    assert(cy * X_LEN <= 119 * 150) by (nonlinear_arith)
        requires
            0 <= cy <= 119,
            X_LEN == 150,
    ;
    cy * X_LEN + cx
}

/// Empties every bucket and puts each ball into the bucket of its cell, in
/// rising order of the balls.
pub fn rebuild(table: &mut Vec<Vec<usize>>, c_pos: &Vec<Vec2>)
    requires
        old(table).len() == CELL_COUNT,
    ensures
        final(table).len() == CELL_COUNT,
        buckets(final(table)@) == grid_of(c_pos@),
        indexes(buckets(final(table)@), c_pos@.len() as int),
{
    let mut c: usize = 0;
    while c < CELL_COUNT
        invariant
            c <= CELL_COUNT,
            table.len() == CELL_COUNT,
            forall|k: int| 0 <= k < c ==> (#[trigger] table@[k])@ == Seq::<usize>::empty(),
        decreases CELL_COUNT - c,
    {
        table[c].clear();
        c += 1;
    }
    let mut i: usize = 0;
    while i < c_pos.len()
        invariant
            i <= c_pos.len(),
            table.len() == CELL_COUNT,
            forall|k: int| 0 <= k < CELL_COUNT ==> (#[trigger] table@[k])@ == bucket(c_pos@, k, i as int),
        decreases c_pos.len() - i,
    {
        let cell: usize = cell_of(c_pos[i]);
        table[cell].push(i);
        i += 1;
    }
    proof {
        assert(buckets(table@) =~= grid_of(c_pos@));
        assert forall|c: int, k: int|
            0 <= c < buckets(table@).len() && 0 <= k < buckets(table@)[c].len() implies (
        #[trigger] buckets(table@)[c][k]) < c_pos@.len() by {
            lemma_bucket_indexes(c_pos@, c, c_pos@.len() as int);
        }
    }
}

/// The balls in the cell `(x, y)`.
pub fn cell_current(table: &Vec<Vec<usize>>, x: usize, y: usize) -> (cur: &Vec<usize>)
    requires
        table.len() == CELL_COUNT,
        x < X_LEN,
        y < Y_LEN,
    ensures
        cur@ == buckets(table@)[y * X_LEN + x],
{
    assert(y * X_LEN <= 119 * 150) by (nonlinear_arith)
        requires
            0 <= y <= 119,
            X_LEN == 150,
    ;
    &table[y * X_LEN + x]
}

/// Appends to `others` the bucket of the cell that lies `(dx, dy)` from the
/// cell `(x, y)`.
fn append_beside(
    table: &Vec<Vec<usize>>,
    x: usize,
    y: usize,
    dx: i32,
    dy: i32,
    others: &mut Vec<usize>,
)
    requires
        table.len() == CELL_COUNT,
        x < X_LEN,
        y < Y_LEN,
        -1 <= dx <= 1,
        -1 <= dy <= 1,
    ensures
        final(others)@ == old(others)@ + bucket_beside(
            buckets(table@),
            x as int,
            y as int,
            dx as int,
            dy as int,
        ),
{
    let ny: usize = step_beside(y, dy, Y_LEN);
    let nx: usize = step_beside(x, dx, X_LEN);
    assert(ny * X_LEN <= 119 * 150) by (nonlinear_arith)
        requires
            0 <= ny <= 119,
            X_LEN == 150,
    ;
    let from: &Vec<usize> = &table[ny * X_LEN + nx];
    let mut k: usize = 0;
    while k < from.len()
        invariant
            k <= from.len(),
            others@ == old(others)@ + from@.take(k as int),
        decreases from.len() - k,
    {
        others.push(from[k]);
        proof {
            assert(from@.take(k + 1) =~= from@.take(k as int).push(from@[k as int]));
            assert(old(others)@ + from@.take(k + 1) =~= (old(others)@ + from@.take(k as int)).push(
                from@[k as int],
            ));
        }
        k += 1;
    }
    proof {
        assert(from@.take(from@.len() as int) =~= from@);
    }
}

/// Finds the row or column next to `c` in direction `d`.
fn step_beside(c: usize, d: i32, count: usize) -> (n: usize)
    requires
        c < count <= 1000,
        -1 <= d <= 1,
    ensures
        n == beside(c as int, d as int, count as int),
        n < count,
{
    if d < 0 {
        if c == 0 {
            0
        } else {
            c - 1
        }
    } else if d > 0 {
        if c + 1 > count - 1 {
            count - 1
        } else {
            c + 1
        }
    } else {
        c
    }
}

/// Collects into `others` the balls in the eight cells around the cell
/// `(x, y)`.
pub fn gather(table: &Vec<Vec<usize>>, x: usize, y: usize, others: &mut Vec<usize>)
    requires
        table.len() == CELL_COUNT,
        x < X_LEN,
        y < Y_LEN,
    ensures
        final(others)@ == neighbors(buckets(table@), x as int, y as int),
{
    others.clear();
    append_beside(table, x, y, -1, -1, others);
    append_beside(table, x, y, 0, -1, others);
    append_beside(table, x, y, 1, -1, others);
    append_beside(table, x, y, -1, 0, others);
    append_beside(table, x, y, 1, 0, others);
    append_beside(table, x, y, -1, 1, others);
    append_beside(table, x, y, 0, 1, others);
    append_beside(table, x, y, 1, 1, others);
    proof {
        assert(others@ =~= neighbors(buckets(table@), x as int, y as int));
    }
}

} // verus!
