//! The four walls of the domain and the damped bounce that keeps a ball
//! inside them.
use vstd::prelude::*;
use crate::constants::{BALL_SIZE, CELL_COUNT, HEIGHT, WIDTH, X_LEN, Y_LEN};
use crate::grid::{buckets, indexes};
use crate::fixed::{divide, quot, sat, saturate};
use crate::vector::Vec2;

verus! {

/// Position of the wall at the low end of the x axis.
pub const LEFT_WALL: i32 = 0;

/// Position of the wall at the high end of the x axis.
pub const RIGHT_WALL: i32 = WIDTH;

/// Position of the wall at the low end of the y axis.
pub const BOTTOM_WALL: i32 = 0;

/// Position of the wall at the high end of the y axis.
pub const TOP_WALL: i32 = HEIGHT;

/// Gap left between a bounced ball and its wall, so that the ball does not
/// touch the wall again at once.
pub const EPS: i32 = 1;

/// A wall that a ball touches.
#[derive(Clone, Copy, Debug, PartialEq, Eq, Structural)]
pub enum Collision {
    Top,
    Bottom,
    Left,
    Right,
}

/// The wall of the x axis that a ball of radius `r` at `pos` touches: the
/// left one where both are touched.
pub open spec fn hit_horizontal(pos: Vec2, r: int) -> Option<Collision> {
    if pos.x - r <= LEFT_WALL {
        Some(Collision::Left)
    } else if pos.x + r >= RIGHT_WALL {
        Some(Collision::Right)
    } else {
        None
    }
}

/// The wall of the y axis that a ball of radius `r` at `pos` touches: the
/// bottom one where both are touched.
pub open spec fn hit_vertical(pos: Vec2, r: int) -> Option<Collision> {
    if pos.y - r <= BOTTOM_WALL {
        Some(Collision::Bottom)
    } else if pos.y + r >= TOP_WALL {
        Some(Collision::Top)
    } else {
        None
    }
}

/// The velocity kept along an axis after a bounce: two fifths of the
/// displacement from `q` to `p`.
pub open spec fn damped(p: int, q: int) -> int {
    quot(2 * (p - q), 5)
}

/// A ball stands clear of all four walls: no wall is within its radius.
pub open spec fn clear_of_walls(pos: Vec2) -> bool {
    &&& LEFT_WALL < pos.x - BALL_SIZE
    &&& pos.x + BALL_SIZE < RIGHT_WALL
    &&& BOTTOM_WALL < pos.y - BALL_SIZE
    &&& pos.y + BALL_SIZE < TOP_WALL
}

/// Position and previous position of a ball after its bounce off whatever
/// walls it touches. On each axis with a touched wall the ball is put at
/// radius plus `EPS` from that wall, and its previous position beyond it by
/// the damped displacement, which reverses the velocity on that axis. An axis
/// without a touched wall is left alone.
pub open spec fn bounced(pos: Vec2, prev: Vec2) -> (Vec2, Vec2) {
    let x = match hit_horizontal(pos, BALL_SIZE as int) {
        Some(Collision::Left) => LEFT_WALL + BALL_SIZE + EPS,
        Some(_) => RIGHT_WALL - BALL_SIZE - EPS,
        None => pos.x as int,
    };
    let px = match hit_horizontal(pos, BALL_SIZE as int) {
        Some(_) => sat(x + damped(pos.x as int, prev.x as int)),
        None => prev.x as int,
    };
    let y = match hit_vertical(pos, BALL_SIZE as int) {
        Some(Collision::Bottom) => BOTTOM_WALL + BALL_SIZE + EPS,
        Some(_) => TOP_WALL - BALL_SIZE - EPS,
        None => pos.y as int,
    };
    let py = match hit_vertical(pos, BALL_SIZE as int) {
        Some(_) => sat(y + damped(pos.y as int, prev.y as int)),
        None => prev.y as int,
    };
    (Vec2 { x: x as i32, y: y as i32 }, Vec2 { x: px as i32, y: py as i32 })
}

/// Finds the walls that a ball of radius `scale_a` at `pos_a` touches, the
/// one of the x axis first.
pub fn collides_wall(pos_a: Vec2, scale_a: i32) -> (hit: (Option<Collision>, Option<Collision>))
    ensures
        hit.0 == hit_horizontal(pos_a, scale_a as int),
        hit.1 == hit_vertical(pos_a, scale_a as int),
{
    let mut vert: Option<Collision> = None;
    if pos_a.y as i64 - scale_a as i64 <= BOTTOM_WALL as i64 {
        vert = Some(Collision::Bottom);
    } else if pos_a.y as i64 + scale_a as i64 >= TOP_WALL as i64 {
        vert = Some(Collision::Top);
    }
    let mut hor: Option<Collision> = None;
    if pos_a.x as i64 - scale_a as i64 <= LEFT_WALL as i64 {
        hor = Some(Collision::Left);
    } else if pos_a.x as i64 + scale_a as i64 >= RIGHT_WALL as i64 {
        hor = Some(Collision::Right);
    }
    (hor, vert)
}

/// Computes the damped displacement from `q` to `p`.
fn damp(p: i32, q: i32) -> (v: i64)
    ensures
        v == damped(p as int, q as int),
        -0x1_0000_0000 <= v <= 0x1_0000_0000,
{
    divide(2 * (p as i128 - q as i128), 5) as i64
}

/// Bounces a ball off the walls it touches. Afterwards the ball stands clear
/// of all four walls, and a ball that stood clear before is unchanged.
pub fn resolve_wall_collision(c_pos: &mut Vec2, c_opos: &mut Vec2)
    ensures
        (*final(c_pos), *final(c_opos)) == bounced(*old(c_pos), *old(c_opos)),
        clear_of_walls(*final(c_pos)),
        clear_of_walls(*old(c_pos)) ==> *final(c_pos) == *old(c_pos) && *final(c_opos) == *old(
            c_opos,
        ),
{
    let (hor, ver) = collides_wall(*c_pos, BALL_SIZE);
    let vel_x: i64 = damp(c_pos.x, c_opos.x);
    let vel_y: i64 = damp(c_pos.y, c_opos.y);
    match hor {
        Some(Collision::Left) => {
            c_pos.x = LEFT_WALL + BALL_SIZE + EPS;
            c_opos.x = saturate(c_pos.x as i128 + vel_x as i128);
        },
        Some(_) => {
            c_pos.x = RIGHT_WALL - BALL_SIZE - EPS;
            c_opos.x = saturate(c_pos.x as i128 + vel_x as i128);
        },
        None => {},
    }
    match ver {
        Some(Collision::Bottom) => {
            c_pos.y = BOTTOM_WALL + BALL_SIZE + EPS;
            c_opos.y = saturate(c_pos.y as i128 + vel_y as i128);
        },
        Some(_) => {
            c_pos.y = TOP_WALL - BALL_SIZE - EPS;
            c_opos.y = saturate(c_pos.y as i128 + vel_y as i128);
        },
        None => {},
    }
}

/// Positions and previous positions of all balls.
pub struct Trail {
    pub pos: Seq<Vec2>,
    pub prev: Seq<Vec2>,
}

impl Trail {
    /// Both sequences have one entry for each of `n` balls.
    pub open spec fn has(self, n: int) -> bool {
        self.pos.len() == n && self.prev.len() == n
    }
}

/// The trail after the ball `i` has bounced off the walls it touches.
pub open spec fn bounced_at(t: Trail, i: int) -> Trail {
    let b = bounced(t.pos[i], t.prev[i]);
    Trail { pos: t.pos.update(i, b.0), prev: t.prev.update(i, b.1) }
}

/// The trail after the balls of `list` from place `from` on have bounced,
/// one after the other.
pub open spec fn bounced_all(t: Trail, list: Seq<usize>, from: int) -> Trail
    decreases list.len() - from,
{
    if from < 0 || from >= list.len() {
        t
    } else {
        bounced_all(bounced_at(t, list[from] as int), list, from + 1)
    }
}

/// The trail after the balls of a line of cells have bounced: the cells
/// `start + k * stride` for `k` from `from` up to `count`, in rising order.
pub open spec fn swept(
    t: Trail,
    grid: Seq<Seq<usize>>,
    start: int,
    stride: int,
    from: int,
    count: int,
) -> Trail
    decreases count - from,
{
    if from < 0 || from >= count {
        t
    } else {
        swept(
            bounced_all(t, grid[start + from * stride], 0),
            grid,
            start,
            stride,
            from + 1,
            count,
        )
    }
}

/// The trail after the balls of the grid's four edges have bounced: the
/// left column, the right column, the bottom row, the top row. Only they
/// can touch a wall.
pub open spec fn walls_resolved(t: Trail, grid: Seq<Seq<usize>>) -> Trail {
    let left = swept(t, grid, 0, X_LEN as int, 0, Y_LEN as int);
    let right = swept(left, grid, X_LEN - 1, X_LEN as int, 0, Y_LEN as int);
    let bottom = swept(right, grid, 0, 1, 0, X_LEN as int);
    swept(bottom, grid, (Y_LEN - 1) * X_LEN, 1, 0, X_LEN as int)
}

/// Bounces the balls of `list`, one after the other.
pub fn bounce_all(c_pos: &mut Vec<Vec2>, c_opos: &mut Vec<Vec2>, list: &Vec<usize>)
    requires
        old(c_opos).len() == old(c_pos).len(),
        forall|k: int| 0 <= k < list@.len() ==> (#[trigger] list@[k]) < old(c_pos).len(),
    ensures
        (Trail { pos: final(c_pos)@, prev: final(c_opos)@ }) == bounced_all(
            (Trail { pos: old(c_pos)@, prev: old(c_opos)@ }),
            list@,
            0,
        ),
        final(c_pos).len() == old(c_pos).len(),
        final(c_opos).len() == old(c_pos).len(),
{
    let mut k: usize = 0;
    while k < list.len()
        invariant
            c_pos.len() == old(c_pos).len(),
            c_opos.len() == old(c_pos).len(),
            forall|k: int| 0 <= k < list@.len() ==> (#[trigger] list@[k]) < c_pos.len(),
            bounced_all((Trail { pos: c_pos@, prev: c_opos@ }), list@, k as int) == bounced_all(
                (Trail { pos: old(c_pos)@, prev: old(c_opos)@ }),
                list@,
                0,
            ),
        decreases list.len() - k,
    {
        let i: usize = list[k];
        resolve_wall_collision(&mut c_pos[i], &mut c_opos[i]);
        k += 1;
    }
}

/// Bounces the balls of a line of `count` cells that begins at `start` and
/// goes on in steps of `stride`.
pub fn sweep(
    c_pos: &mut Vec<Vec2>,
    c_opos: &mut Vec<Vec2>,
    table: &Vec<Vec<usize>>,
    start: usize,
    stride: usize,
    count: usize,
)
    requires
        old(c_opos).len() == old(c_pos).len(),
        table.len() == CELL_COUNT,
        indexes(buckets(table@), old(c_pos).len() as int),
        count >= 1,
        start + (count - 1) * stride < CELL_COUNT,
    ensures
        (Trail { pos: final(c_pos)@, prev: final(c_opos)@ }) == swept(
            (Trail { pos: old(c_pos)@, prev: old(c_opos)@ }),
            buckets(table@),
            start as int,
            stride as int,
            0,
            count as int,
        ),
        final(c_pos).len() == old(c_pos).len(),
        final(c_opos).len() == old(c_pos).len(),
{
    let mut k: usize = 0;
    while k < count
        invariant
            k <= count,
            c_pos.len() == old(c_pos).len(),
            c_opos.len() == old(c_pos).len(),
            table.len() == CELL_COUNT,
            indexes(buckets(table@), c_pos.len() as int),
            start + (count - 1) * stride < CELL_COUNT,
            swept(
                (Trail { pos: c_pos@, prev: c_opos@ }),
                buckets(table@),
                start as int,
                stride as int,
                k as int,
                count as int,
            ) == swept(
                (Trail { pos: old(c_pos)@, prev: old(c_opos)@ }),
                buckets(table@),
                start as int,
                stride as int,
                0,
                count as int,
            ),
        decreases count - k,
    {
        assert(k * stride <= (count - 1) * stride) by (nonlinear_arith)
            requires
                0 <= k <= count - 1,
                0 <= stride,
        ;
        let cell: usize = start + k * stride;
        proof {
            assert(buckets(table@)[cell as int] == table@[cell as int]@);
            assert forall|j: int| 0 <= j < table@[cell as int]@.len() implies (
            #[trigger] table@[cell as int]@[j]) < c_pos.len() by {
                assert(buckets(table@)[cell as int][j] < c_pos.len());
            }
        }
        bounce_all(c_pos, c_opos, &table[cell]);
        k += 1;
    }
}

/// Bounces the balls in the cells along the grid's four edges.
pub fn check_wall_collisions(
    c_pos: &mut Vec<Vec2>,
    c_opos: &mut Vec<Vec2>,
    table: &Vec<Vec<usize>>,
)
    requires
        old(c_opos).len() == old(c_pos).len(),
        table.len() == CELL_COUNT,
        indexes(buckets(table@), old(c_pos).len() as int),
    ensures
        (Trail { pos: final(c_pos)@, prev: final(c_opos)@ }) == walls_resolved(
            (Trail { pos: old(c_pos)@, prev: old(c_opos)@ }),
            buckets(table@),
        ),
        final(c_pos).len() == old(c_pos).len(),
        final(c_opos).len() == old(c_pos).len(),
{
    sweep(c_pos, c_opos, table, 0, X_LEN, Y_LEN);
    sweep(c_pos, c_opos, table, X_LEN - 1, X_LEN, Y_LEN);
    sweep(c_pos, c_opos, table, 0, 1, X_LEN);
    sweep(c_pos, c_opos, table, (Y_LEN - 1) * X_LEN, 1, X_LEN);
}

} // verus!
