//! The engine: the balls' hidden state, the snapshot it publishes, the
//! events it takes, and the time step that ties them together.
use vstd::prelude::*;
use std::sync::mpsc::Receiver;
use crate::constants::CELL_COUNT;
use crate::fixed::{sat, saturate};
use crate::grid::rebuild;
use crate::relax::relax_cells;
use crate::vector::Vec2;
use crate::wall::check_wall_collisions;
use crate::world::{
    advance, advanced, fired, fired_some, hue, hue_of, integrated, launch_from, pass, place,
    relaxed, shot_shift, stepped, with_ball, World, CANNON_BATCH, CANNON_SPACING, PHYS_TIME_STEP,
    RELAXATION_PASSES,
};

verus! {

/// The receiving end of a channel of the standard library. The engine holds
/// it and asks it for one event after each step; nothing is known of what
/// it holds.
#[verifier::external_type_specification]
#[verifier::external_body]
#[verifier::reject_recursive_types(T)]
pub struct ExReceiver<T>(std::sync::mpsc::Receiver<T>);

/// What whoever presents the simulation can ask of the engine.
#[derive(Clone, Copy, Debug)]
pub enum EventToPthread {
    /// Fire a batch of balls from the first point, along the second vector.
    Cannon((Vec2, Vec2)),
    /// Add to the scale of the long-range force.
    Scale(i32),
}

/// The snapshot that the engine publishes after every step.
#[derive(Clone, Debug)]
pub struct ShareData {
    /// Position of every ball.
    pub c_pos: Vec<Vec2>,
    /// Hue of every ball, in fixed-point degrees.
    pub c_color: Vec<i32>,
    /// Duration of the last step, in nanoseconds.
    pub phys_time: u64,
}

impl Default for ShareData {
    fn default() -> (share: ShareData)
        ensures
            share.c_pos@ == Seq::<Vec2>::empty(),
            share.c_color@ == Seq::<i32>::empty(),
            share.phys_time == 0,
    {
        ShareData { c_pos: Vec::new(), c_color: Vec::new(), phys_time: 0 }
    }
}

impl ShareData {
    /// A copy of the snapshot, for whoever presents it to keep while the
    /// engine goes on.
    pub fn snapshot(&self) -> (copy: ShareData)
        ensures
            copy.c_pos@ == self.c_pos@,
            copy.c_color@ == self.c_color@,
            copy.phys_time == self.phys_time,
    {
        let n: usize = self.c_pos.len();
        let mut c_pos: Vec<Vec2> = Vec::with_capacity(n);
        let mut i: usize = 0;
        while i < n
            invariant
                i <= n,
                n == self.c_pos.len(),
                c_pos@ == self.c_pos@.take(i as int),
            decreases n - i,
        {
            c_pos.push(self.c_pos[i]);
            proof {
                assert(self.c_pos@.take(i + 1) =~= self.c_pos@.take(i as int).push(
                    self.c_pos@[i as int],
                ));
            }
            i += 1;
        }
        let m: usize = self.c_color.len();
        let mut c_color: Vec<i32> = Vec::with_capacity(m);
        let mut j: usize = 0;
        while j < m
            invariant
                j <= m,
                m == self.c_color.len(),
                c_color@ == self.c_color@.take(j as int),
            decreases m - j,
        {
            c_color.push(self.c_color[j]);
            proof {
                assert(self.c_color@.take(j + 1) =~= self.c_color@.take(j as int).push(
                    self.c_color@[j as int],
                ));
            }
            j += 1;
        }
        proof {
            assert(self.c_pos@.take(n as int) =~= self.c_pos@);
            assert(self.c_color@.take(m as int) =~= self.c_color@);
        }
        ShareData { c_pos, c_color, phys_time: self.phys_time }
    }
}

/// The engine's own state: what of the balls it does not publish, the grid
/// it sorts them into, its inbox, and the scale of the long-range force.
pub struct Physics {
    /// Previous position of every ball.
    pub c_opos: Vec<Vec2>,
    /// Accumulated force on every ball.
    pub c_force: Vec<Vec2>,
    /// The grid: one bucket of balls for each cell.
    pub table: Vec<Vec<usize>>,
    /// Working space for the balls around one cell.
    pub others: Vec<usize>,
    /// The inbox of events.
    pub rx: Receiver<EventToPthread>,
    /// Scale of the long-range force.
    pub scale: i32,
}

/// The world after an event, or after none, and the force scale with it. A
/// cannon event fires a shot; a scale event adds to the force scale, which
/// saturates.
pub open spec fn handled(w: World, scale: int, dt: int, event: Option<EventToPthread>) -> (
    World,
    int,
) {
    match event {
        Some(EventToPthread::Cannon((start, cannon))) => (fired(w, dt, start, cannon), scale),
        Some(EventToPthread::Scale(delta)) => (w, sat(scale + delta)),
        None => (w, scale),
    }
}

/// The world and the force scale after one turn of the driver: a time step,
/// then at most one event.
pub open spec fn ticked(w: World, scale: int, dt: int, event: Option<EventToPthread>) -> (
    World,
    int,
) {
    handled(stepped(w, dt, scale), scale, dt, event)
}

/// Takes the oldest event out of the inbox, if one waits there, through
/// `Receiver::try_recv`. An empty inbox and one whose senders are all gone
/// both give `None`. Which of these happens depends on the other threads,
/// so nothing is claimed of the result.
#[verifier::external_body]
fn poll(rx: &Receiver<EventToPthread>) -> (event: Option<EventToPthread>) {
    match rx.try_recv() {
        Ok(event) => Some(event),
        Err(_) => None,
    }
}

/// Tells whether the time that has passed since the last step, in
/// nanoseconds, calls for the next one.
pub fn step_due(elapsed: u64) -> (due: bool)
    ensures
        due == (elapsed >= PHYS_TIME_STEP),
{
    elapsed >= PHYS_TIME_STEP
}

impl Physics {
    /// The grid has one bucket for each cell.
    pub open spec fn ready(&self) -> bool {
        self.table.len() == CELL_COUNT
    }

    /// The world that this engine and its snapshot hold together.
    pub open spec fn world(&self, share: &ShareData) -> World {
        World { pos: share.c_pos@, prev: self.c_opos@, hue: share.c_color@, force: self.c_force@ }
    }

    /// The engine can work on the snapshot: its grid is ready, and engine
    /// and snapshot hold the same number of balls in each of their
    /// sequences.
    pub open spec fn fits(&self, share: &ShareData) -> bool {
        self.ready() && self.world(share).aligned()
    }

    /// Makes an engine of its parts. `table` and `others` are working space
    /// whose contents do not matter; the engine is ready if `table` has one
    /// bucket for each cell.
    pub fn new(
        c_opos: Vec<Vec2>,
        c_force: Vec<Vec2>,
        table: Vec<Vec<usize>>,
        others: Vec<usize>,
        rx: Receiver<EventToPthread>,
        scale: i32,
    ) -> (p: Self)
        ensures
            p.c_opos == c_opos,
            p.c_force == c_force,
            p.table == table,
            p.others == others,
            p.rx == rx,
            p.scale == scale,
    {
        Self { c_opos, c_force, table, others, rx, scale }
    }

    /// Tells whether the engine can work on the snapshot.
    pub fn accepts(&self, share: &ShareData) -> (ok: bool)
        ensures
            ok == self.fits(share),
    {
        self.table.len() == CELL_COUNT && self.c_opos.len() == share.c_pos.len()
            && share.c_color.len() == share.c_pos.len() && self.c_force.len()
            == share.c_pos.len()
    }

    /// Advances every ball by one Verlet step of `dt` nanoseconds.
    pub fn integrate(&mut self, dt: u64, share: &mut ShareData)
        requires
            old(self).fits(old(share)),
        ensures
            final(self).world(final(share)) == integrated(old(self).world(old(share)), dt as int),
            final(self).fits(final(share)),
            final(share).c_pos.len() == old(share).c_pos.len(),
            final(self).scale == old(self).scale,
            final(self).rx == old(self).rx,
            final(share).phys_time == old(share).phys_time,
    {
        let n: usize = share.c_pos.len();
        let mut i: usize = 0;
        while i < n
            invariant
                i <= n,
                share.c_pos.len() == n,
                share.c_color.len() == n,
                self.c_opos.len() == n,
                self.c_force.len() == n,
                old(share).c_pos.len() == n,
                old(self).c_opos.len() == n,
                old(self).c_force.len() == n,
                self.table.len() == CELL_COUNT,
                self.scale == old(self).scale,
                self.rx == old(self).rx,
                share.phys_time == old(share).phys_time,
                forall|k: int|
                    0 <= k < i ==> #[trigger] share.c_pos@[k] == advanced(
                        old(share).c_pos@[k],
                        old(self).c_opos@[k],
                        old(self).c_force@[k],
                        dt as int,
                    ),
                forall|k: int| 0 <= k < i ==> #[trigger] self.c_opos@[k] == old(share).c_pos@[k],
                forall|k: int|
                    0 <= k < i ==> #[trigger] share.c_color@[k] == hue_of(
                        old(share).c_pos@[k],
                        old(self).c_opos@[k],
                    ),
                forall|k: int| 0 <= k < i ==> #[trigger] self.c_force@[k] == (Vec2 { x: 0, y: 0 }),
                forall|k: int| i <= k < n ==> #[trigger] share.c_pos@[k] == old(share).c_pos@[k],
                forall|k: int| i <= k < n ==> #[trigger] self.c_opos@[k] == old(self).c_opos@[k],
                forall|k: int| i <= k < n ==> #[trigger] self.c_force@[k] == old(self).c_force@[k],
            decreases n - i,
        {
            let pos = share.c_pos[i];
            let prev = self.c_opos[i];
            let force = self.c_force[i];
            share.c_color[i] = hue(pos, prev);
            share.c_pos[i] = advance(pos, prev, force, dt);
            self.c_opos[i] = pos;
            self.c_force[i] = Vec2::zero();
            i += 1;
        }
        proof {
            let w = integrated(old(self).world(old(share)), dt as int);
            assert(share.c_pos@ =~= w.pos);
            assert(self.c_opos@ =~= w.prev);
            assert(share.c_color@ =~= w.hue);
            assert(self.c_force@ =~= w.force);
        }
    }

    /// Runs one relaxation pass: sorts the balls into the grid, relaxes
    /// every cell, and bounces the balls of the edge cells off the walls.
    pub fn relaxation_pass(&mut self, share: &mut ShareData)
        requires
            old(self).fits(old(share)),
        ensures
            final(self).world(final(share)) == pass(
                old(self).world(old(share)),
                old(self).scale as int,
            ),
            final(self).fits(final(share)),
            final(share).c_pos.len() == old(share).c_pos.len(),
            final(self).scale == old(self).scale,
            final(self).rx == old(self).rx,
            final(share).phys_time == old(share).phys_time,
    {
        rebuild(&mut self.table, &share.c_pos);
        relax_cells(&mut share.c_pos, &mut self.c_force, &self.table, &mut self.others, self.scale);
        check_wall_collisions(&mut share.c_pos, &mut self.c_opos, &self.table);
    }

    /// Runs the relaxation passes of one time step.
    pub fn check_ball_collisions(&mut self, share: &mut ShareData)
        requires
            old(self).fits(old(share)),
        ensures
            final(self).world(final(share)) == relaxed(
                old(self).world(old(share)),
                old(self).scale as int,
                RELAXATION_PASSES as nat,
            ),
            final(self).fits(final(share)),
            final(share).c_pos.len() == old(share).c_pos.len(),
            final(self).scale == old(self).scale,
            final(self).rx == old(self).rx,
            final(share).phys_time == old(share).phys_time,
    {
        let mut done: usize = 0;
        while done < RELAXATION_PASSES
            invariant
                done <= RELAXATION_PASSES,
                self.fits(share),
                share.c_pos.len() == old(share).c_pos.len(),
                self.scale == old(self).scale,
                self.rx == old(self).rx,
                share.phys_time == old(share).phys_time,
                relaxed(
                    self.world(share),
                    self.scale as int,
                    (RELAXATION_PASSES - done) as nat,
                ) == relaxed(
                    old(self).world(old(share)),
                    old(self).scale as int,
                    RELAXATION_PASSES as nat,
                ),
            decreases RELAXATION_PASSES - done,
        {
            self.relaxation_pass(share);
            done += 1;
        }
    }

    /// Advances the world by one time step of `dt` nanoseconds: integration,
    /// then the relaxation passes.
    pub fn step(&mut self, dt: u64, share: &mut ShareData)
        requires
            old(self).fits(old(share)),
        ensures
            final(self).world(final(share)) == stepped(
                old(self).world(old(share)),
                dt as int,
                old(self).scale as int,
            ),
            final(self).fits(final(share)),
            final(share).c_pos.len() == old(share).c_pos.len(),
            final(self).scale == old(self).scale,
            final(self).rx == old(self).rx,
            final(share).phys_time == old(share).phys_time,
    {
        self.integrate(dt, share);
        self.check_ball_collisions(share);
    }

    /// Adds one ball, `shift` along the line of a cannon at `start`, with
    /// the hue `color`, launched along `cannon`.
    pub fn cannon(
        &mut self,
        shift: i32,
        color: i32,
        dt: u64,
        share: &mut ShareData,
        start: Vec2,
        cannon: Vec2,
    )
        requires
            old(self).fits(old(share)),
        ensures
            final(self).world(final(share)) == with_ball(
                old(self).world(old(share)),
                shift as int,
                color,
                dt as int,
                start,
                cannon,
            ),
            final(self).fits(final(share)),
            final(share).c_pos.len() == old(share).c_pos.len() + 1,
            final(self).scale == old(self).scale,
            final(self).rx == old(self).rx,
            final(share).phys_time == old(share).phys_time,
    {
        let ball_pos = place(start, cannon, shift);
        let ball_opos = launch_from(ball_pos, cannon, dt);
        share.c_pos.push(ball_pos);
        self.c_opos.push(ball_opos);
        self.c_force.push(Vec2::zero());
        share.c_color.push(color);
    }

    /// Fires a cannon shot: a batch of balls in a line through `start`
    /// across the direction of `cannon`, all launched along `cannon`.
    pub fn do_cannon(&mut self, dt: u64, share: &mut ShareData, start: Vec2, cannon: Vec2)
        requires
            old(self).fits(old(share)),
        ensures
            final(self).world(final(share)) == fired(
                old(self).world(old(share)),
                dt as int,
                start,
                cannon,
            ),
            final(self).fits(final(share)),
            final(share).c_pos.len() == old(share).c_pos.len() + CANNON_BATCH,
            final(self).scale == old(self).scale,
            final(self).rx == old(self).rx,
            final(share).phys_time == old(share).phys_time,
    {
        let mut k: usize = 0;
        proof {
            let w = old(self).world(old(share));
            let f = fired_some(w, dt as int, start, cannon, 0);
            assert(f.pos =~= w.pos && f.prev =~= w.prev && f.hue =~= w.hue && f.force =~= w.force);
        }
        while k < CANNON_BATCH
            invariant
                k <= CANNON_BATCH,
                self.fits(share),
                share.c_pos.len() == old(share).c_pos.len() + k,
                self.scale == old(self).scale,
                self.rx == old(self).rx,
                share.phys_time == old(share).phys_time,
                self.world(share) == fired_some(
                    old(self).world(old(share)),
                    dt as int,
                    start,
                    cannon,
                    k as nat,
                ),
            decreases CANNON_BATCH - k,
        {
            let shift: i32 = -(k as i32) * CANNON_SPACING;
            self.cannon(shift, 0, dt, share, start, cannon);
            proof {
                let w = old(self).world(old(share));
                let f = fired_some(w, dt as int, start, cannon, (k + 1) as nat);
                let g = self.world(share);
                assert(shift == shot_shift(k as int));
                assert(g.pos =~= f.pos);
                assert(g.prev =~= f.prev);
                assert(g.hue =~= f.hue);
                assert(g.force =~= f.force);
            }
            k += 1;
        }
    }

    /// Handles an event, if there is one: a cannon event fires a shot, a
    /// scale event adds to the scale of the long-range force.
    pub fn handle(&mut self, dt: u64, share: &mut ShareData, event: Option<EventToPthread>)
        requires
            old(self).fits(old(share)),
        ensures
            (final(self).world(final(share)), final(self).scale as int) == handled(
                old(self).world(old(share)),
                old(self).scale as int,
                dt as int,
                event,
            ),
            final(self).fits(final(share)),
            final(self).rx == old(self).rx,
            final(share).phys_time == old(share).phys_time,
    {
        match event {
            Some(EventToPthread::Cannon((start, cannon))) => {
                self.do_cannon(dt, share, start, cannon);
            },
            Some(EventToPthread::Scale(delta)) => {
                self.scale = saturate(self.scale as i128 + delta as i128);
            },
            None => {},
        }
    }

    /// Takes one turn of the driver with the event that was waiting, if
    /// any: a time step of `dt` nanoseconds, then the event, then the note
    /// of how long the step was.
    pub fn turn(&mut self, dt: u64, share: &mut ShareData, event: Option<EventToPthread>)
        requires
            old(self).fits(old(share)),
        ensures
            (final(self).world(final(share)), final(self).scale as int) == ticked(
                old(self).world(old(share)),
                old(self).scale as int,
                dt as int,
                event,
            ),
            final(self).fits(final(share)),
            final(self).rx == old(self).rx,
            final(share).phys_time == dt,
    {
        self.step(dt, share);
        self.handle(dt, share, event);
        share.phys_time = dt;
    }

    /// Takes one turn of the driver: a time step of `dt` nanoseconds, then
    /// the oldest event that waits in the inbox once the step is done, if
    /// there is one, and no more than that one. Returns the event it
    /// handled.
    pub fn tick(&mut self, dt: u64, share: &mut ShareData) -> (event: Option<EventToPthread>)
        requires
            old(self).fits(old(share)),
        ensures
            (final(self).world(final(share)), final(self).scale as int) == ticked(
                old(self).world(old(share)),
                old(self).scale as int,
                dt as int,
                event,
            ),
            final(self).fits(final(share)),
            final(self).rx == old(self).rx,
            final(share).phys_time == dt,
    {
        self.step(dt, share);
        let event = poll(&self.rx);
        self.handle(dt, share, event);
        share.phys_time = dt;
        event
    }
}

} // verus!
