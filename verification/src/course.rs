//! The course of the engine over many turns of its driver, and what holds
//! of it however long it runs.
use vstd::prelude::*;
use crate::physics::{handled, ticked, EventToPthread};
use crate::shape::{lemma_fired_shape, lemma_stepped_shape};
use crate::world::{stepped, World, CANNON_BATCH};

verus! {

/// One turn of the driver: the length of its time step, in nanoseconds, and
/// the event that it found waiting, if any.
pub struct Turn {
    pub dt: u64,
    pub event: Option<EventToPthread>,
}

/// The world and the force scale after the turns from place `from` on.
pub open spec fn ran(w: World, scale: int, turns: Seq<Turn>, from: int) -> (World, int)
    decreases turns.len() - from,
{
    if from < 0 || from >= turns.len() {
        (w, scale)
    } else {
        let next = ticked(w, scale, turns[from].dt as int, turns[from].event);
        ran(next.0, next.1, turns, from + 1)
    }
}

/// However many turns the driver takes, the world's four sequences stay
/// aligned, and the number of balls never falls and grows by no more than
/// one batch in a turn.
pub proof fn lemma_course_stays_aligned(w: World, scale: int, turns: Seq<Turn>, from: int)
    requires
        w.aligned(),
        0 <= from <= turns.len(),
        w.count() + CANNON_BATCH * (turns.len() - from) <= usize::MAX,
    ensures
        ran(w, scale, turns, from).0.aligned(),
        w.count() <= ran(w, scale, turns, from).0.count() <= w.count() + CANNON_BATCH * (
        turns.len() - from),
    decreases turns.len() - from,
{
    if from < turns.len() {
        let dt = turns[from].dt as int;
        let s = stepped(w, dt, scale);
        lemma_stepped_shape(w, dt, scale);
        let next = handled(s, scale, dt, turns[from].event);
        match turns[from].event {
            Some(EventToPthread::Cannon((start, cannon))) => {
                lemma_fired_shape(s, dt, start, cannon);
            },
            _ => {},
        }
        assert(CANNON_BATCH * (turns.len() - from) == CANNON_BATCH * (turns.len() - (from + 1))
            + CANNON_BATCH) by (nonlinear_arith);
        lemma_course_stays_aligned(next.0, next.1, turns, from + 1);
    }
}

/// The course is determined by where it starts and what it is fed: two
/// runs from the same world and force scale, over the same time steps and
/// events, end in the same world and force scale.
pub proof fn lemma_course_is_determined(
    w1: World,
    scale1: int,
    turns1: Seq<Turn>,
    w2: World,
    scale2: int,
    turns2: Seq<Turn>,
)
    requires
        w1.pos =~= w2.pos,
        w1.prev =~= w2.prev,
        w1.hue =~= w2.hue,
        w1.force =~= w2.force,
        scale1 == scale2,
        turns1 =~= turns2,
    ensures
        ran(w1, scale1, turns1, 0) == ran(w2, scale2, turns2, 0),
{
}

} // verus!
