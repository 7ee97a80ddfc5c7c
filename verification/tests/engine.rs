use ballz::constants::{BALL_SIZE, CELL_COUNT};
use ballz::fixed::ONE;
use ballz::physics::{step_due, EventToPthread, Physics, ShareData};
use ballz::vector::Vec2;
use ballz::world::{aim, arbitrary_vector_field, hue, CANNON_SPACING, PHYS_TIME_STEP};
use std::sync::mpsc::{channel, Sender};

fn engine(scale: i32) -> (Physics, ShareData, Sender<EventToPthread>) {
    let (tx, rx) = channel();
    let physics = Physics::new(
        Vec::new(),
        Vec::new(),
        vec![Vec::new(); CELL_COUNT],
        Vec::new(),
        rx,
        scale,
    );
    (physics, ShareData::default(), tx)
}

fn add_ball(physics: &mut Physics, share: &mut ShareData, pos: Vec2) {
    share.c_pos.push(pos);
    share.c_color.push(0);
    physics.c_opos.push(pos);
    physics.c_force.push(Vec2::zero());
}

#[test]
fn cannon_lines_up_a_batch_across_its_direction() {
    let (mut physics, mut share, _tx) = engine(0);
    let start = Vec2::new(100 * ONE, 100 * ONE);
    physics.do_cannon(PHYS_TIME_STEP, &mut share, start, Vec2::new(ONE, 0));
    assert_eq!(share.c_pos.len(), 20);
    assert_eq!(share.c_color.len(), 20);
    assert_eq!(physics.c_opos.len(), 20);
    assert_eq!(physics.c_force.len(), 20);
    for k in 0..20 {
        assert_eq!(share.c_pos[k].x, 100 * ONE);
        assert_eq!(share.c_pos[k].y, 100 * ONE - (k as i32) * CANNON_SPACING);
        assert_eq!(share.c_color[k], 0);
        assert_eq!(physics.c_force[k], Vec2::zero());
    }
    assert_eq!(CANNON_SPACING, 880_000);
}

#[test]
fn resting_ball_falls_by_gravity_times_the_step() {
    let (mut physics, mut share, _tx) = engine(0);
    add_ball(&mut physics, &mut share, Vec2::new(750 * ONE, 600 * ONE));
    physics.step(PHYS_TIME_STEP, &mut share);
    assert_eq!(share.c_pos[0], Vec2::new(750 * ONE, 600 * ONE + 2041));
    assert_eq!(physics.c_opos[0], Vec2::new(750 * ONE, 600 * ONE));
    assert_eq!(share.c_color[0], 198 * ONE);
    assert_eq!(physics.c_force[0], Vec2::zero());
}

#[test]
fn overlapping_pair_is_pushed_apart() {
    let (mut physics, mut share, _tx) = engine(0);
    add_ball(&mut physics, &mut share, Vec2::new(755 * ONE, 605 * ONE));
    add_ball(&mut physics, &mut share, Vec2::new(755 * ONE, 605 * ONE - BALL_SIZE));
    physics.relaxation_pass(&mut share);
    let after_one = share.c_pos[0].y - share.c_pos[1].y;
    assert_eq!(share.c_pos[0].x, 755 * ONE);
    assert_eq!(share.c_pos[1].x, 755 * ONE);
    assert_eq!(after_one, 700_000);
    physics.check_ball_collisions(&mut share);
    let after_all = share.c_pos[0].y - share.c_pos[1].y;
    assert!(after_all >= 2 * BALL_SIZE - 100);
    assert!(after_all <= 2 * BALL_SIZE);
}

#[test]
fn a_fresh_engine_fits_an_empty_snapshot() {
    let (physics, share, _tx) = engine(7);
    assert!(physics.accepts(&share));
    assert_eq!(physics.scale, 7);
    assert!(share.c_pos.is_empty());
    assert!(share.c_color.is_empty());
    assert_eq!(share.phys_time, 0);
}

#[test]
fn an_engine_rejects_a_snapshot_of_another_size() {
    let (mut physics, mut share, _tx) = engine(0);
    share.c_pos.push(Vec2::zero());
    assert!(!physics.accepts(&share));
    share.c_color.push(0);
    physics.c_opos.push(Vec2::zero());
    assert!(!physics.accepts(&share));
    physics.c_force.push(Vec2::zero());
    assert!(physics.accepts(&share));
    physics.table.pop();
    assert!(!physics.accepts(&share));
}

#[test]
fn integration_follows_velocity_force_and_gravity() {
    let (mut physics, mut share, _tx) = engine(0);
    add_ball(&mut physics, &mut share, Vec2::new(75_000_000, 60_000_000));
    physics.c_opos[0] = Vec2::new(74_999_000, 60_000_500);
    physics.c_force[0] = Vec2::new(480_000, 0);
    physics.integrate(PHYS_TIME_STEP, &mut share);
    assert_eq!(share.c_pos[0], Vec2::new(75_001_999, 60_001_541));
    assert_eq!(physics.c_opos[0], Vec2::new(75_000_000, 60_000_000));
    assert_eq!(physics.c_force[0], Vec2::zero());
    assert_eq!(share.c_color[0], 19_822_360);
}

#[test]
fn integration_over_no_time_keeps_the_velocity() {
    let (mut physics, mut share, _tx) = engine(0);
    add_ball(&mut physics, &mut share, Vec2::new(75_000_000, 60_000_000));
    physics.c_opos[0] = Vec2::new(74_999_000, 60_000_500);
    physics.integrate(0, &mut share);
    assert_eq!(share.c_pos[0], Vec2::new(75_001_000, 59_999_500));
}

#[test]
fn integration_saturates_at_the_end_of_the_range() {
    let (mut physics, mut share, _tx) = engine(0);
    add_ball(&mut physics, &mut share, Vec2::new(i32::MAX, i32::MIN));
    physics.c_opos[0] = Vec2::new(0, 0);
    physics.integrate(PHYS_TIME_STEP, &mut share);
    assert_eq!(share.c_pos[0], Vec2::new(i32::MAX, i32::MIN));
}

#[test]
fn hue_turns_with_speed() {
    let at = Vec2::new(1_000_000, 0);
    assert_eq!(hue(at, at), 19_800_000);
    assert_eq!(hue(at, Vec2::new(0, 0)), 3_800_000);
    assert_eq!(hue(Vec2::new(0, 0), at), 3_800_000);
    assert_eq!(hue(Vec2::new(810_000, 0), Vec2::new(0, 0)), 0);
    assert_eq!(hue(Vec2::new(809_999, 0), Vec2::new(0, 0)), 35_999_980);
    let h = hue(Vec2::new(i32::MAX, i32::MAX), Vec2::new(i32::MIN, i32::MIN));
    assert!((0..36_000_000).contains(&h));
}

#[test]
fn the_ambient_field_is_switched_off() {
    assert_eq!(arbitrary_vector_field(Vec2::new(0, 0)), Vec2::zero());
    assert_eq!(arbitrary_vector_field(Vec2::new(12_345_678, -9_876_543)), Vec2::zero());
}

#[test]
fn a_launched_ball_starts_with_the_cannons_velocity() {
    let (mut physics, mut share, _tx) = engine(0);
    let start = Vec2::new(100 * ONE, 100 * ONE);
    physics.do_cannon(PHYS_TIME_STEP, &mut share, start, Vec2::new(ONE, -2 * ONE));
    for k in 0..20 {
        assert_eq!(share.c_pos[k].x - physics.c_opos[k].x, 1_041);
        assert_eq!(share.c_pos[k].y - physics.c_opos[k].y, -2_083);
    }
}

#[test]
fn a_slanted_cannon_lines_up_across_its_direction() {
    let (mut physics, mut share, _tx) = engine(0);
    let start = Vec2::new(100 * ONE, 100 * ONE);
    physics.do_cannon(0, &mut share, start, Vec2::new(3 * ONE, 4 * ONE));
    for k in 0..20 {
        let k = k as i32;
        assert_eq!(share.c_pos[k as usize], Vec2::new(100 * ONE + 704_000 * k, 100 * ONE - 528_000 * k));
        assert_eq!(physics.c_opos[k as usize], share.c_pos[k as usize]);
    }
}

#[test]
fn a_cannon_without_direction_lines_up_along_y() {
    let (mut physics, mut share, _tx) = engine(0);
    let start = Vec2::new(100 * ONE, 100 * ONE);
    physics.do_cannon(PHYS_TIME_STEP, &mut share, start, Vec2::zero());
    assert_eq!(share.c_pos.len(), 20);
    for k in 0..20 {
        assert_eq!(share.c_pos[k], Vec2::new(100 * ONE, 100 * ONE - (k as i32) * CANNON_SPACING));
        assert_eq!(physics.c_opos[k], share.c_pos[k]);
    }
}

#[test]
fn a_shot_goes_behind_the_balls_that_are_there() {
    let (mut physics, mut share, _tx) = engine(0);
    add_ball(&mut physics, &mut share, Vec2::new(1, 2));
    physics.cannon(-5 * ONE, 77, 0, &mut share, Vec2::new(10, 10), Vec2::new(0, ONE));
    assert_eq!(share.c_pos, vec![Vec2::new(1, 2), Vec2::new(10 + 5 * ONE, 10)]);
    assert_eq!(share.c_color, vec![0, 77]);
    physics.do_cannon(0, &mut share, Vec2::new(0, 0), Vec2::new(ONE, 0));
    assert_eq!(share.c_pos.len(), 22);
    assert_eq!(share.c_pos[0], Vec2::new(1, 2));
    assert_eq!(share.c_pos[2], Vec2::new(0, 0));
    assert!(physics.accepts(&share));
}

#[test]
fn aim_falls_back_to_the_y_axis() {
    assert_eq!(aim(Vec2::zero()), Vec2::new(0, ONE));
    assert_eq!(aim(Vec2::new(ONE, 0)), Vec2::new(0, ONE));
    assert_eq!(aim(Vec2::new(0, 7)), Vec2::new(-ONE, 0));
    assert_eq!(aim(Vec2::new(-3, 4)), Vec2::new(-80_000, -60_000));
}

#[test]
fn a_pass_pushes_forces_across_neighbouring_cells() {
    let (mut physics, mut share, _tx) = engine(200_000_000);
    add_ball(&mut physics, &mut share, Vec2::new(75_500_000, 60_500_000));
    add_ball(&mut physics, &mut share, Vec2::new(76_500_000, 60_500_000));
    physics.relaxation_pass(&mut share);
    assert_eq!(share.c_pos, vec![Vec2::new(75_500_000, 60_500_000), Vec2::new(76_500_000, 60_500_000)]);
    assert_eq!(physics.c_force, vec![Vec2::new(-250_000, 0), Vec2::new(250_000, 0)]);
}

#[test]
fn a_step_accumulates_the_whole_force_across_neighbouring_cells() {
    let (mut physics, mut share, _tx) = engine(200_000_000);
    add_ball(&mut physics, &mut share, Vec2::new(50_500_000, 50_500_000));
    add_ball(&mut physics, &mut share, Vec2::new(51_500_000, 50_500_000));
    physics.check_ball_collisions(&mut share);
    assert_eq!(share.c_pos, vec![Vec2::new(50_500_000, 50_500_000), Vec2::new(51_500_000, 50_500_000)]);
    assert_eq!(physics.c_force, vec![Vec2::new(-2_000_000, 0), Vec2::new(2_000_000, 0)]);
}

#[test]
fn a_step_accumulates_the_whole_force_within_one_cell() {
    let (mut physics, mut share, _tx) = engine(200_000_000);
    add_ball(&mut physics, &mut share, Vec2::new(50_050_000, 50_500_000));
    add_ball(&mut physics, &mut share, Vec2::new(50_950_000, 50_500_000));
    physics.check_ball_collisions(&mut share);
    assert_eq!(physics.c_force, vec![Vec2::new(-8 * 308_641, 0), Vec2::new(8 * 308_641, 0)]);
}

#[test]
fn a_pass_pairs_the_balls_of_one_cell_once() {
    let (mut physics, mut share, _tx) = engine(200_000_000);
    add_ball(&mut physics, &mut share, Vec2::new(75_050_000, 60_500_000));
    add_ball(&mut physics, &mut share, Vec2::new(75_950_000, 60_500_000));
    physics.relaxation_pass(&mut share);
    assert_eq!(share.c_pos, vec![Vec2::new(75_050_000, 60_500_000), Vec2::new(75_950_000, 60_500_000)]);
    assert_eq!(physics.c_force, vec![Vec2::new(-308_641, 0), Vec2::new(308_641, 0)]);
}

#[test]
fn a_pass_brings_a_stray_ball_back_inside() {
    let (mut physics, mut share, _tx) = engine(0);
    add_ball(&mut physics, &mut share, Vec2::new(-1_000_000, 50_000_000));
    add_ball(&mut physics, &mut share, Vec2::new(200_000_000, 130_000_000));
    physics.relaxation_pass(&mut share);
    assert_eq!(share.c_pos, vec![Vec2::new(400_001, 50_000_000), Vec2::new(149_599_999, 119_599_999)]);
    assert_eq!(physics.c_opos, vec![Vec2::new(400_001, 50_000_000), Vec2::new(149_599_999, 119_599_999)]);
}

#[test]
fn a_lone_ball_in_a_corner_is_not_moved_by_itself() {
    let (mut physics, mut share, _tx) = engine(200_000_000);
    add_ball(&mut physics, &mut share, Vec2::new(500_000, 500_000));
    physics.check_ball_collisions(&mut share);
    assert_eq!(share.c_pos, vec![Vec2::new(500_000, 500_000)]);
    assert_eq!(physics.c_force, vec![Vec2::zero()]);
}

#[test]
fn relaxation_is_idle_on_separated_balls() {
    let (mut physics, mut share, _tx) = engine(200_000_000);
    let spots = vec![
        Vec2::new(1_000_000, 1_000_000),
        Vec2::new(1_800_000, 1_000_000),
        Vec2::new(1_000_000, 1_800_000),
        Vec2::new(75_000_000, 60_000_000),
        Vec2::new(75_000_000, 60_800_000),
        Vec2::new(149_000_000, 119_000_000),
    ];
    for spot in spots.iter() {
        add_ball(&mut physics, &mut share, *spot);
    }
    let before = physics.c_opos.clone();
    physics.check_ball_collisions(&mut share);
    assert_eq!(share.c_pos, spots);
    assert_eq!(physics.c_opos, before);
    assert!(physics.c_force.iter().any(|f| *f != Vec2::zero()));
}

#[test]
fn every_sequence_grows_and_stays_in_step() {
    let (mut physics, mut share, _tx) = engine(200_000_000);
    for round in 0..5 {
        physics.do_cannon(
            PHYS_TIME_STEP,
            &mut share,
            Vec2::new(30 * ONE, 100 * ONE),
            Vec2::new(ONE, 0),
        );
        for _ in 0..3 {
            physics.step(PHYS_TIME_STEP, &mut share);
            assert!(physics.accepts(&share));
        }
        let n = 20 * (round + 1);
        assert_eq!(share.c_pos.len(), n);
        assert_eq!(share.c_color.len(), n);
        assert_eq!(physics.c_opos.len(), n);
        assert_eq!(physics.c_force.len(), n);
    }
}

#[test]
fn a_step_leaves_every_hue_within_one_turn() {
    let (mut physics, mut share, _tx) = engine(200_000_000);
    physics.do_cannon(PHYS_TIME_STEP, &mut share, Vec2::new(30 * ONE, 100 * ONE), Vec2::new(900 * ONE, 0));
    for _ in 0..20 {
        physics.step(PHYS_TIME_STEP, &mut share);
    }
    assert!(share.c_color.iter().all(|h| (0..36_000_000).contains(h)));
}

#[test]
fn the_driver_handles_one_event_in_a_turn() {
    let (mut physics, mut share, tx) = engine(0);
    tx.send(EventToPthread::Scale(5)).unwrap();
    tx.send(EventToPthread::Scale(7)).unwrap();
    tx.send(EventToPthread::Cannon((Vec2::new(50 * ONE, 50 * ONE), Vec2::new(0, ONE)))).unwrap();
    let first = physics.tick(PHYS_TIME_STEP, &mut share);
    assert!(matches!(first, Some(EventToPthread::Scale(5))));
    assert_eq!(physics.scale, 5);
    assert_eq!(share.phys_time, PHYS_TIME_STEP);
    let second = physics.tick(PHYS_TIME_STEP + 9, &mut share);
    assert!(matches!(second, Some(EventToPthread::Scale(7))));
    assert_eq!(physics.scale, 12);
    assert_eq!(share.phys_time, PHYS_TIME_STEP + 9);
    assert!(share.c_pos.is_empty());
    let third = physics.tick(PHYS_TIME_STEP, &mut share);
    assert!(matches!(third, Some(EventToPthread::Cannon(_))));
    assert_eq!(share.c_pos.len(), 20);
    assert_eq!(share.c_pos[1], Vec2::new(50 * ONE + CANNON_SPACING, 50 * ONE));
    let fourth = physics.tick(PHYS_TIME_STEP, &mut share);
    assert!(fourth.is_none());
    assert_eq!(share.c_pos.len(), 20);
    assert_eq!(physics.scale, 12);
}

#[test]
fn the_driver_handles_its_event_after_the_step() {
    let (mut physics, mut share, tx) = engine(0);
    add_ball(&mut physics, &mut share, Vec2::new(50_500_000, 50_500_000));
    add_ball(&mut physics, &mut share, Vec2::new(51_500_000, 50_500_000));
    tx.send(EventToPthread::Scale(200_000_000)).unwrap();
    physics.tick(0, &mut share);
    assert_eq!(physics.scale, 200_000_000);
    assert_eq!(physics.c_force, vec![Vec2::zero(), Vec2::zero()]);
    tx.send(EventToPthread::Cannon((Vec2::new(9 * ONE, 9 * ONE), Vec2::new(ONE, 0)))).unwrap();
    physics.tick(PHYS_TIME_STEP, &mut share);
    assert_eq!(share.c_pos.len(), 22);
    assert_eq!(share.c_pos[2], Vec2::new(9 * ONE, 9 * ONE));
    assert_eq!(physics.c_opos[2], Vec2::new(9 * ONE - 1_041, 9 * ONE));
    assert_eq!(physics.c_force[0], Vec2::new(-2_000_000, 0));
}

#[test]
fn the_driver_goes_on_when_no_sender_is_left() {
    let (mut physics, mut share, tx) = engine(3);
    tx.send(EventToPthread::Scale(-4)).unwrap();
    drop(tx);
    assert!(matches!(physics.tick(PHYS_TIME_STEP, &mut share), Some(EventToPthread::Scale(-4))));
    assert!(physics.tick(PHYS_TIME_STEP, &mut share).is_none());
    assert_eq!(physics.scale, -1);
}

#[test]
fn the_force_scale_saturates() {
    let (mut physics, mut share, _tx) = engine(i32::MAX - 5);
    physics.handle(0, &mut share, Some(EventToPthread::Scale(10)));
    assert_eq!(physics.scale, i32::MAX);
    physics.handle(0, &mut share, Some(EventToPthread::Scale(i32::MIN)));
    assert_eq!(physics.scale, -1);
    physics.handle(0, &mut share, Some(EventToPthread::Scale(i32::MIN)));
    assert_eq!(physics.scale, i32::MIN);
    physics.handle(0, &mut share, None);
    assert_eq!(physics.scale, i32::MIN);
}

#[test]
fn a_step_is_due_once_the_time_step_has_passed() {
    assert_eq!(PHYS_TIME_STEP, 2_083_333);
    assert!(!step_due(0));
    assert!(!step_due(PHYS_TIME_STEP - 1));
    assert!(step_due(PHYS_TIME_STEP));
    assert!(step_due(u64::MAX));
}

fn course(scale: i32) -> (ShareData, Vec<Vec2>, Vec<Vec2>, i32) {
    let (mut physics, mut share, _tx) = engine(scale);
    let events = [
        Some(EventToPthread::Cannon((Vec2::new(40 * ONE, 90 * ONE), Vec2::new(300 * ONE, 40 * ONE)))),
        None,
        Some(EventToPthread::Scale(50 * ONE)),
        Some(EventToPthread::Cannon((Vec2::new(44 * ONE, 90 * ONE), Vec2::new(-200 * ONE, 0)))),
        None,
        Some(EventToPthread::Scale(-900 * ONE)),
    ];
    for round in 0..30 {
        physics.turn(PHYS_TIME_STEP + round, &mut share, events[(round % 6) as usize]);
    }
    (share, physics.c_opos, physics.c_force, physics.scale)
}

#[test]
fn two_runs_of_one_course_end_alike() {
    let (share_a, prev_a, force_a, scale_a) = course(200_000_000);
    let (share_b, prev_b, force_b, scale_b) = course(200_000_000);
    assert_eq!(share_a.c_pos.len(), 200);
    assert_eq!(share_a.c_pos, share_b.c_pos);
    assert_eq!(share_a.c_color, share_b.c_color);
    assert_eq!(share_a.phys_time, share_b.phys_time);
    assert_eq!(prev_a, prev_b);
    assert_eq!(force_a, force_b);
    assert_eq!(scale_a, scale_b);
}

#[test]
fn a_step_keeps_the_balls_of_fresh_shots_apart() {
    let (mut physics, mut share, _tx) = engine(0);
    add_ball(&mut physics, &mut share, Vec2::new(75_500_000, 60_500_000));
    add_ball(&mut physics, &mut share, Vec2::new(75_500_000, 60_500_000 - BALL_SIZE));
    let before = share.c_pos[0].y - share.c_pos[1].y;
    physics.step(PHYS_TIME_STEP, &mut share);
    let after = share.c_pos[0].y - share.c_pos[1].y;
    assert!(after > before);
    assert!(after >= 2 * BALL_SIZE - 100);
}

#[test]
fn a_snapshot_can_be_copied() {
    let (mut physics, mut share, _tx) = engine(0);
    add_ball(&mut physics, &mut share, Vec2::new(5, 6));
    add_ball(&mut physics, &mut share, Vec2::new(-7, 8));
    share.c_color[1] = 1_234;
    share.phys_time = 9;
    let copy = share.clone();
    assert_eq!(copy.c_pos, vec![Vec2::new(5, 6), Vec2::new(-7, 8)]);
    assert_eq!(copy.c_color, vec![0, 1_234]);
    assert_eq!(copy.phys_time, 9);
    let kept = share.snapshot();
    share.c_pos[0] = Vec2::new(0, 0);
    share.c_color.push(5);
    assert_eq!(kept.c_pos, vec![Vec2::new(5, 6), Vec2::new(-7, 8)]);
    assert_eq!(kept.c_color, vec![0, 1_234]);
    assert_eq!(kept.phys_time, 9);
    assert_eq!(ShareData::default().snapshot().c_pos, Vec::new());
}

#[test]
fn a_pass_looks_for_walls_only_in_edge_cells() {
    let (mut physics, mut share, _tx) = engine(0);
    for k in 0..5 {
        add_ball(&mut physics, &mut share, Vec2::new(1_050_000 + 10_000 * k, 60_500_000));
    }
    physics.relaxation_pass(&mut share);
    assert_eq!(share.c_pos[0], Vec2::new(-112_500, 60_500_000));
    physics.relaxation_pass(&mut share);
    assert!(share.c_pos[0].x > BALL_SIZE);
}

#[test]
fn a_third_ball_can_push_a_pair_together() {
    let (mut physics, mut share, _tx) = engine(0);
    add_ball(&mut physics, &mut share, Vec2::new(75_000_000, 60_500_000));
    add_ball(&mut physics, &mut share, Vec2::new(75_790_000, 60_500_000));
    add_ball(&mut physics, &mut share, Vec2::new(75_890_000, 60_500_000));
    physics.relaxation_pass(&mut share);
    let gap = share.c_pos[1].x - share.c_pos[0].x;
    assert!(gap < 790_000);
    assert!(share.c_pos[2].x - share.c_pos[1].x > 100_000);
}

#[test]
fn an_upright_pair_settles_to_contact() {
    for start_gap in [1, 2, 3, 57, 123_456, 399_999, 400_000] {
        for (x, y) in [(75_500_000, 60_500_000), (75_500_000, 60_950_000), (2_000_000, 2_900_000)] {
            let (mut physics, mut share, _tx) = engine(0);
            add_ball(&mut physics, &mut share, Vec2::new(x, y));
            add_ball(&mut physics, &mut share, Vec2::new(x, y + 2 * BALL_SIZE - start_gap));
            physics.check_ball_collisions(&mut share);
            let apart = share.c_pos[1].y - share.c_pos[0].y;
            assert_eq!(share.c_pos[0].x, x);
            assert_eq!(share.c_pos[1].x, x);
            assert_eq!(share.c_pos[0].y + share.c_pos[1].y, 2 * y + 2 * BALL_SIZE - start_gap);
            assert!(apart <= 2 * BALL_SIZE);
            assert!(apart >= 2 * BALL_SIZE - 10);
            assert!(apart >= 2 * BALL_SIZE - start_gap);
            if start_gap >= 3 {
                assert!(apart > 2 * BALL_SIZE - start_gap);
            }
        }
    }
}

#[test]
fn a_pair_within_two_units_of_contact_is_left_alone() {
    let (mut physics, mut share, _tx) = engine(0);
    add_ball(&mut physics, &mut share, Vec2::new(75_500_000, 60_500_000));
    add_ball(&mut physics, &mut share, Vec2::new(75_500_000, 60_500_000 + 2 * BALL_SIZE - 2));
    physics.check_ball_collisions(&mut share);
    assert_eq!(share.c_pos[0], Vec2::new(75_500_000, 60_500_000));
    assert_eq!(share.c_pos[1], Vec2::new(75_500_000, 60_500_000 + 2 * BALL_SIZE - 2));
}

#[test]
fn a_slanted_pair_is_parted_about_its_middle() {
    let (mut physics, mut share, _tx) = engine(0);
    add_ball(&mut physics, &mut share, Vec2::new(75_900_000, 60_950_000));
    add_ball(&mut physics, &mut share, Vec2::new(76_100_000, 61_250_000));
    physics.check_ball_collisions(&mut share);
    let (a, b) = (share.c_pos[0], share.c_pos[1]);
    assert_eq!(a.x + b.x, 75_900_000 + 76_100_000);
    assert_eq!(a.y + b.y, 60_950_000 + 61_250_000);
    assert!(b.x - a.x > 200_000);
    assert!(b.y - a.y > 300_000);
    let apart = (b.x - a.x) as i64 * (b.x - a.x) as i64 + (b.y - a.y) as i64 * (b.y - a.y) as i64;
    assert!(apart > 200_000i64 * 200_000 + 300_000i64 * 300_000);
    assert!(apart >= 799_900i64 * 799_900);
}

#[test]
fn a_shot_of_a_unit_cannon_is_square_to_it_and_evenly_spaced() {
    let cannons = [
        Vec2::new(ONE, 0),
        Vec2::new(0, -ONE),
        Vec2::new(60_000, 80_000),
        Vec2::new(-28_000, 96_000),
        Vec2::new(70_711, 70_711),
        Vec2::new(-99_999, -448),
        Vec2::new(17_365, -98_481),
    ];
    for cannon in cannons {
        let (mut physics, mut share, _tx) = engine(0);
        let start = Vec2::new(700 * ONE, 600 * ONE);
        physics.do_cannon(PHYS_TIME_STEP, &mut share, start, cannon);
        let (cx, cy) = (cannon.x as i64, cannon.y as i64);
        let long = cx * cx + cy * cy;
        assert!(long >= 10_000_000_000 && long < 100_001 * 100_001);
        for k in 0..20 {
            let ox = (share.c_pos[k].x - start.x) as i64;
            let oy = (share.c_pos[k].y - start.y) as i64;
            let reach = k as i64 * CANNON_SPACING as i64;
            let dot = ox * cx + oy * cy;
            assert!(dot.abs() <= 2 * ONE as i64);
            assert!(ox * ox + oy * oy >= reach * reach - 4 * reach);
            assert!((ox * ox + oy * oy) as i128 * 10_000_000_000 <= (reach * reach) as i128 * long as i128);
            for j in 0..k {
                let gx = (share.c_pos[k].x - share.c_pos[j].x) as i64;
                let gy = (share.c_pos[k].y - share.c_pos[j].y) as i64;
                assert!(gx * gx + gy * gy >= 4 * BALL_SIZE as i64 * BALL_SIZE as i64);
            }
        }
    }
}
