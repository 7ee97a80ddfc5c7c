use ballz::constants::BALL_SIZE;
use ballz::contact::{ball_collides, force, separate, visit, FORCE_SHARE};
use ballz::vector::Vec2;

const SCALE: i32 = 200_000_000;

#[test]
fn balls_overlap_below_the_sum_of_their_radii() {
    let origin = Vec2::new(0, 0);
    assert!(ball_collides(origin, BALL_SIZE, Vec2::new(799_999, 0), BALL_SIZE));
    assert!(!ball_collides(origin, BALL_SIZE, Vec2::new(800_000, 0), BALL_SIZE));
    assert!(ball_collides(origin, BALL_SIZE, Vec2::new(0, -799_999), BALL_SIZE));
    assert!(ball_collides(origin, BALL_SIZE, origin, BALL_SIZE));
    assert!(ball_collides(Vec2::new(3, 4), 3, origin, 3));
    assert!(!ball_collides(Vec2::new(3, 4), 2, origin, 3));
    assert!(!ball_collides(Vec2::new(i32::MAX, i32::MAX), BALL_SIZE, Vec2::new(i32::MIN, i32::MIN), BALL_SIZE));
}

#[test]
fn force_falls_with_the_square_of_the_distance() {
    let origin = Vec2::new(0, 0);
    assert_eq!(force(Vec2::new(1_000_000, 0), origin, SCALE), Vec2::new(2_000_000, 0));
    assert_eq!(force(Vec2::new(2_000_000, 0), origin, SCALE), Vec2::new(500_000, 0));
    assert_eq!(force(origin, Vec2::new(1_000_000, 0), SCALE), Vec2::new(-2_000_000, 0));
    assert_eq!(force(Vec2::new(3_000_000, 4_000_000), origin, SCALE), Vec2::new(48_000, 64_000));
    assert_eq!(force(Vec2::new(0, -900_000), origin, SCALE), Vec2::new(0, -2_469_135));
}

#[test]
fn force_vanishes_within_one_radius() {
    let origin = Vec2::new(0, 0);
    assert_eq!(force(Vec2::new(399_999, 0), origin, SCALE), Vec2::zero());
    assert_eq!(force(origin, origin, SCALE), Vec2::zero());
    assert_eq!(force(Vec2::new(400_000, 0), origin, SCALE), Vec2::new(12_500_000, 0));
}

#[test]
fn a_negative_scale_attracts() {
    let origin = Vec2::new(0, 0);
    assert_eq!(force(Vec2::new(1_000_000, 0), origin, -SCALE), Vec2::new(-2_000_000, 0));
    assert_eq!(force(Vec2::new(1_000_000, 0), origin, 0), Vec2::zero());
}

#[test]
fn separation_is_half_of_three_quarters_of_the_overlap() {
    let s = separate(Vec2::new(0, 400_000), Vec2::new(0, 0));
    assert_eq!(s, Vec2::new(0, -150_000));
    let s = separate(Vec2::new(0, 0), Vec2::new(0, 400_000));
    assert_eq!(s, Vec2::new(0, 150_000));
    let s = separate(Vec2::new(300_000, 400_000), Vec2::new(0, 0));
    assert_eq!(s, Vec2::new(-67_500, -90_000));
}

#[test]
fn coincident_balls_have_no_separation() {
    let p = Vec2::new(123_456, -654_321);
    assert_eq!(separate(p, p), Vec2::zero());
}

#[test]
fn a_visit_pushes_an_overlapping_pair_apart() {
    let mut pos = vec![Vec2::new(0, 400_000), Vec2::new(0, 0)];
    let mut acc = vec![Vec2::zero(), Vec2::zero()];
    let at = pos[0];
    visit(&mut pos, &mut acc, at, 0, 1, SCALE, true);
    assert_eq!(pos, vec![Vec2::new(0, 550_000), Vec2::new(0, -150_000)]);
    assert_eq!(acc, vec![Vec2::new(0, 1_562_500), Vec2::new(0, -1_562_500)]);
}

#[test]
fn a_visit_of_a_distant_pair_only_accumulates_force() {
    let mut pos = vec![Vec2::new(0, 0), Vec2::new(7, 7), Vec2::new(1_000_000, 0)];
    let mut acc = vec![Vec2::new(1, 1), Vec2::new(2, 2), Vec2::new(3, 3)];
    let at = pos[2];
    visit(&mut pos, &mut acc, at, 2, 0, SCALE, true);
    assert_eq!(pos, vec![Vec2::new(0, 0), Vec2::new(7, 7), Vec2::new(1_000_000, 0)]);
    assert_eq!(acc, vec![Vec2::new(-249_999, 1), Vec2::new(2, 2), Vec2::new(250_003, 3)]);
    assert_eq!(FORCE_SHARE, 8);
}

#[test]
fn a_visit_across_cells_serves_the_visitor_alone() {
    let mut pos = vec![Vec2::new(0, 0), Vec2::new(7, 7), Vec2::new(1_000_000, 0)];
    let mut acc = vec![Vec2::new(1, 1), Vec2::new(2, 2), Vec2::new(3, 3)];
    let at = pos[2];
    visit(&mut pos, &mut acc, at, 2, 0, SCALE, false);
    assert_eq!(pos, vec![Vec2::new(0, 0), Vec2::new(7, 7), Vec2::new(1_000_000, 0)]);
    assert_eq!(acc, vec![Vec2::new(1, 1), Vec2::new(2, 2), Vec2::new(250_003, 3)]);
}

#[test]
fn a_visit_across_cells_still_pushes_both_balls() {
    let mut pos = vec![Vec2::new(0, 400_000), Vec2::new(0, 0)];
    let mut acc = vec![Vec2::zero(), Vec2::zero()];
    let at = pos[0];
    visit(&mut pos, &mut acc, at, 0, 1, SCALE, false);
    assert_eq!(pos, vec![Vec2::new(0, 550_000), Vec2::new(0, -150_000)]);
    assert_eq!(acc, vec![Vec2::new(0, 1_562_500), Vec2::zero()]);
}

#[test]
fn a_visit_goes_by_where_the_visitor_stood() {
    let mut pos = vec![Vec2::new(0, 5_000_000), Vec2::new(0, 0)];
    let mut acc = vec![Vec2::zero(), Vec2::zero()];
    visit(&mut pos, &mut acc, Vec2::new(0, 400_000), 0, 1, 0, false);
    assert_eq!(pos, vec![Vec2::new(0, 5_150_000), Vec2::new(0, -150_000)]);
    assert_eq!(acc, vec![Vec2::zero(), Vec2::zero()]);
}

#[test]
fn a_visit_of_a_ball_by_itself_moves_nothing() {
    let mut pos = vec![Vec2::new(500_000, 500_000)];
    let mut acc = vec![Vec2::new(9, 9)];
    let at = pos[0];
    visit(&mut pos, &mut acc, at, 0, 0, SCALE, false);
    assert_eq!(pos, vec![Vec2::new(500_000, 500_000)]);
    assert_eq!(acc, vec![Vec2::new(9, 9)]);
}
