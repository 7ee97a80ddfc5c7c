use ballz::constants::{BALL_SIZE, HEIGHT, WIDTH};
use ballz::vector::Vec2;
use ballz::wall::{
    bounce_all, collides_wall, resolve_wall_collision, Collision, BOTTOM_WALL, EPS, LEFT_WALL,
    RIGHT_WALL, TOP_WALL,
};

#[test]
fn walls_bound_the_domain() {
    assert_eq!(LEFT_WALL, 0);
    assert_eq!(BOTTOM_WALL, 0);
    assert_eq!(RIGHT_WALL, WIDTH);
    assert_eq!(TOP_WALL, HEIGHT);
    assert_eq!(EPS, 1);
}

#[test]
fn a_ball_in_the_open_touches_no_wall() {
    let hit = collides_wall(Vec2::new(75_000_000, 60_000_000), BALL_SIZE);
    assert_eq!(hit, (None, None));
}

#[test]
fn a_ball_at_one_radius_touches_the_wall() {
    let hit = collides_wall(Vec2::new(BALL_SIZE, 60_000_000), BALL_SIZE);
    assert_eq!(hit, (Some(Collision::Left), None));
    let hit = collides_wall(Vec2::new(BALL_SIZE + 1, 60_000_000), BALL_SIZE);
    assert_eq!(hit, (None, None));
    let hit = collides_wall(Vec2::new(WIDTH - BALL_SIZE, 60_000_000), BALL_SIZE);
    assert_eq!(hit, (Some(Collision::Right), None));
    let hit = collides_wall(Vec2::new(WIDTH - BALL_SIZE - 1, 60_000_000), BALL_SIZE);
    assert_eq!(hit, (None, None));
    let hit = collides_wall(Vec2::new(75_000_000, BALL_SIZE), BALL_SIZE);
    assert_eq!(hit, (None, Some(Collision::Bottom)));
    let hit = collides_wall(Vec2::new(75_000_000, HEIGHT - BALL_SIZE), BALL_SIZE);
    assert_eq!(hit, (None, Some(Collision::Top)));
}

#[test]
fn a_ball_in_a_corner_touches_two_walls() {
    let hit = collides_wall(Vec2::new(-5, HEIGHT + 5), BALL_SIZE);
    assert_eq!(hit, (Some(Collision::Left), Some(Collision::Top)));
    let hit = collides_wall(Vec2::new(i32::MAX, i32::MIN), BALL_SIZE);
    assert_eq!(hit, (Some(Collision::Right), Some(Collision::Bottom)));
}

#[test]
fn a_bounce_off_the_left_wall_damps_and_reverses() {
    let mut pos = Vec2::new(300_000, 60_000_000);
    let mut prev = Vec2::new(350_000, 59_990_000);
    resolve_wall_collision(&mut pos, &mut prev);
    assert_eq!(pos, Vec2::new(400_001, 60_000_000));
    assert_eq!(prev, Vec2::new(380_001, 59_990_000));
}

#[test]
fn a_bounce_in_the_far_corner_damps_both_axes() {
    let mut pos = Vec2::new(149_700_000, 119_900_000);
    let mut prev = Vec2::new(149_600_000, 119_800_000);
    resolve_wall_collision(&mut pos, &mut prev);
    assert_eq!(pos, Vec2::new(149_599_999, 119_599_999));
    assert_eq!(prev, Vec2::new(149_639_999, 119_639_999));
}

#[test]
fn a_bounce_off_the_bottom_wall_leaves_x_alone() {
    let mut pos = Vec2::new(75_000_000, -7);
    let mut prev = Vec2::new(74_000_000, 13);
    resolve_wall_collision(&mut pos, &mut prev);
    assert_eq!(pos, Vec2::new(75_000_000, 400_001));
    assert_eq!(prev, Vec2::new(74_000_000, 399_993));
}

#[test]
fn a_bounce_with_a_huge_velocity_stays_in_range() {
    let mut pos = Vec2::new(i32::MAX, 60_000_000);
    let mut prev = Vec2::new(i32::MIN, 60_000_000);
    resolve_wall_collision(&mut pos, &mut prev);
    assert_eq!(pos, Vec2::new(149_599_999, 60_000_000));
    assert_eq!(prev, Vec2::new(149_599_999 + 1_717_986_918, 60_000_000));
}

#[test]
fn a_clear_ball_is_left_alone() {
    let mut pos = Vec2::new(400_001, 119_599_999);
    let mut prev = Vec2::new(1, 2);
    resolve_wall_collision(&mut pos, &mut prev);
    assert_eq!(pos, Vec2::new(400_001, 119_599_999));
    assert_eq!(prev, Vec2::new(1, 2));
}

#[test]
fn a_bounced_ball_stands_clear_of_every_wall() {
    let starts = [
        Vec2::new(-1_000_000, -1_000_000),
        Vec2::new(0, 0),
        Vec2::new(WIDTH, HEIGHT),
        Vec2::new(i32::MIN, i32::MAX),
        Vec2::new(75_000_000, 60_000_000),
        Vec2::new(400_000, 119_600_000),
    ];
    for start in starts {
        let mut pos = start;
        let mut prev = Vec2::new(12_345, -6_789);
        resolve_wall_collision(&mut pos, &mut prev);
        assert!(pos.x - BALL_SIZE > LEFT_WALL);
        assert!(pos.x + BALL_SIZE < RIGHT_WALL);
        assert!(pos.y - BALL_SIZE > BOTTOM_WALL);
        assert!(pos.y + BALL_SIZE < TOP_WALL);
    }
}

#[test]
fn bounce_all_touches_only_the_listed_balls() {
    let mut pos = vec![Vec2::new(0, 0), Vec2::new(-5, -5), Vec2::new(WIDTH, HEIGHT)];
    let mut prev = pos.clone();
    bounce_all(&mut pos, &mut prev, &vec![2, 0, 2]);
    assert_eq!(pos[0], Vec2::new(400_001, 400_001));
    assert_eq!(pos[1], Vec2::new(-5, -5));
    assert_eq!(pos[2], Vec2::new(149_599_999, 119_599_999));
    assert_eq!(prev[0], Vec2::new(400_001, 400_001));
    assert_eq!(prev[1], Vec2::new(-5, -5));
    assert_eq!(prev[2], Vec2::new(149_599_999, 119_599_999));
}
