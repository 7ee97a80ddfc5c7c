use ballz::constants::{CELL_COUNT, GRID_SIZE, HEIGHT, WIDTH, X_LEN, Y_LEN};
use ballz::grid::{cell_current, cell_of, gather, rebuild};
use ballz::relax::{relax_cell, relax_cells, visit_all};
use ballz::vector::Vec2;

fn table_of(pos: &Vec<Vec2>) -> Vec<Vec<usize>> {
    let mut table = vec![vec![99, 98, 97]; CELL_COUNT];
    rebuild(&mut table, pos);
    table
}

#[test]
fn the_grid_covers_the_domain() {
    assert_eq!(X_LEN as i32 * GRID_SIZE, WIDTH);
    assert_eq!(Y_LEN as i32 * GRID_SIZE, HEIGHT);
    assert_eq!(X_LEN * Y_LEN, CELL_COUNT);
}

#[test]
fn cells_count_row_by_row() {
    assert_eq!(cell_of(Vec2::new(0, 0)), 0);
    assert_eq!(cell_of(Vec2::new(999_999, 999_999)), 0);
    assert_eq!(cell_of(Vec2::new(1_000_000, 0)), 1);
    assert_eq!(cell_of(Vec2::new(0, 1_000_000)), 150);
    assert_eq!(cell_of(Vec2::new(75_500_000, 60_500_000)), 60 * 150 + 75);
    assert_eq!(cell_of(Vec2::new(WIDTH - 1, HEIGHT - 1)), 17_999);
}

#[test]
fn cells_clamp_what_lies_outside() {
    assert_eq!(cell_of(Vec2::new(-1, -1)), 0);
    assert_eq!(cell_of(Vec2::new(i32::MIN, i32::MIN)), 0);
    assert_eq!(cell_of(Vec2::new(WIDTH, HEIGHT)), 17_999);
    assert_eq!(cell_of(Vec2::new(i32::MAX, i32::MAX)), 17_999);
    assert_eq!(cell_of(Vec2::new(i32::MAX, -1)), 149);
    assert_eq!(cell_of(Vec2::new(-1, i32::MAX)), 119 * 150);
}

#[test]
fn rebuild_puts_each_ball_in_one_bucket_in_rising_order() {
    let pos = vec![
        Vec2::new(1_500_000, 500_000),
        Vec2::new(500_000, 500_000),
        Vec2::new(1_200_000, 700_000),
        Vec2::new(-3, 0),
        Vec2::new(i32::MAX, i32::MAX),
    ];
    let table = table_of(&pos);
    assert_eq!(table.len(), CELL_COUNT);
    assert_eq!(table[0], vec![1, 3]);
    assert_eq!(table[1], vec![0, 2]);
    assert_eq!(table[17_999], vec![4]);
    let held: usize = table.iter().map(|b| b.len()).sum();
    assert_eq!(held, pos.len());
}

#[test]
fn a_cell_hands_out_its_own_bucket() {
    let pos = vec![
        Vec2::new(1_500_000, 2_500_000),
        Vec2::new(500_000, 500_000),
        Vec2::new(1_200_000, 2_700_000),
    ];
    let table = table_of(&pos);
    assert_eq!(cell_current(&table, 1, 2), &vec![0, 2]);
    assert_eq!(cell_current(&table, 0, 0), &vec![1]);
    assert!(cell_current(&table, 2, 1).is_empty());
    assert!(cell_current(&table, X_LEN - 1, Y_LEN - 1).is_empty());
}

#[test]
fn rebuild_forgets_what_the_buckets_held() {
    let table = table_of(&Vec::new());
    assert!(table.iter().all(|b| b.is_empty()));
}

#[test]
fn an_inner_cell_has_eight_neighbours_row_by_row() {
    let mut pos = Vec::new();
    for dy in [-1, 0, 1] {
        for dx in [-1, 0, 1] {
            pos.push(Vec2::new((75 + dx) * GRID_SIZE + 5, (60 + dy) * GRID_SIZE + 5));
        }
    }
    let table = table_of(&pos);
    let mut others = vec![42];
    gather(&table, 75, 60, &mut others);
    assert_eq!(others, vec![0, 1, 2, 3, 5, 6, 7, 8]);
}

#[test]
fn a_corner_cell_scans_itself_again() {
    let pos = vec![
        Vec2::new(500_000, 500_000),
        Vec2::new(1_500_000, 500_000),
        Vec2::new(500_000, 1_500_000),
        Vec2::new(1_500_000, 1_500_000),
    ];
    let table = table_of(&pos);
    let mut others = Vec::new();
    gather(&table, 0, 0, &mut others);
    assert_eq!(others, vec![0, 0, 1, 0, 1, 2, 2, 3]);
}

#[test]
fn the_far_corner_cell_scans_itself_again() {
    let pos = vec![
        Vec2::new(WIDTH - 5, HEIGHT - 5),
        Vec2::new(WIDTH - GRID_SIZE - 5, HEIGHT - 5),
        Vec2::new(WIDTH - 5, HEIGHT - GRID_SIZE - 5),
        Vec2::new(WIDTH - GRID_SIZE - 5, HEIGHT - GRID_SIZE - 5),
    ];
    let table = table_of(&pos);
    let mut others = Vec::new();
    gather(&table, X_LEN - 1, Y_LEN - 1, &mut others);
    assert_eq!(others, vec![3, 2, 2, 1, 0, 1, 0, 0]);
}

#[test]
fn an_edge_cell_scans_its_row_twice() {
    let pos = vec![
        Vec2::new(5 * GRID_SIZE + 5, 5),
        Vec2::new(6 * GRID_SIZE + 5, 5),
        Vec2::new(7 * GRID_SIZE + 5, 5),
        Vec2::new(6 * GRID_SIZE + 5, GRID_SIZE + 5),
    ];
    let table = table_of(&pos);
    let mut others = Vec::new();
    gather(&table, 6, 0, &mut others);
    assert_eq!(others, vec![0, 1, 2, 0, 2, 3]);
}

#[test]
fn visits_run_from_the_given_place_on() {
    let mut pos = vec![Vec2::new(0, 400_000), Vec2::new(0, 0), Vec2::new(0, 900_000)];
    let mut acc = vec![Vec2::zero(); 3];
    let at = pos[0];
    visit_all(&mut pos, &mut acc, at, 0, &vec![2, 1, 2], 1, 0, true);
    assert_eq!(pos[1], Vec2::new(0, -150_000));
    assert_eq!(pos[0], Vec2::new(0, 550_000 - 112_500));
    assert_eq!(pos[2], Vec2::new(0, 900_000 + 112_500));
}

#[test]
fn a_cell_pairs_its_balls_with_each_other_once() {
    let mut pos = vec![Vec2::new(0, 400_000), Vec2::new(0, 0)];
    let mut acc = vec![Vec2::zero(); 2];
    relax_cell(&mut pos, &mut acc, &vec![0, 1], &Vec::new(), 0);
    assert_eq!(pos, vec![Vec2::new(0, 550_000), Vec2::new(0, -150_000)]);
}

#[test]
fn a_cell_pairs_each_of_its_balls_with_all_around_it() {
    let mut pos = vec![Vec2::new(0, 400_000), Vec2::new(0, 0)];
    let mut acc = vec![Vec2::zero(); 2];
    relax_cell(&mut pos, &mut acc, &vec![0], &vec![1, 1], 0);
    assert_eq!(pos, vec![Vec2::new(0, 550_000 + 93_750), Vec2::new(0, -150_000 - 93_750)]);
}

#[test]
fn visits_of_one_kind_share_the_force_alike() {
    let start = vec![Vec2::new(0, 0), Vec2::new(1_000_000, 0), Vec2::new(0, 2_000_000)];
    let mut pos = start.clone();
    let mut acc = vec![Vec2::zero(); 3];
    visit_all(&mut pos, &mut acc, start[0], 0, &vec![1, 2], 0, 200_000_000, true);
    assert_eq!(pos, start);
    assert_eq!(acc, vec![Vec2::new(-250_000, -62_500), Vec2::new(250_000, 0), Vec2::new(0, 62_500)]);
    let mut acc = vec![Vec2::zero(); 3];
    visit_all(&mut pos, &mut acc, start[0], 0, &vec![1, 2], 0, 200_000_000, false);
    assert_eq!(pos, start);
    assert_eq!(acc, vec![Vec2::new(-250_000, -62_500), Vec2::zero(), Vec2::zero()]);
}

#[test]
fn a_cell_shares_force_both_ways_within_and_one_way_across() {
    let start = vec![Vec2::new(0, 0), Vec2::new(1_000_000, 0), Vec2::new(0, 2_000_000)];
    let mut pos = start.clone();
    let mut acc = vec![Vec2::zero(); 3];
    relax_cell(&mut pos, &mut acc, &vec![0, 1], &vec![2], 200_000_000);
    assert_eq!(pos, start);
    assert_eq!(acc[0], Vec2::new(-250_000, -62_500));
    assert_eq!(acc[1], Vec2::new(250_000 + 22_360, -44_721));
    assert_eq!(acc[2], Vec2::zero());
}

#[test]
fn cells_are_relaxed_in_rising_order() {
    let mut pos = vec![Vec2::new(75_500_000, 60_500_000), Vec2::new(76_500_000, 60_500_000)];
    let mut acc = vec![Vec2::zero(); 2];
    let table = table_of(&pos);
    let mut others = Vec::new();
    relax_cells(&mut pos, &mut acc, &table, &mut others, 200_000_000);
    assert_eq!(pos, vec![Vec2::new(75_500_000, 60_500_000), Vec2::new(76_500_000, 60_500_000)]);
    assert_eq!(acc, vec![Vec2::new(-250_000, 0), Vec2::new(250_000, 0)]);
}
