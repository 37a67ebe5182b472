use kdbush::layout::{key_of, swap_item};
use kdbush::roots::{floor_cbrt, floor_log2, floor_sqrt};
use kdbush::sample::sample_window;
use kdbush::select::{partition, select};
use kdbush::tree::sort_kd;
use kdbush::Point;

fn shuffled(count: usize, spread: i64, seed: u64) -> (Vec<usize>, Vec<Point>) {
    let mut state = seed;
    let mut points = Vec::with_capacity(count);
    for _ in 0..count {
        state = state.wrapping_mul(6364136223846793005).wrapping_add(1442695040888963407);
        let x = ((state >> 33) as i64) % spread;
        state = state.wrapping_mul(6364136223846793005).wrapping_add(1442695040888963407);
        let y = ((state >> 33) as i64) % spread;
        points.push([x, y]);
    }
    ((0..count).collect(), points)
}

/// Checks what `select` promises for `[left, right]` and `k`, against a full sort.
fn selected(
    before: &[Point],
    ids: &[usize],
    points: &[Point],
    k: usize,
    left: usize,
    right: usize,
    axis: usize,
) -> bool {
    let mut keys: Vec<i64> = before[left..=right].iter().map(|p| p[axis]).collect();
    keys.sort();
    let mut now: Vec<Point> = points[left..=right].to_vec();
    let mut then: Vec<Point> = before[left..=right].to_vec();
    now.sort();
    then.sort();
    points[k][axis] == keys[k - left]
        && (left..k).all(|i| points[i][axis] <= points[k][axis])
        && (k + 1..=right).all(|i| points[i][axis] >= points[k][axis])
        && now == then
        && (0..points.len()).all(|i| points[i] == before[ids[i]])
        && (0..left).all(|i| ids[i] == i)
        && (right + 1..points.len()).all(|i| ids[i] == i)
}

#[test]
fn swap_item_exchanges_both_arrays() {
    let mut ids = vec![0, 1, 2, 3];
    let mut points: Vec<Point> = vec![[0, 0], [1, 10], [2, 20], [3, 30]];
    swap_item(&mut ids, &mut points, 1, 3);
    assert_eq!(ids, vec![0, 3, 2, 1]);
    assert_eq!(points, vec![[0, 0], [3, 30], [2, 20], [1, 10]]);
    swap_item(&mut ids, &mut points, 2, 2);
    assert_eq!(ids, vec![0, 3, 2, 1]);
    assert_eq!(points, vec![[0, 0], [3, 30], [2, 20], [1, 10]]);
}

#[test]
fn key_of_reads_the_axis() {
    assert_eq!(key_of(&[3, -4], 0), 3);
    assert_eq!(key_of(&[3, -4], 1), -4);
}

#[test]
fn partition_settles_the_pivot() {
    let mut ids = vec![0, 1, 2, 3, 4, 5, 6];
    let mut points: Vec<Point> = vec![[50, 0], [10, 1], [40, 2], [20, 3], [30, 4], [60, 5], [5, 6]];
    let before = points.clone();
    let settled = partition(&mut ids, &mut points, 3, 0, 6, 0);
    // the pivot 20 has two smaller keys beside it
    assert_eq!(settled, 2);
    assert_eq!(points[2], [20, 3]);
    assert_eq!(ids[2], 3);
    assert!((0..2).all(|i| points[i][0] <= 20));
    assert!((3..7).all(|i| points[i][0] >= 20));
    assert!((0..7).all(|i| points[i] == before[ids[i]]));
    let mut seen = ids.clone();
    seen.sort();
    assert_eq!(seen, vec![0, 1, 2, 3, 4, 5, 6]);
}

#[test]
fn partition_settles_the_pivot_within_its_range() {
    let mut ids = vec![0, 1, 2, 3, 4, 5];
    let mut points: Vec<Point> = vec![[0, 9], [0, 3], [0, 7], [0, 1], [0, 5], [0, 0]];
    let settled = partition(&mut ids, &mut points, 2, 1, 4, 1);
    // of 3, 7, 1, 5 the pivot 7 is the largest
    assert_eq!(settled, 4);
    assert_eq!(points[4], [0, 7]);
    assert_eq!(points[0], [0, 9]);
    assert_eq!(points[5], [0, 0]);
    assert!((1..4).all(|i| points[i][1] <= 7));
}

#[test]
fn partition_of_equal_keys_settles_inside() {
    let mut ids: Vec<usize> = (0..10).collect();
    let mut points: Vec<Point> = vec![[4, 4]; 10];
    let settled = partition(&mut ids, &mut points, 0, 0, 9, 0);
    assert!(settled <= 9);
    let mut seen = ids.clone();
    seen.sort();
    assert_eq!(seen, (0..10).collect::<Vec<usize>>());
}

#[test]
fn select_places_the_median() {
    let mut ids = vec![0, 1, 2, 3, 4];
    let mut points: Vec<Point> = vec![[50, 0], [10, 1], [40, 2], [20, 3], [30, 4]];
    select(&mut ids, &mut points, 2, 0, 4, 0);
    assert_eq!(points[2], [30, 4]);
    assert_eq!(ids[2], 4);
    assert!(points[0][0] <= 30 && points[1][0] <= 30);
    assert!(points[3][0] >= 30 && points[4][0] >= 30);
}

#[test]
fn select_places_every_rank() {
    for axis in [0, 1] {
        for count in [1, 2, 3, 7, 50] {
            for k in 0..count {
                let (mut ids, mut points) = shuffled(count, 20, 100 + count as u64);
                let before = points.clone();
                select(&mut ids, &mut points, k, 0, count - 1, axis);
                assert!(selected(&before, &ids, &points, k, 0, count - 1, axis));
            }
        }
    }
}

#[test]
fn select_places_the_first_and_the_last_rank() {
    let (mut ids, mut points) = shuffled(2, 1000, 5);
    let before = points.clone();
    select(&mut ids, &mut points, 0, 0, 1, 0);
    assert!(selected(&before, &ids, &points, 0, 0, 1, 0));
    let (mut ids, mut points) = shuffled(300, 1000, 6);
    let before = points.clone();
    select(&mut ids, &mut points, 0, 0, 299, 1);
    assert!(selected(&before, &ids, &points, 0, 0, 299, 1));
    select(&mut ids, &mut points, 299, 0, 299, 1);
    assert!(selected(&before, &ids, &points, 299, 0, 299, 1));
}

#[test]
fn select_leaves_the_rest_of_the_arrays_alone() {
    let (mut ids, mut points) = shuffled(40, 100, 7);
    let before = points.clone();
    select(&mut ids, &mut points, 17, 10, 29, 0);
    assert!(selected(&before, &ids, &points, 17, 10, 29, 0));
    select(&mut ids, &mut points, 12, 12, 12, 1);
    assert!(selected(&before, &ids, &points, 17, 10, 29, 0));
}

#[test]
fn select_places_ranks_among_equal_keys() {
    for k in [0, 1, 250, 498, 499] {
        let (mut ids, mut points) = shuffled(500, 3, 8);
        let before = points.clone();
        select(&mut ids, &mut points, k, 0, 499, 0);
        assert!(selected(&before, &ids, &points, k, 0, 499, 0));
    }
    let mut ids: Vec<usize> = (0..100).collect();
    let mut points: Vec<Point> = vec![[1, 1]; 100];
    let before = points.clone();
    select(&mut ids, &mut points, 50, 0, 99, 0);
    assert!(selected(&before, &ids, &points, 50, 0, 99, 0));
}

#[test]
fn select_places_ranks_in_long_ranges() {
    for (count, k) in [(601, 300), (602, 0), (602, 601), (5000, 2500), (5000, 17), (30000, 29000)] {
        for axis in [0, 1] {
            let (mut ids, mut points) = shuffled(count, 100_000, 9 + k as u64);
            let before = points.clone();
            select(&mut ids, &mut points, k, 0, count - 1, axis);
            assert!(selected(&before, &ids, &points, k, 0, count - 1, axis));
        }
    }
}

#[test]
fn select_places_ranks_in_long_sorted_ranges() {
    let mut ids: Vec<usize> = (0..4000).collect();
    let mut points: Vec<Point> = (0..4000).map(|i| [i as i64, 4000 - i as i64]).collect();
    let before = points.clone();
    select(&mut ids, &mut points, 1234, 0, 3999, 0);
    assert!(selected(&before, &ids, &points, 1234, 0, 3999, 0));
    assert_eq!(points[1234], [1234, 2766]);
    select(&mut ids, &mut points, 1234, 0, 3999, 1);
    assert_eq!(points[1234], [2765, 1235]);
}

#[test]
fn sort_kd_lays_out_a_part_of_the_arrays() {
    let (mut ids, mut points) = shuffled(60, 100, 10);
    let before = points.clone();
    sort_kd(&mut ids, &mut points, 4, 20, 49, 1);
    for i in 0..20 {
        assert_eq!(ids[i], i);
    }
    for i in 50..60 {
        assert_eq!(ids[i], i);
    }
    for i in 0..60 {
        assert_eq!(points[i], before[ids[i]]);
    }
    let m = (20 + 49) / 2;
    assert!((20..m).all(|i| points[i][1] <= points[m][1]));
    assert!((m + 1..50).all(|i| points[i][1] >= points[m][1]));
    let lower = (20 + m - 1) / 2;
    assert!((20..lower).all(|i| points[i][0] <= points[lower][0]));
    assert!((lower + 1..m).all(|i| points[i][0] >= points[lower][0]));
}

#[test]
fn floor_sqrt_rounds_down() {
    assert_eq!(floor_sqrt(0), 0);
    assert_eq!(floor_sqrt(1), 1);
    assert_eq!(floor_sqrt(3), 1);
    assert_eq!(floor_sqrt(4), 2);
    assert_eq!(floor_sqrt(15), 3);
    assert_eq!(floor_sqrt(16), 4);
    assert_eq!(floor_sqrt(17), 4);
    assert_eq!(floor_sqrt(299), 17);
    assert_eq!(floor_sqrt(1_000_000_000_000), 1_000_000);
    assert_eq!(floor_sqrt(999_999_999_999), 999_999);
    assert_eq!(floor_sqrt(u128::MAX), 18446744073709551615);
}

#[test]
fn floor_cbrt_rounds_down() {
    assert_eq!(floor_cbrt(0), 0);
    assert_eq!(floor_cbrt(1), 1);
    assert_eq!(floor_cbrt(7), 1);
    assert_eq!(floor_cbrt(8), 2);
    assert_eq!(floor_cbrt(26), 2);
    assert_eq!(floor_cbrt(27), 3);
    assert_eq!(floor_cbrt(1_000_000), 100);
    assert_eq!(floor_cbrt(999_999), 99);
    assert_eq!(floor_cbrt(1_000_000_000_000_000_000), 1_000_000);
    assert_eq!(floor_cbrt(u128::MAX), 6981463658331);
}

#[test]
fn floor_log2_rounds_down() {
    assert_eq!(floor_log2(1), 0);
    assert_eq!(floor_log2(2), 1);
    assert_eq!(floor_log2(3), 1);
    assert_eq!(floor_log2(4), 2);
    assert_eq!(floor_log2(1000), 9);
    assert_eq!(floor_log2(1023), 9);
    assert_eq!(floor_log2(1024), 10);
    assert_eq!(floor_log2(u128::MAX), 127);
}

#[test]
fn sample_window_surrounds_the_position() {
    // a thousand positions: width 50, deviation 8
    assert_eq!(sample_window(500, 0, 999), (483, 533));
    assert_eq!(sample_window(499, 0, 999), (482, 532));
    assert_eq!(sample_window(498, 0, 999), (466, 516));
    assert_eq!(sample_window(10, 0, 999), (2, 52));
    assert_eq!(sample_window(3, 0, 999), (0, 45));
    assert_eq!(sample_window(995, 0, 999), (954, 999));
    assert_eq!(sample_window(1500, 1000, 1999), (1483, 1533));
}

#[test]
fn sample_window_of_the_shortest_long_range() {
    // 601 positions: the cube root of 601 * 601 is 71, the width 35;
    // 7 * 9 * 35 * 566 / 6010 = 207, its root 14, the deviation 7
    assert_eq!(sample_window(300, 0, 600), (290, 325));
    assert_eq!(sample_window(299, 0, 600), (275, 310));
    assert_eq!(sample_window(0, 0, 600), (0, 28));
    assert_eq!(sample_window(600, 0, 600), (572, 600));
}
