use kdbush::{KDBush, Point};

/// A fixed pseudo-random sequence of points with coordinates in `[0, spread)`.
fn cloud(count: usize, spread: i64, seed: u64) -> Vec<Point> {
    let mut state = seed;
    let mut points = Vec::with_capacity(count);
    for _ in 0..count {
        state = state.wrapping_mul(6364136223846793005).wrapping_add(1442695040888963407);
        let x = ((state >> 33) as i64) % spread;
        state = state.wrapping_mul(6364136223846793005).wrapping_add(1442695040888963407);
        let y = ((state >> 33) as i64) % spread;
        points.push([x, y]);
    }
    points
}

fn naive_box(points: &[Point], minx: i64, miny: i64, maxx: i64, maxy: i64) -> Vec<usize> {
    let mut found = Vec::new();
    for (id, p) in points.iter().enumerate() {
        if p[0] >= minx && p[0] <= maxx && p[1] >= miny && p[1] <= maxy {
            found.push(id);
        }
    }
    found
}

fn naive_radius(points: &[Point], qx: i64, qy: i64, r: i64) -> Vec<usize> {
    let mut found = Vec::new();
    if r < 0 {
        return found;
    }
    for (id, p) in points.iter().enumerate() {
        let dx = p[0] as i128 - qx as i128;
        let dy = p[1] as i128 - qy as i128;
        // the squares are only added where both fit well within the type
        let fits = dx.unsigned_abs() <= r as u128 && dy.unsigned_abs() <= r as u128;
        if fits && dx * dx + dy * dy <= r as i128 * r as i128 {
            found.push(id);
        }
    }
    found
}

fn sorted(mut ids: Vec<usize>) -> Vec<usize> {
    ids.sort();
    ids
}

#[test]
fn enclosing_box_reports_every_identifier_once() {
    for (count, threshold, seed) in [(1, 1, 1), (2, 1, 2), (100, 10, 3), (777, 5, 4), (3000, 64, 5)]
    {
        let points = cloud(count, 500, seed);
        let index = KDBush::fill(&points, count, threshold).unwrap();
        let mut found = Vec::new();
        index.range(0, 0, 499, 499, &mut found);
        assert_eq!(sorted(found), (0..count).collect::<Vec<usize>>());
        let mut found = Vec::new();
        index.range(i64::MIN, i64::MIN, i64::MAX, i64::MAX, &mut found);
        assert_eq!(sorted(found), (0..count).collect::<Vec<usize>>());
    }
}

#[test]
fn box_query_equals_a_linear_scan() {
    let boxes = [
        (0, 0, 99, 99),
        (10, 20, 30, 40),
        (50, 0, 50, 99),
        (0, 37, 99, 37),
        (42, 42, 42, 42),
        (60, 60, 40, 40),
        (-50, -50, -1, -1),
        (90, 90, 500, 500),
        (-7, 12, 55, 13),
    ];
    for (count, threshold, seed) in [(1, 1, 9), (13, 1, 10), (100, 10, 11), (1500, 7, 12)] {
        let points = cloud(count, 100, seed);
        let index = KDBush::fill(&points, count, threshold).unwrap();
        for (minx, miny, maxx, maxy) in boxes {
            let mut found = Vec::new();
            index.range(minx, miny, maxx, maxy, &mut found);
            assert_eq!(sorted(found), naive_box(&points, minx, miny, maxx, maxy));
        }
    }
}

#[test]
fn radius_query_equals_a_linear_scan() {
    let discs = [
        (50, 50, 0),
        (50, 50, 1),
        (50, 50, 20),
        (0, 0, 30),
        (99, 0, 45),
        (-20, 50, 25),
        (50, 50, 1000),
        (200, 200, 150),
        (13, 77, 7),
    ];
    for (count, threshold, seed) in [(1, 1, 19), (13, 1, 20), (100, 10, 21), (1500, 7, 22)] {
        let points = cloud(count, 100, seed);
        let index = KDBush::fill(&points, count, threshold).unwrap();
        for (qx, qy, r) in discs {
            let mut found = Vec::new();
            index.within(qx, qy, r, &mut found);
            assert_eq!(sorted(found), naive_radius(&points, qx, qy, r));
        }
    }
}

#[test]
fn inverted_box_reports_nothing() {
    let points = cloud(200, 50, 31);
    let index = KDBush::fill(&points, 200, 4).unwrap();
    let mut found = Vec::new();
    index.range(30, 0, 20, 49, &mut found);
    index.range(0, 30, 49, 20, &mut found);
    index.range(49, 49, 0, 0, &mut found);
    assert!(found.is_empty());
}

#[test]
fn negative_radius_reports_nothing() {
    let points: Vec<Point> = vec![[0, 0], [1, 0], [0, 1], [5, 5], [0, 0]];
    for threshold in [1, 2, 10] {
        let index = KDBush::fill(&points, 5, threshold).unwrap();
        let mut found = Vec::new();
        index.within(0, 0, -1, &mut found);
        index.within(0, 0, -5, &mut found);
        index.within(0, 0, i64::MIN, &mut found);
        index.within_idx(0, 0, -1, &mut found, 0, 4, 0);
        assert!(found.is_empty());
    }
}

#[test]
fn zero_radius_reports_the_points_at_the_centre() {
    let points: Vec<Point> = vec![[3, 4], [3, 5], [3, 4], [4, 4], [2, 4], [3, 3]];
    let index = KDBush::fill(&points, 6, 1).unwrap();
    let mut found = Vec::new();
    index.within(3, 4, 0, &mut found);
    assert_eq!(sorted(found), vec![0, 2]);
    let mut found = Vec::new();
    index.within(0, 0, 0, &mut found);
    assert!(found.is_empty());
}

#[test]
fn box_bounds_are_inclusive() {
    let points: Vec<Point> = vec![[10, 10], [20, 10], [10, 20], [20, 20], [15, 15], [9, 15], [21, 15]];
    for threshold in [1, 2, 10] {
        let index = KDBush::fill(&points, 7, threshold).unwrap();
        let mut found = Vec::new();
        index.range(10, 10, 20, 20, &mut found);
        assert_eq!(sorted(found), vec![0, 1, 2, 3, 4]);
        let mut found = Vec::new();
        index.range(20, 10, 20, 10, &mut found);
        assert_eq!(found, vec![1]);
        let mut found = Vec::new();
        index.range(9, 15, 21, 15, &mut found);
        assert_eq!(sorted(found), vec![4, 5, 6]);
        let mut found = Vec::new();
        index.range(11, 11, 19, 19, &mut found);
        assert_eq!(found, vec![4]);
    }
}

#[test]
fn radius_bound_is_inclusive() {
    // (3, 4) and (-5, 0) lie at distance 5 exactly, (4, 4) just outside
    let points: Vec<Point> = vec![[3, 4], [4, 4], [-5, 0], [0, 5], [0, 6], [5, 1], [0, 0]];
    for threshold in [1, 2, 10] {
        let index = KDBush::fill(&points, 7, threshold).unwrap();
        let mut found = Vec::new();
        index.within(0, 0, 5, &mut found);
        assert_eq!(sorted(found), vec![0, 2, 3, 6]);
        let mut found = Vec::new();
        index.within(0, 0, 4, &mut found);
        assert_eq!(found, vec![6]);
    }
}

#[test]
fn queries_repeat() {
    let points = cloud(400, 200, 41);
    let index = KDBush::fill(&points, 400, 6).unwrap();
    let mut first = Vec::new();
    index.range(20, 30, 120, 170, &mut first);
    let mut between = Vec::new();
    index.within(100, 100, 60, &mut between);
    index.range(0, 0, 10, 10, &mut between);
    let mut second = Vec::new();
    index.range(20, 30, 120, 170, &mut second);
    assert!(!first.is_empty());
    assert_eq!(first, second);
    let mut third = Vec::new();
    index.within(100, 100, 60, &mut third);
    let mut fourth = Vec::new();
    index.within(100, 100, 60, &mut fourth);
    assert!(!third.is_empty());
    assert_eq!(third, fourth);
}

#[test]
fn queries_append_to_what_the_visitor_holds() {
    let points: Vec<Point> = vec![[1, 1], [2, 2], [3, 3]];
    let index = KDBush::fill(&points, 3, 10).unwrap();
    let mut found = vec![77, 78];
    index.range(2, 2, 3, 3, &mut found);
    assert_eq!(found, vec![77, 78, 1, 2]);
    index.within(1, 1, 1, &mut found);
    assert_eq!(found, vec![77, 78, 1, 2, 0]);
    index.within(10, 10, 1, &mut found);
    assert_eq!(found, vec![77, 78, 1, 2, 0]);
}

#[test]
fn leaf_buckets_are_reported_in_the_order_of_the_layout() {
    let points: Vec<Point> = vec![[5, 5], [1, 1], [9, 9], [3, 3], [7, 7]];
    let index = KDBush::fill(&points, 5, 10).unwrap();
    let mut found = Vec::new();
    index.range(2, 2, 9, 9, &mut found);
    assert_eq!(found, vec![0, 2, 3, 4]);
    let mut found = Vec::new();
    index.within(5, 5, 3, &mut found);
    assert_eq!(found, vec![0, 3, 4]);
}

#[test]
fn inner_ranges_report_the_middle_then_left_then_right() {
    let points: Vec<Point> = vec![[30, 0], [10, 0], [20, 0]];
    let index = KDBush::fill(&points, 3, 1).unwrap();
    let mut found = Vec::new();
    index.range(0, 0, 100, 0, &mut found);
    assert_eq!(found, vec![2, 1, 0]);
    let mut found = Vec::new();
    index.within(20, 0, 10, &mut found);
    assert_eq!(found, vec![2, 1, 0]);
    let mut found = Vec::new();
    index.range(25, 0, 100, 0, &mut found);
    assert_eq!(found, vec![0]);
}

#[test]
fn within_idx_searches_the_range_it_is_given() {
    let points = cloud(100, 100, 51);
    let index = KDBush::fill(&points, 100, 10).unwrap();
    // the halves below the root are split along y
    let middle = 49;
    for (left, right) in [(0, middle - 1), (middle + 1, 99)] {
        let mut found = Vec::new();
        index.within_idx(50, 50, 30, &mut found, left, right, 1);
        let mut expected = Vec::new();
        for i in left..=right {
            let p = index.points()[i];
            if (p[0] - 50) * (p[0] - 50) + (p[1] - 50) * (p[1] - 50) <= 900 {
                expected.push(index.ids()[i]);
            }
        }
        assert_eq!(sorted(found), sorted(expected));
    }
    let mut whole = Vec::new();
    index.within_idx(50, 50, 30, &mut whole, 0, 99, 0);
    let mut same = Vec::new();
    index.within(50, 50, 30, &mut same);
    assert_eq!(whole, same);
}

#[test]
fn within_idx_scans_a_leaf_bucket() {
    let points: Vec<Point> = vec![[0, 0], [1, 0], [2, 0], [3, 0], [4, 0], [5, 0]];
    let index = KDBush::fill(&points, 6, 10).unwrap();
    let mut found = Vec::new();
    index.within_idx(3, 0, 1, &mut found, 1, 3, 0);
    assert_eq!(found, vec![2, 3]);
    let mut found = Vec::new();
    index.within_idx(3, 0, 1, &mut found, 4, 4, 1);
    assert_eq!(found, vec![4]);
}

#[test]
fn radius_query_stands_the_extremes_of_the_coordinates() {
    let points: Vec<Point> = vec![
        [i64::MAX, i64::MAX],
        [i64::MIN, i64::MIN],
        [i64::MAX, i64::MIN],
        [0, 0],
        [i64::MIN, i64::MAX],
        [i64::MAX, 0],
    ];
    for threshold in [1, 10] {
        let index = KDBush::fill(&points, 6, threshold).unwrap();
        let mut found = Vec::new();
        index.within(i64::MIN, i64::MIN, i64::MAX, &mut found);
        assert_eq!(found, vec![1]);
        let mut found = Vec::new();
        index.within(0, 0, i64::MAX, &mut found);
        assert_eq!(sorted(found), vec![3, 5]);
        let mut found = Vec::new();
        index.within(i64::MAX, i64::MAX, i64::MAX, &mut found);
        assert_eq!(sorted(found), vec![0, 5]);
        let mut found = Vec::new();
        index.within(i64::MAX, i64::MIN, 0, &mut found);
        assert_eq!(found, vec![2]);
        let mut found = Vec::new();
        index.range(i64::MIN, i64::MIN, i64::MIN, i64::MAX, &mut found);
        assert_eq!(sorted(found), vec![1, 4]);
    }
}
