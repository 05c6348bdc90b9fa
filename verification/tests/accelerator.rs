use query_accel::vecn::VecN;
use query_accel::{quantize, within, AccelError, Occupancy, QueryAccelerator};

fn brute_force<const D: usize>(
    points: &[VecN<D, i32>],
    query_idx: usize,
    q: VecN<D, i32>,
    radius: i64,
) -> Vec<usize> {
    let mut out = Vec::new();
    for (j, p) in points.iter().enumerate() {
        let mut sum: i64 = 0;
        for axis in 0..D {
            let gap = p.0[axis] as i64 - q.0[axis] as i64;
            sum += gap * gap;
        }
        if j != query_idx && sum <= radius * radius {
            out.push(j);
        }
    }
    out
}

fn sorted(mut v: Vec<usize>) -> Vec<usize> {
    v.sort();
    v
}

fn scattered<const D: usize>(count: usize, spread: i32, seed: u64) -> Vec<VecN<D, i32>> {
    let mut state = seed;
    let mut points = Vec::new();
    for _ in 0..count {
        let mut p = [0i32; D];
        for axis in 0..D {
            state = state.wrapping_mul(6364136223846793005).wrapping_add(1442695040888963407);
            p[axis] = ((state >> 33) % (2 * spread as u64 + 1)) as i32 - spread;
        }
        points.push(VecN(p));
    }
    points
}

#[test]
fn three_points_scenario() {
    let mut points: Vec<VecN<2, i32>> = vec![VecN([0, 0]), VecN([5, 0]), VecN([20, 20])];
    let mut acc = QueryAccelerator::new(&points, 10).unwrap();
    assert_eq!(acc.query_neighbors(&points, 0, VecN([0, 0])), vec![1]);
    assert_eq!(acc.query_neighbors_fast(0, VecN([0, 0])), vec![1]);
    assert_eq!(acc.replace_point(2, VecN([20, 20]), VecN([4, 0])), Ok(()));
    points[2] = VecN([4, 0]);
    assert_eq!(acc.query_neighbors(&points, 0, VecN([0, 0])), vec![1, 2]);
}

#[test]
fn radius_must_be_positive() {
    let points: Vec<VecN<2, i32>> = vec![VecN([0, 0])];
    assert!(matches!(QueryAccelerator::new(&points, 0), Err(AccelError::InvalidRadius)));
    assert!(matches!(QueryAccelerator::new(&points, -3), Err(AccelError::InvalidRadius)));
    assert!(matches!(QueryAccelerator::new(&points, i32::MIN), Err(AccelError::InvalidRadius)));
    assert!(QueryAccelerator::new(&points, 1).is_ok());
}

#[test]
fn results_come_cell_by_cell_then_oldest_first() {
    let points: Vec<VecN<2, i32>> =
        vec![VecN([15, 5]), VecN([5, 5]), VecN([-5, -5]), VecN([5, 15]), VecN([6, 16])];
    let acc = QueryAccelerator::new(&points, 10).unwrap();
    assert_eq!(acc.query_neighbors_fast(1, VecN([5, 5])), vec![2, 0, 3, 4]);
    assert_eq!(acc.query_neighbors_fast(usize::MAX, VecN([5, 5])), vec![2, 1, 0, 3, 4]);
}

#[test]
fn the_radius_itself_is_within_reach() {
    let points: Vec<VecN<2, i32>> =
        vec![VecN([15, 5]), VecN([5, 5]), VecN([-5, -5]), VecN([5, 15]), VecN([5, 16])];
    let acc = QueryAccelerator::new(&points, 10).unwrap();
    assert_eq!(acc.query_neighbors(&points, 1, VecN([5, 5])), vec![0, 3]);
}

#[test]
fn the_querying_index_is_left_out_even_elsewhere() {
    let points: Vec<VecN<1, i32>> = vec![VecN([0]), VecN([1]), VecN([2])];
    let acc = QueryAccelerator::new(&points, 5).unwrap();
    assert_eq!(acc.query_neighbors(&points, 1, VecN([0])), vec![0, 2]);
    assert_eq!(acc.query_neighbors(&points, 7, VecN([0])), vec![0, 1, 2]);
}

#[test]
fn exact_query_matches_a_scan_of_all_points() {
    let points = scattered::<2>(300, 60, 7);
    let acc = QueryAccelerator::new(&points, 9).unwrap();
    for (i, p) in points.iter().enumerate() {
        let got = acc.query_neighbors(&points, i, *p);
        assert_eq!(sorted(got.clone()), brute_force(&points, i, *p, 9));
        let mut once = sorted(got);
        once.dedup();
        assert_eq!(once.len(), brute_force(&points, i, *p, 9).len());
    }
    let elsewhere = VecN([1000, -1000]);
    assert_eq!(acc.query_neighbors(&points, 0, elsewhere), Vec::<usize>::new());
}

#[test]
fn exact_query_matches_a_scan_in_three_dimensions() {
    let points = scattered::<3>(200, 20, 99);
    let acc = QueryAccelerator::new(&points, 7).unwrap();
    for (i, p) in points.iter().enumerate() {
        assert_eq!(sorted(acc.query_neighbors(&points, i, *p)), brute_force(&points, i, *p, 7));
    }
    let q = VecN([3, -4, 5]);
    assert_eq!(sorted(acc.query_neighbors(&points, 200, q)), brute_force(&points, 200, q, 7));
}

#[test]
fn fast_query_holds_all_of_the_exact_query() {
    let points = scattered::<2>(200, 40, 3);
    let acc = QueryAccelerator::new(&points, 6).unwrap();
    for (i, p) in points.iter().enumerate() {
        let fast = acc.query_neighbors_fast(i, *p);
        for j in acc.query_neighbors(&points, i, *p) {
            assert!(fast.contains(&j));
        }
        assert!(!fast.contains(&i));
    }
}

#[test]
fn fast_query_may_reach_beyond_the_radius() {
    let points: Vec<VecN<2, i32>> = vec![VecN([0, 0]), VecN([19, 19])];
    let acc = QueryAccelerator::new(&points, 10).unwrap();
    assert_eq!(acc.query_neighbors_fast(0, VecN([0, 0])), vec![1]);
    assert_eq!(acc.query_neighbors(&points, 0, VecN([0, 0])), Vec::<usize>::new());
}

#[test]
fn neighbors_see_each_other() {
    let points = scattered::<2>(150, 30, 11);
    let acc = QueryAccelerator::new(&points, 8).unwrap();
    for a in 0..points.len() {
        for b in acc.query_neighbors(&points, a, points[a]) {
            assert!(acc.query_neighbors(&points, b, points[b]).contains(&a));
        }
    }
}

#[test]
fn moving_points_keeps_queries_right() {
    let mut points = scattered::<2>(120, 50, 5);
    let targets = scattered::<2>(120, 50, 6);
    let mut acc = QueryAccelerator::new(&points, 10).unwrap();
    for i in 0..points.len() {
        assert_eq!(acc.replace_point(i, points[i], targets[i]), Ok(()));
        points[i] = targets[i];
        let probe = (i * 7) % points.len();
        assert_eq!(
            sorted(acc.query_neighbors(&points, probe, points[probe])),
            brute_force(&points, probe, points[probe], 10)
        );
    }
    for i in 0..points.len() {
        assert_eq!(
            sorted(acc.query_neighbors(&points, i, points[i])),
            brute_force(&points, i, points[i], 10)
        );
    }
}

#[test]
fn a_move_within_one_cell_goes_to_the_end_of_the_bucket() {
    let points: Vec<VecN<2, i32>> = vec![VecN([1, 1]), VecN([2, 2]), VecN([3, 3])];
    let mut acc = QueryAccelerator::new(&points, 10).unwrap();
    assert_eq!(acc.query_neighbors_fast(9, VecN([0, 0])), vec![0, 1, 2]);
    assert_eq!(acc.replace_point(0, VecN([1, 1]), VecN([4, 4])), Ok(()));
    assert_eq!(acc.query_neighbors_fast(9, VecN([0, 0])), vec![1, 2, 0]);
}

#[test]
fn a_move_from_the_wrong_cell_is_refused() {
    let points: Vec<VecN<2, i32>> = vec![VecN([0, 0]), VecN([5, 0]), VecN([20, 20])];
    let mut acc = QueryAccelerator::new(&points, 10).unwrap();
    assert_eq!(acc.replace_point(2, VecN([0, 0]), VecN([1, 1])), Err(AccelError::NotInCell));
    assert_eq!(acc.replace_point(2, VecN([90, 90]), VecN([1, 1])), Err(AccelError::NotInCell));
    assert_eq!(acc.replace_point(3, VecN([0, 0]), VecN([1, 1])), Err(AccelError::NotInCell));
    assert_eq!(acc.query_neighbors_fast(9, VecN([0, 0])), vec![0, 1]);
    assert_eq!(acc.query_neighbors_fast(9, VecN([20, 20])), vec![2]);
    assert_eq!(acc.stats(), Occupancy { points: 3, cells: 2, largest: 2 });
    assert_eq!(acc.replace_point(2, VecN([29, 21]), VecN([1, 1])), Ok(()));
    assert_eq!(acc.query_neighbors_fast(9, VecN([0, 0])), vec![0, 1, 2]);
}

#[test]
fn stats_count_points_buckets_and_the_fullest_bucket() {
    let points: Vec<VecN<2, i32>> = vec![VecN([0, 0]), VecN([5, 0]), VecN([20, 20])];
    let mut acc = QueryAccelerator::new(&points, 10).unwrap();
    assert_eq!(acc.stats(), Occupancy { points: 3, cells: 2, largest: 2 });
    assert_eq!(acc.replace_point(2, VecN([20, 20]), VecN([4, 0])), Ok(()));
    assert_eq!(acc.stats(), Occupancy { points: 3, cells: 2, largest: 3 });
    assert_eq!(acc.replace_point(0, VecN([0, 0]), VecN([-1, -1])), Ok(()));
    assert_eq!(acc.stats(), Occupancy { points: 3, cells: 3, largest: 2 });
}

#[test]
fn stats_of_no_points() {
    let points: Vec<VecN<3, i32>> = Vec::new();
    let acc = QueryAccelerator::new(&points, 4).unwrap();
    assert_eq!(acc.stats(), Occupancy { points: 0, cells: 0, largest: 0 });
    assert_eq!(acc.query_neighbors(&points, 0, VecN([0, 0, 0])), Vec::<usize>::new());
}

#[test]
fn cells_at_the_edge_of_the_key_range() {
    let points: Vec<VecN<2, i32>> = vec![
        VecN([i32::MAX, i32::MAX]),
        VecN([i32::MAX - 1, i32::MAX]),
        VecN([i32::MIN, i32::MIN]),
        VecN([i32::MIN + 1, i32::MIN]),
        VecN([i32::MAX - 1, i32::MAX - 1]),
    ];
    let acc = QueryAccelerator::new(&points, 1).unwrap();
    assert_eq!(acc.query_neighbors(&points, 0, points[0]), vec![1]);
    assert_eq!(acc.query_neighbors_fast(0, points[0]), vec![4, 1]);
    assert_eq!(acc.query_neighbors(&points, 2, points[2]), vec![3]);
    assert_eq!(acc.query_neighbors(&points, 9, VecN([0, 0])), Vec::<usize>::new());
}

#[test]
fn a_space_without_axes_is_one_cell() {
    let points: Vec<VecN<0, i32>> = vec![VecN([]), VecN([]), VecN([])];
    let acc = QueryAccelerator::new(&points, 2).unwrap();
    assert_eq!(acc.query_neighbors(&points, 1, VecN([])), vec![0, 2]);
    assert_eq!(acc.stats(), Occupancy { points: 3, cells: 1, largest: 3 });
}

#[test]
fn quantize_rounds_down() {
    let cell = quantize(VecN([-1, 19, -20, 20, 0, -21]), 10);
    assert_eq!(cell, VecN([-1, 1, -2, 2, 0, -3]));
    assert_eq!(quantize(VecN([i32::MIN, i32::MAX]), 1), VecN([i32::MIN, i32::MAX]));
    assert_eq!(quantize(VecN([i32::MIN, i32::MAX]), i32::MAX), VecN([-2, 1]));
    assert_eq!(quantize(VecN([7, -7]), 7), VecN([1, -1]));
}

#[test]
fn within_compares_the_squared_distance() {
    let a: VecN<2, i32> = VecN([0, 0]);
    assert!(within(&a, &VecN([3, 4]), 25));
    assert!(!within(&a, &VecN([3, 4]), 24));
    assert!(within(&a, &a, 0));
    let low: VecN<3, i32> = VecN([i32::MIN, i32::MIN, i32::MIN]);
    let high: VecN<3, i32> = VecN([i32::MAX, i32::MAX, i32::MAX]);
    assert!(!within(&low, &high, u64::MAX));
    let far: VecN<1, i32> = VecN([i32::MAX]);
    let near: VecN<1, i32> = VecN([i32::MIN]);
    assert!(within(&far, &near, 4294967295 * 4294967295));
    assert!(!within(&far, &near, 4294967295 * 4294967295 - 1));
}
