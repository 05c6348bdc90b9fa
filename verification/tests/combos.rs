use query_accel::vecn::VecN;
use query_accel::{combos, neighborhood};

#[test]
fn combos_count_with_the_first_axis_fastest() {
    let all: Vec<VecN<2, i32>> = combos(-1, 1, 1);
    let expected: Vec<VecN<2, i32>> = vec![
        VecN([-1, -1]),
        VecN([0, -1]),
        VecN([1, -1]),
        VecN([-1, 0]),
        VecN([0, 0]),
        VecN([1, 0]),
        VecN([-1, 1]),
        VecN([0, 1]),
        VecN([1, 1]),
    ];
    assert_eq!(all, expected);
}

#[test]
fn combos_follow_the_step() {
    let all: Vec<VecN<1, i32>> = combos(0, 4, 2);
    assert_eq!(all, vec![VecN([0]), VecN([2]), VecN([4])]);
    let pairs: Vec<VecN<2, i32>> = combos(10, 20, 10);
    assert_eq!(pairs, vec![VecN([10, 10]), VecN([20, 10]), VecN([10, 20]), VecN([20, 20])]);
}

#[test]
fn combos_of_a_single_value() {
    let all: Vec<VecN<3, i32>> = combos(5, 5, 1);
    assert_eq!(all, vec![VecN([5, 5, 5])]);
}

#[test]
fn combos_without_axes_hold_the_empty_vector() {
    let all: Vec<VecN<0, i32>> = combos(-1, 1, 1);
    assert_eq!(all.len(), 1);
}

#[test]
fn neighborhood_has_three_to_the_dimension_entries() {
    assert_eq!(neighborhood::<1>().len(), 3);
    assert_eq!(neighborhood::<2>().len(), 9);
    assert_eq!(neighborhood::<3>().len(), 27);
    assert_eq!(neighborhood::<4>().len(), 81);
}

#[test]
fn neighborhood_entries_are_distinct_and_in_range() {
    let table = neighborhood::<3>();
    for (n, offset) in table.iter().enumerate() {
        for axis in 0..3 {
            assert!(offset.0[axis] >= -1 && offset.0[axis] <= 1);
        }
        for other in table.iter().skip(n + 1) {
            assert_ne!(offset, other);
        }
    }
    assert!(table.contains(&VecN([0, 0, 0])));
    assert!(table.contains(&VecN([1, -1, 1])));
}
