use query_accel::vecn::VecN;

#[test]
fn test_ivec3_add() {
    let a: VecN<3, i32> = VecN([1, 2, 3]);
    let b: VecN<3, i32> = VecN([4, 5, 6]);
    let a_plus_b = a + b;
    assert_eq!(a_plus_b, VecN([5, 7, 9]));
}

#[test]
fn test_ivec3_add_scalar() {
    let a: VecN<3, i32> = VecN([1, 2, 3]);
    let a_plus_b = a + 8;
    assert_eq!(a_plus_b, VecN([9, 10, 11]));
}

#[test]
fn test_vec3_add_scalar() {
    let a: VecN<3, f32> = VecN([1., 2., 3.]);
    let a_plus_b = a + 8.;
    assert_eq!(a_plus_b, VecN([9., 10., 11.]));
}

#[test]
fn vector_operators_work_component_by_component() {
    let a: VecN<3, i32> = VecN([10, 20, 30]);
    let b: VecN<3, i32> = VecN([1, 2, 3]);
    assert_eq!(a - b, VecN([9, 18, 27]));
    assert_eq!(a * b, VecN([10, 40, 90]));
    assert_eq!(a / b, VecN([10, 10, 10]));
    assert_eq!(a + b, VecN([11, 22, 33]));
}

#[test]
fn scalar_operators_apply_to_every_component() {
    let a: VecN<2, i32> = VecN([7, -9]);
    assert_eq!(a - 2, VecN([5, -11]));
    assert_eq!(a * 3, VecN([21, -27]));
    assert_eq!(a / 2, VecN([3, -4]));
    let f: VecN<2, f32> = VecN([1.0, 3.0]);
    assert_eq!(f / 2.0, VecN([0.5, 1.5]));
}

#[test]
fn merge_and_map_call_the_closure_per_axis() {
    let a: VecN<3, i32> = VecN([1, 5, 3]);
    let b: VecN<3, i32> = VecN([4, 2, 3]);
    assert_eq!(a.merge(b, |x, y| if x > y { x } else { y }), VecN([4, 5, 3]));
    assert_eq!(a.map(|x| x * x), VecN([1, 25, 9]));
}

#[test]
fn index_reads_one_axis() {
    let a: VecN<3, i32> = VecN([7, 8, 9]);
    assert_eq!(a[0], 7);
    assert_eq!(a[2], 9);
}

#[test]
fn dot_and_length_squared() {
    let a: VecN<3, i32> = VecN([1, 2, 3]);
    let b: VecN<3, i32> = VecN([4, -5, 6]);
    assert_eq!(a.dot(b), 4 - 10 + 18);
    assert_eq!(a.length_squared(), 14);
    let f: VecN<2, f32> = VecN([3.0, 4.0]);
    assert_eq!(f.length_squared(), 25.0);
    let none: VecN<0, i32> = VecN([]);
    assert_eq!(none.dot(none), 0);
}
