use kmeans::math;
use kmeans::math::{div_floor, isqrt, isqrt_up, sum, unit_scale, UNIT};

/// A value in fixed point, sixteen fractional bits.
fn fx(v: f32) -> i64 {
    (v * 65536.0) as i64
}

#[test]
fn average_f32() {
    assert_eq!(math::average_f32(&[fx(1.0), fx(2.0), fx(3.0)]), Some(fx(2.0)));
    assert_eq!(math::average_f32(&[]), None);
}

#[test]
fn std_dev_f32() {
    assert_eq!(math::std_dev_f32(&[fx(1.0), fx(2.0)]), Some(fx(0.5) as u64));
    assert_eq!(math::std_dev_f32(&[]), None);
}

#[test]
fn unit_is_sixteen_fractional_bits() {
    assert_eq!(UNIT, 65536);
    assert_eq!(fx(1.0), UNIT);
}

#[test]
fn average_rounds_down() {
    assert_eq!(math::average_f32(&[1, 2, 3]), Some(2));
    assert_eq!(math::average_f32(&[1, 2]), Some(1));
    assert_eq!(math::average_f32(&[-3, -2]), Some(-3));
    assert_eq!(math::average_f32(&[-1, 0]), Some(-1));
    assert_eq!(math::average_f32(&[7]), Some(7));
}

#[test]
fn average_at_the_limits_of_the_range() {
    assert_eq!(math::average_f32(&[i64::MAX, i64::MAX, i64::MAX]), Some(i64::MAX));
    assert_eq!(math::average_f32(&[i64::MIN, i64::MIN]), Some(i64::MIN));
    assert_eq!(math::average_f32(&[i64::MIN, i64::MAX]), Some(-1));
}

#[test]
fn sum_is_exact() {
    assert_eq!(sum(&[]), 0);
    assert_eq!(sum(&[1, -2, 3]), 2);
    assert_eq!(sum(&[i64::MAX, i64::MAX]), 18446744073709551614);
    assert_eq!(sum(&[i64::MIN, i64::MIN]), -18446744073709551616);
}

#[test]
fn std_dev_is_the_population_deviation_rounded_up() {
    assert_eq!(math::std_dev_f32(&[2, 4, 4, 4, 5, 5, 7, 9]), Some(2));
    assert_eq!(math::std_dev_f32(&[fx(1.0), fx(2.0), fx(3.0)]), Some(53510));
    assert_eq!(math::std_dev_f32(&[fx(1.0), fx(3.0)]), Some(65536));
    assert_eq!(math::std_dev_f32(&[1, 2]), Some(1));
    assert_eq!(math::std_dev_f32(&[1000, 2000, 4000]), Some(1248));
}

#[test]
fn std_dev_is_zero_only_for_equal_elements() {
    assert_eq!(math::std_dev_f32(&[5, 5, 5]), Some(0));
    assert_eq!(math::std_dev_f32(&[-9]), Some(0));
    assert_eq!(math::std_dev_f32(&[5, 5, 6]), Some(1));
    assert_eq!(math::std_dev_f32(&[0, 1, 1]), Some(1));
    let mut many = vec![0i64; 100_000];
    many[77] = 1;
    assert_eq!(math::std_dev_f32(&many), Some(1));
}

#[test]
fn std_dev_at_the_limits_of_the_range() {
    assert_eq!(math::std_dev_f32(&[i64::MIN, i64::MAX]), Some(9223372036854775808));
    assert_eq!(math::std_dev_f32(&[i64::MAX, i64::MAX]), Some(0));
    assert_eq!(
        math::std_dev_f32(&[i64::MIN, i64::MAX, i64::MIN, i64::MAX]),
        Some(9223372036854775808)
    );
}

#[test]
fn isqrt_rounds_down() {
    assert_eq!(isqrt(0), 0);
    assert_eq!(isqrt(1), 1);
    assert_eq!(isqrt(3), 1);
    assert_eq!(isqrt(4), 2);
    assert_eq!(isqrt(24), 4);
    assert_eq!(isqrt(25), 5);
    assert_eq!(isqrt(26), 5);
    assert_eq!(isqrt(u128::MAX), u64::MAX);
    assert_eq!(isqrt(1 << 64), 1 << 32);
    assert_eq!(isqrt((1 << 64) - 1), (1 << 32) - 1);
}

#[test]
fn isqrt_up_rounds_up() {
    assert_eq!(isqrt_up(0), 0);
    assert_eq!(isqrt_up(1), 1);
    assert_eq!(isqrt_up(2), 2);
    assert_eq!(isqrt_up(4), 2);
    assert_eq!(isqrt_up(5), 3);
    assert_eq!(isqrt_up(24), 5);
    assert_eq!(isqrt_up(25), 5);
    assert_eq!(isqrt_up(26), 6);
    assert_eq!(isqrt_up(1 << 64), 1 << 32);
    assert_eq!(isqrt_up((1 << 64) + 1), (1 << 32) + 1);
    assert_eq!(isqrt_up(u128::MAX), 1 << 64);
}

#[test]
fn div_floor_rounds_towards_negative_infinity() {
    assert_eq!(div_floor(7, 2), 3);
    assert_eq!(div_floor(-7, 2), -4);
    assert_eq!(div_floor(-8, 2), -4);
    assert_eq!(div_floor(0, 5), 0);
    assert_eq!(div_floor(-1, 5), -1);
    assert_eq!(div_floor(i128::MAX, 1), i128::MAX);
    assert_eq!(div_floor(i128::MIN, 1), i128::MIN);
    assert_eq!(div_floor(i128::MIN, u64::MAX), -9223372036854775809);
}

#[test]
fn unit_scale_gives_standard_scores() {
    let mut xs = vec![fx(1.0), fx(3.0)];
    assert_eq!(unit_scale(&mut xs), Some(()));
    assert_eq!(xs, vec![fx(-1.0), fx(1.0)]);

    let mut ys = vec![fx(1.0), fx(2.0), fx(3.0)];
    assert_eq!(unit_scale(&mut ys), Some(()));
    assert_eq!(ys, vec![-80265, 0, 80264]);

    let mut zs = vec![2, 4, 4, 4, 5, 5, 7, 9];
    assert_eq!(unit_scale(&mut zs), Some(()));
    assert_eq!(zs, vec![-98304, -32768, -32768, -32768, 0, 0, 65536, 131072]);
}

#[test]
fn unit_scale_hardly_depends_on_the_unit_of_its_input() {
    let mut small = vec![1000, 2000, 4000];
    let mut large = vec![10_000_000, 20_000_000, 40_000_000];
    assert_eq!(unit_scale(&mut small), Some(()));
    assert_eq!(unit_scale(&mut large), Some(()));
    assert_eq!(small, vec![-70000, -17487, 87538]);
    assert_eq!(large, vec![-70061, -17516, 87576]);
}

#[test]
fn unit_scale_refuses_a_constant_array() {
    let mut xs = vec![fx(5.0), fx(5.0), fx(5.0)];
    assert_eq!(unit_scale(&mut xs), None);
    assert_eq!(xs, vec![fx(5.0), fx(5.0), fx(5.0)]);

    let mut one = vec![42];
    assert_eq!(unit_scale(&mut one), None);
    assert_eq!(one, vec![42]);
}

#[test]
fn unit_scale_refuses_an_empty_array() {
    let mut xs: Vec<i64> = Vec::new();
    assert_eq!(unit_scale(&mut xs), None);
    assert!(xs.is_empty());
}

#[test]
fn unit_scale_accepts_elements_that_hardly_differ() {
    let mut xs = vec![5, 5, 6];
    assert_eq!(unit_scale(&mut xs), Some(()));
    assert_eq!(xs, vec![0, 0, 65536]);

    let mut ys = vec![0, 1, 1];
    assert_eq!(unit_scale(&mut ys), Some(()));
    assert_eq!(ys, vec![0, 65536, 65536]);
}

#[test]
fn unit_scale_accepts_one_outlier_among_many_equal_values() {
    let mut xs = vec![0i64; 1 << 20];
    xs[0] = 32768;
    assert_eq!(unit_scale(&mut xs), Some(()));
    assert_eq!(xs[0], 1 << 26);
    assert!(xs[1..].iter().all(|v| *v == 0));

    let mut ys = vec![0i64; 1 << 16];
    ys[0] = i64::from(i32::MAX);
    assert_eq!(unit_scale(&mut ys), Some(()));
    assert_eq!(ys[0], 16777087);
    assert!(ys[1..].iter().all(|v| *v == -256));
}

#[test]
fn unit_scale_at_the_limits_of_the_range() {
    let mut xs = vec![i64::MIN, i64::MAX];
    assert_eq!(unit_scale(&mut xs), Some(()));
    assert_eq!(xs, vec![-65536, 65536]);
}
