use relpos::position::{
    bucket_config_is_valid, build_relative_position, log_bucket, make_log_bucket_position,
};
use relpos::tensor::IntTensor;

// bucket_size = 4, max_position = 8: mid = 2, ratio (8 - 1) / 2 = 3.5.
// Distances up to 3 stay numerically unchanged (|3| is far but its bucket
// is 2 + 1 = 3).
#[test]
fn small_matrix_matches_raw_outer_difference() {
    let t = build_relative_position(4, 4, 4, 8);
    assert_eq!(t.rank(), 3);
    assert_eq!(t.dim(0), 1);
    assert_eq!(t.dim(1), 4);
    assert_eq!(t.dim(2), 4);
    let expected = [
        [0, -1, -2, -3],
        [1, 0, -1, -2],
        [2, 1, 0, -1],
        [3, 2, 1, 0],
    ];
    for i in 0..4 {
        for j in 0..4 {
            assert_eq!(t.at3(0, i, j), expected[i][j]);
        }
    }
}

#[test]
fn disabled_bucketing_gives_raw_distances() {
    // non-positive bucket size switches bucketing off entirely
    let t = build_relative_position(6, 5, 0, 8);
    for i in 0..6 {
        for j in 0..5 {
            assert_eq!(t.at3(0, i, j), i as i64 - j as i64);
        }
    }
    // non-positive max position does too
    let u = build_relative_position(3, 3, 4, -1);
    for i in 0..3 {
        for j in 0..3 {
            assert_eq!(u.at3(0, i, j), i as i64 - j as i64);
        }
    }
}

// bucket_size = 8, max_position = 16: mid = 4, ratio (16 - 1) / 4 = 3.75.
#[test]
fn near_range_distances_are_exact() {
    let t = build_relative_position(10, 10, 8, 16);
    for i in 0..10usize {
        for j in 0..10usize {
            let raw = i as i64 - j as i64;
            if raw.abs() < 4 {
                assert_eq!(t.at3(0, i, j), raw);
            }
        }
    }
}

#[test]
fn far_range_distances_are_compressed() {
    // ceil(3 * ln(d / 4) / ln(15 / 4)) + 4 for d > 4
    assert_eq!(log_bucket(4, 8, 16), 4);
    assert_eq!(log_bucket(5, 8, 16), 5);
    assert_eq!(log_bucket(6, 8, 16), 5);
    assert_eq!(log_bucket(7, 8, 16), 6);
    assert_eq!(log_bucket(8, 8, 16), 6);
    assert_eq!(log_bucket(9, 8, 16), 6);
    assert_eq!(log_bucket(10, 8, 16), 7);
    assert_eq!(log_bucket(15, 8, 16), 7); // d == max_position - 1: exactly bucket_size - 1
    // mid = 4, ratio (32 - 1) / 4 = 7.75
    assert_eq!(log_bucket(5, 8, 32), 5);
    assert_eq!(log_bucket(16, 8, 32), 7);
    assert_eq!(log_bucket(29, 8, 32), 7);
    assert_eq!(log_bucket(31, 8, 32), 7);
    // mid = 2, ratio (8 - 1) / 2 = 3.5
    assert_eq!(log_bucket(7, 4, 8), 3);
    // the slowest admissible ratio, (4 - 1) / 2 = 1.5
    assert_eq!(log_bucket(3, 4, 4), 3);
    assert_eq!(log_bucket(5, 4, 4), 5);
}

#[test]
fn far_entries_of_the_matrix_are_bucketed() {
    let t = build_relative_position(10, 10, 8, 16);
    assert_eq!(t.at3(0, 9, 0), 6);
    assert_eq!(t.at3(0, 8, 0), 6);
    assert_eq!(t.at3(0, 7, 0), 6);
    assert_eq!(t.at3(0, 5, 0), 5);
    assert_eq!(t.at3(0, 0, 9), -6);
    assert_eq!(t.at3(0, 0, 5), -5);
}

#[test]
fn buckets_stay_within_the_bounded_range() {
    // distances up to max_position - 1 land below bucket_size
    for d in -15i64..=15 {
        assert!(log_bucket(d, 8, 16).abs() <= 7);
    }
    for d in -7i64..=7 {
        assert!(log_bucket(d, 4, 8).abs() <= 3);
    }
}

#[test]
fn far_range_sign_antisymmetry() {
    for d in 1..40 {
        assert_eq!(log_bucket(-d, 8, 16), -log_bucket(d, 8, 16));
        assert_eq!(log_bucket(-d, 4, 8), -log_bucket(d, 4, 8));
    }
    let t = build_relative_position(10, 10, 8, 16);
    for i in 0..10 {
        for j in 0..10 {
            assert_eq!(t.at3(0, i, j), -t.at3(0, j, i));
        }
    }
}

#[test]
fn bucket_magnitude_is_monotone_in_distance() {
    let mut last: i64 = 0;
    for d in 0..200 {
        let b = log_bucket(d, 8, 16);
        assert!(b >= last);
        last = b;
    }
}

#[test]
fn elementwise_transform_keeps_shape() {
    let raw = IntTensor::from_parts(vec![2, 3], vec![0, 5, -7, 9, -2, 3]);
    let t = make_log_bucket_position(&raw, 8, 16);
    assert_eq!(t.rank(), 2);
    assert_eq!(t.dim(0), 2);
    assert_eq!(t.dim(1), 3);
    assert_eq!(t.flat_len(), 6);
    let expected = [0, 5, -6, 6, -2, 3];
    for n in 0..6 {
        assert_eq!(t.flat_at(n), expected[n]);
    }
}

#[test]
fn bad_bucket_configurations_are_rejected() {
    assert!(bucket_config_is_valid(4, 8));
    assert!(bucket_config_is_valid(8, 16));
    assert!(bucket_config_is_valid(4, 4));
    assert!(bucket_config_is_valid(8, 8));
    assert!(bucket_config_is_valid(8, 6));
    assert!(bucket_config_is_valid(2, 3));
    // an odd or too-small bucket size
    assert!(!bucket_config_is_valid(5, 16));
    assert!(!bucket_config_is_valid(1, 16));
    assert!(!bucket_config_is_valid(0, 16));
    assert!(!bucket_config_is_valid(-4, 16));
    // max_position at most mid + 1: the logarithm's denominator vanishes
    assert!(!bucket_config_is_valid(4, 3));
    assert!(!bucket_config_is_valid(8, 5));
    assert!(!bucket_config_is_valid(2, 2));
    assert!(!bucket_config_is_valid(4, 0));
    assert!(!bucket_config_is_valid(4, -7));
}

#[test]
fn rectangular_matrix_shape_and_corners() {
    let t = build_relative_position(2, 7, 0, 0);
    assert_eq!(t.rank(), 3);
    assert_eq!(t.dim(0), 1);
    assert_eq!(t.dim(1), 2);
    assert_eq!(t.dim(2), 7);
    assert_eq!(t.at3(0, 0, 0), 0);
    assert_eq!(t.at3(0, 0, 6), -6);
    assert_eq!(t.at3(0, 1, 0), 1);
    assert_eq!(t.at3(0, 1, 6), -5);
}
