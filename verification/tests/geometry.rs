use astar::geometry::{distance, MAX_DISTANCE, SCALE, SCALE_SQUARED};
use astar::isqrt::ceil_sqrt_u128;

#[test]
fn square_roots_of_small_numbers() {
    assert_eq!(ceil_sqrt_u128(0), 0);
    assert_eq!(ceil_sqrt_u128(1), 1);
    assert_eq!(ceil_sqrt_u128(2), 2);
    assert_eq!(ceil_sqrt_u128(3), 2);
    assert_eq!(ceil_sqrt_u128(4), 2);
    assert_eq!(ceil_sqrt_u128(5), 3);
    assert_eq!(ceil_sqrt_u128(9), 3);
    assert_eq!(ceil_sqrt_u128(10), 4);
    assert_eq!(ceil_sqrt_u128(99), 10);
    assert_eq!(ceil_sqrt_u128(100), 10);
    assert_eq!(ceil_sqrt_u128(101), 11);
}

#[test]
fn square_roots_of_large_numbers() {
    assert_eq!(ceil_sqrt_u128(2_000_000_000_000), 1_414_214);
    assert_eq!(ceil_sqrt_u128(u128::MAX), 1u128 << 64);
    assert_eq!(ceil_sqrt_u128(1u128 << 126), 1u128 << 63);
    assert_eq!(ceil_sqrt_u128((1u128 << 126) + 1), (1u128 << 63) + 1);
    let r = 0xFFFF_FFFF_FFFF_FFFFu128;
    assert_eq!(ceil_sqrt_u128(r * r), r);
    assert_eq!(ceil_sqrt_u128(r * r - 1), r);
    assert_eq!(ceil_sqrt_u128(r * r + 1), r + 1);
}

#[test]
fn square_root_is_the_least_number_whose_square_reaches() {
    for n in 0u128..2000 {
        let r = ceil_sqrt_u128(n);
        assert!(r * r >= n);
        assert!(r == 0 || (r - 1) * (r - 1) < n);
    }
}

#[test]
fn scale_constants_agree() {
    assert_eq!(SCALE, 1_000_000);
    assert_eq!(SCALE * SCALE, SCALE_SQUARED);
    assert_eq!(MAX_DISTANCE, SCALE << 33);
}

#[test]
fn distance_along_an_axis_is_exact() {
    let nodes = vec![(0, 0), (1, 0), (0, -7), (1, 0)];
    assert_eq!(distance(&nodes, 0, 1), 1_000_000);
    assert_eq!(distance(&nodes, 0, 2), 7_000_000);
    assert_eq!(distance(&nodes, 1, 3), 0);
    assert_eq!(distance(&nodes, 2, 2), 0);
}

#[test]
fn distance_of_a_pythagorean_triple_is_exact() {
    let nodes = vec![(0, 0), (3, 4), (-5, 12)];
    assert_eq!(distance(&nodes, 0, 1), 5_000_000);
    assert_eq!(distance(&nodes, 0, 2), 13_000_000);
    assert_eq!(distance(&nodes, 1, 0), 5_000_000);
}

#[test]
fn distance_of_a_diagonal_is_rounded_up() {
    let nodes = vec![(0, 0), (1, 1), (2, 1)];
    assert_eq!(distance(&nodes, 0, 1), 1_414_214);
    assert_eq!(distance(&nodes, 0, 2), 2_236_068);
    let real = distance(&nodes, 0, 1) as f64 / SCALE as f64;
    assert!((real - 2.0_f64.sqrt()).abs() < 1e-6);
    assert!(real >= 2.0_f64.sqrt());
}

#[test]
fn distance_between_the_farthest_points_fits() {
    let nodes = vec![(i32::MIN, i32::MIN), (i32::MAX, i32::MAX)];
    let d = distance(&nodes, 0, 1);
    assert!(d <= MAX_DISTANCE);
    assert_eq!(d, distance(&nodes, 1, 0));
    let real = d as f64 / SCALE as f64;
    let expected = 2.0_f64.sqrt() * 4_294_967_295.0;
    assert!((real - expected).abs() / expected < 1e-12);
}

#[test]
fn distances_obey_the_triangle_inequality() {
    let nodes = vec![(0, 0), (1, 2), (3, 1), (-4, 5), (7, -7), (2, 2), (1, 1)];
    for a in 0..nodes.len() {
        for b in 0..nodes.len() {
            for c in 0..nodes.len() {
                assert!(distance(&nodes, a, c) <= distance(&nodes, a, b) + distance(&nodes, b, c));
            }
        }
    }
}
