//! Exact values of the geometric primitives: the on-plane tolerance and
//! quantization to the key grid.

use mandoline::GRID;
use mandoline::PLANE_EPS;
use mandoline::near;
use mandoline::quantize;

#[test]
fn quantize_rounds_half_up() {
    assert_eq!(quantize(0), 0);
    assert_eq!(quantize(499), 0);
    assert_eq!(quantize(500), 1000);
    assert_eq!(quantize(1499), 1000);
    assert_eq!(quantize(1500), 2000);
    assert_eq!(quantize(-499), 0);
    assert_eq!(quantize(-500), 0);
    assert_eq!(quantize(-501), -1000);
    assert_eq!(quantize(-1500), -1000);
    assert_eq!(quantize(-1501), -2000);
    assert_eq!(quantize(999_999), 1_000_000);
    assert_eq!(GRID, 1000);
}

#[test]
fn near_tolerance_is_inclusive() {
    assert!(near(0, 100));
    assert!(near(100, 0));
    assert!(!near(0, 101));
    assert!(near(5, -95));
    assert!(!near(5, -96));
    assert!(near(42, 42));
    assert_eq!(PLANE_EPS, 100);
}
