use raytracer::pattern::{is_first_band, is_first_cell, TestPattern};
use raytracer::shapes::{Cube, Plane, Sphere};

#[test]
fn unit_shapes_construct() {
    assert_eq!(Sphere::new(), Sphere {});
    assert_eq!(Plane::new(), Plane {});
    assert_eq!(Cube::new(), Cube {});
    assert_eq!(TestPattern::new(), TestPattern {});
}

#[test]
fn stripes_alternate_by_band() {
    assert!(is_first_band(0));
    assert!(!is_first_band(1));
    assert!(!is_first_band(-1));
    assert!(is_first_band(-2));
    assert!(is_first_band(2));
}

#[test]
fn checkers_alternate_by_cell() {
    assert!(is_first_cell(0, 0, 0));
    assert!(!is_first_cell(1, 0, 0));
    assert!(!is_first_cell(0, 1, 0));
    assert!(!is_first_cell(0, 0, 1));
    assert!(is_first_cell(-1, 0, -1));
    assert!(!is_first_cell(-1, -1, -1));
    assert!(is_first_cell(i64::MAX, i64::MAX, 0));
}
