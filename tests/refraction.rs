use raytracer::refraction::{media_at_hit, MediaAtHit};
use raytracer::shapes::{ShapeKey, ShapeKind};

fn key(id: i32) -> ShapeKey {
    ShapeKey::new(ShapeKind::Sphere, id)
}

#[test]
fn media_at_various_intersections() {
    // Three nested glass spheres: a, b and c, hit in the order a b c b c a.
    let a = key(1);
    let b = key(2);
    let c = key(3);
    let objects = vec![a, b, c, b, c, a];
    let expected: Vec<(Option<ShapeKey>, Option<ShapeKey>)> = vec![
        (None, Some(a)),
        (Some(a), Some(b)),
        (Some(b), Some(c)),
        (Some(c), Some(c)),
        (Some(c), Some(a)),
        (Some(a), None),
    ];
    for (hit, (n1, n2)) in expected.into_iter().enumerate() {
        let m = media_at_hit(&objects, hit);
        assert_eq!(m.leaving.map(|p| objects[p]), n1, "n1 at {}", hit);
        assert_eq!(m.entering.map(|p| objects[p]), n2, "n2 at {}", hit);
    }
}

#[test]
fn media_leaving_a_single_sphere() {
    let s = key(1);
    let objects = vec![s, s];
    assert_eq!(media_at_hit(&objects, 1), MediaAtHit { leaving: Some(0), entering: None });
    assert_eq!(media_at_hit(&objects, 0), MediaAtHit { leaving: None, entering: Some(0) });
}

#[test]
fn media_single_intersection() {
    let objects = vec![key(4)];
    assert_eq!(media_at_hit(&objects, 0), MediaAtHit { leaving: None, entering: Some(0) });
}

#[test]
fn same_id_different_kind_is_another_shape() {
    let sphere = ShapeKey::new(ShapeKind::Sphere, 1);
    let cube = ShapeKey::new(ShapeKind::Cube, 1);
    assert!(!sphere.same_shape(&cube));
    assert!(sphere.same_shape(&ShapeKey::new(ShapeKind::Sphere, 1)));
    let objects = vec![sphere, cube];
    let m = media_at_hit(&objects, 1);
    assert_eq!(m.leaving, Some(0));
    assert_eq!(m.entering, Some(1));
}
