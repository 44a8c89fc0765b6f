use dla::geo::Bbox;
use dla::Vec3;

#[test]
fn vec3_componentwise_ops() {
    let a = Vec3::new(1, -2, 3);
    let b = Vec3::new(-4, 5, 3);
    assert_eq!(a.min(b), Vec3::new(-4, -2, 3));
    assert_eq!(a.max(b), Vec3::new(1, 5, 3));
    assert_eq!(a.add(b), Vec3::new(-3, 3, 6));
    assert_eq!(a.sub(b), Vec3::new(5, -7, 0));
    assert_eq!(a.add_scalar(2), Vec3::new(3, 0, 5));
    assert_eq!(a.sub_scalar(2), Vec3::new(-1, -4, 1));
    assert_eq!(a.mul_scalar(-2), Vec3::new(-2, 4, -6));
    assert_eq!(a.neg(), Vec3::new(-1, 2, -3));
}

#[test]
fn vec3_div_truncates_toward_zero() {
    let a = Vec3::new(7, -7, 5);
    assert_eq!(a.div_scalar(2), Vec3::new(3, -3, 2));
    assert_eq!(a.div_scalar(-2), Vec3::new(-3, 3, -2));
    assert_eq!(a.div(Vec3::new(2, 3, -2)), Vec3::new(3, -2, -2));
}

#[test]
fn vec3_componentwise_mul() {
    let a = Vec3::new(2, -3, 0);
    assert_eq!(a.mul(Vec3::new(4, 5, 9)), Vec3::new(8, -15, 0));
}

#[test]
fn vec3_distances() {
    let a = Vec3::new(1, 2, 3);
    let b = Vec3::new(4, 6, 3);
    assert_eq!(a.dist2(b), 25);
    assert_eq!(b.dist2(a), 25);
    assert_eq!(a.dist2(a), 0);
    assert_eq!(Vec3::new(3, 4, 0).norm2(), 25);
}

#[test]
fn vec3_norm_is_floored_sqrt() {
    assert_eq!(Vec3::new(3, 4, 0).norm(), 5);
    assert_eq!(Vec3::new(1, 1, 1).norm(), 1);
    assert_eq!(Vec3::new(0, 0, 10).norm(), 10);
    assert_eq!(Vec3::new(2, 2, 1).norm(), 3);
}

#[test]
fn vec3_normalized_truncates() {
    assert_eq!(Vec3::new(5, 0, 0).normalized(), Vec3::new(1, 0, 0));
    assert_eq!(Vec3::new(0, -7, 0).normalized(), Vec3::new(0, -1, 0));
    // the norm of (3, 4, 0) is 5, so both nonzero components truncate away
    assert_eq!(Vec3::new(3, 4, 0).normalized(), Vec3::new(0, 0, 0));
}

#[test]
fn bbox_construction_and_accessors() {
    let b = Bbox::new(Vec3::new(1, 2, 3));
    assert_eq!(b.lower(), Vec3::new(1, 2, 3));
    assert_eq!(b.upper(), Vec3::new(1, 2, 3));
    assert_eq!(b.volume(), 0);
    assert!(b.contains(Vec3::new(1, 2, 3)));
    assert!(!b.contains(Vec3::new(1, 2, 4)));
}

#[test]
fn bbox_expand_and_union() {
    let b = Bbox::new(Vec3::new(0, 0, 0)).expand(Vec3::new(2, -3, 4));
    assert_eq!(b.lower(), Vec3::new(0, -3, 0));
    assert_eq!(b.upper(), Vec3::new(2, 0, 4));
    // expanding by a point already contained returns the same box
    let same = b.expand(Vec3::new(1, -1, 2));
    assert_eq!(same, b);
    let c = Bbox::new(Vec3::new(10, 10, 10));
    let u = b.union(&c);
    assert_eq!(u.lower(), Vec3::new(0, -3, 0));
    assert_eq!(u.upper(), Vec3::new(10, 10, 10));
    assert!(u.contains(Vec3::new(1, -1, 2)));
    assert!(u.contains(Vec3::new(10, 10, 10)));
}

#[test]
fn bbox_center_biases_toward_lower() {
    let b = Bbox::new(Vec3::new(-3, 0, 0)).expand(Vec3::new(0, 1, 5));
    // -3..0 has truncated midpoint -1; 0..1 has midpoint 0; 0..5 midpoint 2
    assert_eq!(b.center(), Vec3::new(-1, 0, 2));
    assert!(b.contains(b.center()));
}

#[test]
fn bbox_dimensions_and_volume() {
    let b = Bbox::new(Vec3::new(1, 1, 1)).expand(Vec3::new(3, 5, 2));
    assert_eq!(b.dimensions(), Vec3::new(2, 4, 1));
    assert_eq!(b.volume(), 8);
    // a degenerate axis collapses the volume to zero
    let flat = Bbox::new(Vec3::new(0, 0, 0)).expand(Vec3::new(4, 4, 0));
    assert_eq!(flat.volume(), 0);
}

#[test]
fn bbox_clamp_and_dist2() {
    let b = Bbox::new(Vec3::new(0, 0, 0)).expand(Vec3::new(10, 10, 10));
    assert_eq!(b.clamp(Vec3::new(-5, 5, 20)), Vec3::new(0, 5, 10));
    assert_eq!(b.dist2(Vec3::new(-3, 5, 5)), 9);
    assert_eq!(b.dist2(Vec3::new(13, 14, 5)), 25);
    // distance zero exactly on contained points
    assert_eq!(b.dist2(Vec3::new(10, 0, 7)), 0);
    assert!(b.dist2(Vec3::new(11, 0, 7)) > 0);
}

#[test]
fn bbox_scale() {
    let b = Bbox::new(Vec3::new(-1, 2, 0)).expand(Vec3::new(1, 4, 1));
    let s = b.scale(3);
    assert_eq!(s.lower(), Vec3::new(-3, 6, 0));
    assert_eq!(s.upper(), Vec3::new(3, 12, 3));
}
