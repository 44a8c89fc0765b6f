use rand::Rng;
use rand::SeedableRng;

use dla::geo::Bbox;
use dla::octree::{partition_pt, split_bbox, Octree};
use dla::Vec3;

fn dist2(a: Vec3, b: Vec3) -> i64 {
    let dx = a.x - b.x;
    let dy = a.y - b.y;
    let dz = a.z - b.z;
    dx * dx + dy * dy + dz * dz
}

#[test]
fn empty_index() {
    let t = Octree::new();
    assert_eq!(t.len(), 0);
    assert!(t.is_empty());
    assert_eq!(t.rebuilt_count(), 0);
    assert_eq!(t.nearest(Vec3::new(0, 0, 0)), None);
    assert_eq!(t.iter().len(), 0);
}

#[test]
fn insert_twice_is_a_no_op() {
    let mut t = Octree::new();
    assert!(t.add(Vec3::new(1, 2, 3)));
    assert_eq!(t.len(), 1);
    let before: Vec<Vec3> = t.iter();
    assert!(!t.add(Vec3::new(1, 2, 3)));
    assert_eq!(t.len(), 1);
    let mut after: Vec<Vec3> = t.iter();
    let mut sorted_before = before.clone();
    sorted_before.sort_by_key(|p| (p.x, p.y, p.z));
    after.sort_by_key(|p| (p.x, p.y, p.z));
    assert_eq!(sorted_before, after);
}

#[test]
fn iterate_yields_each_point_once() {
    let mut t = Octree::new();
    for x in 0..10 {
        for y in 0..10 {
            t.add(Vec3::new(x, y, x - y));
            t.add(Vec3::new(x, y, x - y));
        }
    }
    assert_eq!(t.len(), 100);
    let mut pts = t.iter();
    pts.sort_by_key(|p| (p.x, p.y, p.z));
    pts.dedup();
    assert_eq!(pts.len(), 100);
}

#[test]
fn with_hint_keeps_interior_points_out_of_overflow() {
    let hint = Bbox::new(Vec3::new(-100, -100, -100)).expand(Vec3::new(100, 100, 100));
    let mut t = Octree::with_hint(hint);
    let mut rng = rand::rngs::StdRng::seed_from_u64(11);
    for _ in 0..500 {
        let p = Vec3::new(
            rng.gen_range(-100..=100),
            rng.gen_range(-100..=100),
            rng.gen_range(-100..=100),
        );
        t.add(p);
    }
    assert_eq!(t.rebuilt_count(), 0);
}

#[test]
fn rebuild_keeps_every_point_findable() {
    let mut t = Octree::new();
    let mut inserted = Vec::new();
    // spread points far apart so the overflow set keeps tripping rebuilds
    for k in 0i64..300 {
        let p = Vec3::new(k * 1000, -k * 777, k * k);
        t.add(p);
        inserted.push(p);
    }
    assert!(t.rebuilt_count() >= 1);
    assert_eq!(t.len(), 300);
    for p in inserted {
        assert_eq!(t.nearest(p), Some((p, 0)));
    }
}

#[test]
fn nearest_matches_brute_force() {
    let mut rng = rand::rngs::StdRng::seed_from_u64(7);
    let mut t = Octree::new();
    let mut pts: Vec<Vec3> = Vec::new();
    for _ in 0..200 {
        let p = Vec3::new(
            rng.gen_range(-50..=50),
            rng.gen_range(-50..=50),
            rng.gen_range(-50..=50),
        );
        if t.add(p) {
            pts.push(p);
        }
    }
    for _ in 0..1000 {
        let q = Vec3::new(
            rng.gen_range(-5000..=5000),
            rng.gen_range(-5000..=5000),
            rng.gen_range(-5000..=5000),
        );
        let best = pts.iter().map(|p| dist2(*p, q)).min().unwrap();
        let (_, d) = t.nearest(q).unwrap();
        assert_eq!(d, best);
    }
}

#[test]
fn octants_classify_deterministically() {
    let c = Vec3::new(0, 0, 0);
    assert_eq!(partition_pt(Vec3::new(-1, -1, -1), c), 0);
    assert_eq!(partition_pt(Vec3::new(-1, -1, 1), c), 1);
    assert_eq!(partition_pt(Vec3::new(1, -1, -1), c), 2);
    assert_eq!(partition_pt(Vec3::new(1, -1, 1), c), 3);
    assert_eq!(partition_pt(Vec3::new(-1, 1, -1), c), 4);
    assert_eq!(partition_pt(Vec3::new(-1, 1, 1), c), 5);
    assert_eq!(partition_pt(Vec3::new(1, 1, -1), c), 6);
    assert_eq!(partition_pt(Vec3::new(1, 1, 1), c), 7);
    // boundary points resolve to the first matching rule
    assert_eq!(partition_pt(c, c), 0);
    assert_eq!(partition_pt(Vec3::new(0, 0, 1), c), 1);
    assert_eq!(partition_pt(Vec3::new(1, 0, 0), c), 2);
    assert_eq!(partition_pt(Vec3::new(0, 1, 0), c), 4);
}

#[test]
fn split_covers_every_octant() {
    let b = Bbox::new(Vec3::new(0, 0, 0)).expand(Vec3::new(8, 8, 8));
    let c = b.center();
    assert_eq!(c, Vec3::new(4, 4, 4));
    let subs = split_bbox(&b, c);
    assert_eq!(subs[0].lower(), Vec3::new(0, 0, 0));
    assert_eq!(subs[0].upper(), Vec3::new(4, 4, 4));
    assert_eq!(subs[7].lower(), Vec3::new(4, 4, 4));
    assert_eq!(subs[7].upper(), Vec3::new(8, 8, 8));
    // each point of the box lands in the sub-box its octant names
    for x in 0..=8 {
        for y in 0..=8 {
            for z in 0..=8 {
                let p = Vec3::new(x, y, z);
                let i = partition_pt(p, c);
                assert!(subs[i].contains(p));
            }
        }
    }
}
