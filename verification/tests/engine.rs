use rand::Rng;
use rand::SeedableRng;

use dla::{Dla, Vec3};

#[test]
fn empty_seed_sequence_is_rejected() {
    assert!(Dla::new(10, 8, Vec::new()).is_none());
}

#[test]
fn seeds_are_stored_with_their_bounding_box() {
    let seeds = vec![Vec3::new(0, 0, 0), Vec3::new(4, -2, 1), Vec3::new(-3, 5, 0)];
    let d = Dla::new(10, 8, seeds).unwrap();
    assert_eq!(d.len(), 3);
    assert!(!d.is_empty());
    let b = d.bbox();
    assert_eq!(b.lower(), Vec3::new(-3, -2, 0));
    assert_eq!(b.upper(), Vec3::new(4, 5, 1));
    let mut cells = d.cells();
    cells.sort_by_key(|p| (p.x, p.y, p.z));
    assert_eq!(cells, vec![Vec3::new(-3, 5, 0), Vec3::new(0, 0, 0), Vec3::new(4, -2, 1)]);
}

#[test]
fn stuck_reports_the_nearest_neighbor_within_radius() {
    let d = Dla::new(10, 10, vec![Vec3::new(0, 0, 0)]).unwrap();
    assert_eq!(d.stuck(Vec3::new(5, 0, 0)), Some(Vec3::new(0, 0, 0)));
    assert_eq!(d.stuck(Vec3::new(0, 0, 0)), Some(Vec3::new(0, 0, 0)));
    assert_eq!(d.stuck(Vec3::new(11, 0, 0)), None);
}

#[test]
fn attachment_snaps_next_to_the_neighbor() {
    // find a random seed whose first draw in the spawn box [-10, 10]^3 is
    // exactly (5, 0, 0); the engine draws x, y, z in that order
    let mut found = None;
    for seed in 0u64..200_000 {
        let mut probe = rand::rngs::StdRng::seed_from_u64(seed);
        let x = probe.gen_range(-10i64..=10);
        let y = probe.gen_range(-10i64..=10);
        let z = probe.gen_range(-10i64..=10);
        if (x, y, z) == (5, 0, 0) {
            found = Some(seed);
            break;
        }
    }
    let seed = found.expect("some seed draws (5, 0, 0)");
    let mut d = Dla::new(10, 10, vec![Vec3::new(0, 0, 0)]).unwrap();
    let mut rng = rand::rngs::StdRng::seed_from_u64(seed);
    // the candidate spawns at (5, 0, 0), is stuck against (0, 0, 0), and
    // bonds one step toward the side it came from
    let attached = d.add(&mut rng);
    assert_eq!(attached, Vec3::new(1, 0, 0));
    assert_eq!(d.len(), 2);
}

#[test]
fn every_attachment_is_adjacent_to_the_aggregate() {
    let mut d = Dla::new(10, 8, vec![Vec3::new(0, 0, 0)]).unwrap();
    let mut rng = rand::rngs::StdRng::seed_from_u64(3);
    let mut cells = vec![Vec3::new(0, 0, 0)];
    for _ in 0..50 {
        let p = d.add(&mut rng);
        let adjacent = cells
            .iter()
            .any(|c| (p.x - c.x).abs() <= 1 && (p.y - c.y).abs() <= 1 && (p.z - c.z).abs() <= 1);
        assert!(adjacent);
        cells.push(p);
    }
}

fn run_simulation(seed: u64, particles: usize) -> (usize, i64, Vec<Vec3>) {
    let mut d = Dla::new(10, 8, vec![Vec3::new(0, 0, 0)]).unwrap();
    let mut rng = rand::rngs::StdRng::seed_from_u64(seed);
    for _ in 0..particles {
        d.add(&mut rng);
    }
    let mut cells = d.cells();
    cells.sort_by_key(|p| (p.x, p.y, p.z));
    (d.len(), d.bbox().volume(), cells)
}

#[test]
fn full_growth_run_is_reproducible() {
    let (len, volume, cells) = run_simulation(12, 500);
    assert_eq!(len, 501);
    assert!(volume > 0);
    let (len2, volume2, cells2) = run_simulation(12, 500);
    assert_eq!(len, len2);
    assert_eq!(volume, volume2);
    assert_eq!(cells, cells2);
}
