//! Diffusion-limited aggregation on an integer lattice.
//!
//! A `Dla` grows a particle aggregate: candidates are released in a margin
//! around the cluster's bounding box and random-walk until they come within
//! the attraction radius of a stored cell, then bond to the lattice cell
//! adjacent to that neighbor. An adaptive octree index answers the
//! nearest-neighbor queries as the cluster grows.

pub mod geo;
pub mod octree;
mod pset;
mod rng;

pub use geo::Vec3;

use vstd::prelude::*;
use vstd::assert_seqs_equal;
use vstd::assert_sets_equal;

use crate::geo::{
    in_space, lemma_index_in_to_set, max3, min3, seq_views, sq_dist, Bbox, COORD_LIMIT,
};
use crate::octree::Octree;
use crate::rng::rand_range_i64;

verus! {

/// The aggregation engine: the index of attached cells, their exact
/// bounding box, and the two tuning radii of the walk.
pub struct Dla {
    spawn_radius: i64,
    attraction_radius: i64,
    attraction_radius2: i64,
    cells: Octree,
    bbox: Bbox,
}

impl View for Dla {
    type V = Set<(int, int, int)>;

    /// The set of attached cells, as coordinate triples.
    closed spec fn view(&self) -> Set<(int, int, int)> {
        self.cells@
    }
}

impl Dla {
    /// The margin around the bounding box where new particles are released.
    pub closed spec fn spawn_r(self) -> int {
        self.spawn_radius as int
    }

    /// The center-to-center distance at which a wandering particle bonds.
    pub closed spec fn attraction_r(self) -> int {
        self.attraction_radius as int
    }

    /// The exact bounding box of all attached cells.
    pub closed spec fn bounds(self) -> Bbox {
        self.bbox
    }

    /// The engine's invariant: a well-formed non-empty index, radii within
    /// their source ranges with the squared radius cached exactly, and a
    /// bounding box that contains every cell and is attained on every face.
    pub closed spec fn wf(self) -> bool {
        &&& self.cells.wf()
        &&& 0 <= self.spawn_radius <= 0xFFFF_FFFFi64
        &&& 0 <= self.attraction_radius <= 0xFFFFi64
        &&& self.attraction_radius2 == self.attraction_radius * self.attraction_radius
        &&& self.bbox.wf()
        &&& self.bbox.box_in_space()
        &&& self@.len() > 0
        &&& self@.finite()
        &&& forall|q: (int, int, int)|
            #[trigger] self@.contains(q) ==> self.bbox.contains_pt(q) && in_space(q)
        &&& exists|q: (int, int, int)| #[trigger] self@.contains(q) && q.0 == self.bbox.lo().0
        &&& exists|q: (int, int, int)| #[trigger] self@.contains(q) && q.1 == self.bbox.lo().1
        &&& exists|q: (int, int, int)| #[trigger] self@.contains(q) && q.2 == self.bbox.lo().2
        &&& exists|q: (int, int, int)| #[trigger] self@.contains(q) && q.0 == self.bbox.up().0
        &&& exists|q: (int, int, int)| #[trigger] self@.contains(q) && q.1 == self.bbox.up().1
        &&& exists|q: (int, int, int)| #[trigger] self@.contains(q) && q.2 == self.bbox.up().2
    }

    /// Room to grow: the spawn margin around the bounding box — and one
    /// cell of attachment slack — stays within coordinate space.
    pub open spec fn can_grow(self) -> bool {
        let m = if self.spawn_r() >= 1 {
            self.spawn_r()
        } else {
            1int
        };
        &&& self.bounds().lo().0 - m >= -COORD_LIMIT
        &&& self.bounds().lo().1 - m >= -COORD_LIMIT
        &&& self.bounds().lo().2 - m >= -COORD_LIMIT
        &&& self.bounds().up().0 + m <= COORD_LIMIT
        &&& self.bounds().up().1 + m <= COORD_LIMIT
        &&& self.bounds().up().2 + m <= COORD_LIMIT
    }

    /// Builds an aggregate holding exactly the seed cells, with the seeds'
    /// exact bounding box; fails precisely on an empty seed sequence.
    pub fn new(spawn_radius: u32, attraction_radius: u16, seeds: Vec<Vec3>) -> (r: Option<Dla>)
        requires
            forall|k: int| 0 <= k < seeds@.len() ==> in_space((#[trigger] seeds@[k])@),
        ensures
            r is Some <==> seeds@.len() > 0,
            r is Some ==> (r->Some_0).wf() && (r->Some_0)@ == seq_views(seeds@).to_set() && (
            r->Some_0).spawn_r() == spawn_radius as int && (r->Some_0).attraction_r()
                == attraction_radius as int,
    {
        broadcast use vstd::set::group_set_axioms;

        if seeds.len() == 0 {
            return None;
        }
        let mut cells = Octree::new();
        let first = seeds[0];
        let mut bbox = Bbox::new(first);
        let mut k: usize = 0;
        let ghost mut wlo0: int = 0;
        let ghost mut wlo1: int = 0;
        let ghost mut wlo2: int = 0;
        let ghost mut wup0: int = 0;
        let ghost mut wup1: int = 0;
        let ghost mut wup2: int = 0;
        proof {
            assert_sets_equal!(
                seq_views(seeds@).subrange(0, 0).to_set(),
                Set::<(int, int, int)>::empty()
            );
        }
        while k < seeds.len()
            invariant
                0 < seeds@.len() <= usize::MAX,
                k <= seeds@.len(),
                forall|t: int| 0 <= t < seeds@.len() ==> in_space((#[trigger] seeds@[t])@),
                first == seeds@[0],
                cells.wf(),
                cells@ == seq_views(seeds@).subrange(0, k as int).to_set(),
                cells@.len() <= k,
                cells@.finite(),
                bbox.wf(),
                bbox.box_in_space(),
                bbox.contains_pt(first@),
                forall|t: int| 0 <= t < k ==> bbox.contains_pt((#[trigger] seeds@[t])@),
                0 <= wlo0 < seeds@.len() && seeds@[wlo0]@.0 == bbox.lo().0,
                0 <= wlo1 < seeds@.len() && seeds@[wlo1]@.1 == bbox.lo().1,
                0 <= wlo2 < seeds@.len() && seeds@[wlo2]@.2 == bbox.lo().2,
                0 <= wup0 < seeds@.len() && seeds@[wup0]@.0 == bbox.up().0,
                0 <= wup1 < seeds@.len() && seeds@[wup1]@.1 == bbox.up().1,
                0 <= wup2 < seeds@.len() && seeds@[wup2]@.2 == bbox.up().2,
            decreases seeds@.len() - k,
        {
            let p = seeds[k];
            let ghost prelo = bbox.lo();
            let ghost preup = bbox.up();
            let _ = cells.add(p);
            bbox = bbox.expand(p);
            proof {
                let m = seq_views(seeds@);
                assert(m[k as int] == p@);
                assert_seqs_equal!(
                    m.subrange(0, k as int + 1),
                    m.subrange(0, k as int).push(m[k as int])
                );
                m.subrange(0, k as int).lemma_push_to_set_commute(m[k as int]);
                // each face of the grown box is attained by an already
                // processed seed or by the one just added
                if p@.0 <= prelo.0 {
                    wlo0 = k as int;
                }
                if p@.1 <= prelo.1 {
                    wlo1 = k as int;
                }
                if p@.2 <= prelo.2 {
                    wlo2 = k as int;
                }
                if p@.0 >= preup.0 {
                    wup0 = k as int;
                }
                if p@.1 >= preup.1 {
                    wup1 = k as int;
                }
                if p@.2 >= preup.2 {
                    wup2 = k as int;
                }
            }
            k = k + 1;
        }
        let spawn_radius_w = spawn_radius as i64;
        let attraction_radius_w = attraction_radius as i64;
        proof {
            assert(0 <= attraction_radius_w * attraction_radius_w <= 0xFFFFi64 * 0xFFFFi64)
                by (nonlinear_arith)
                requires
                    0 <= attraction_radius_w <= 0xFFFFi64,
            ;
        }
        let d = Dla {
            spawn_radius: spawn_radius_w,
            attraction_radius: attraction_radius_w,
            attraction_radius2: attraction_radius_w * attraction_radius_w,
            cells,
            bbox,
        };
        proof {
            assert_seqs_equal!(
                seq_views(seeds@).subrange(0, seeds@.len() as int),
                seq_views(seeds@)
            );
            assert(seq_views(seeds@)[0] == seeds@[0]@);
            assert(seq_views(seeds@).contains(seeds@[0]@));
            assert(d@.contains(seeds@[0]@));
            assert(d@.len() > 0) by {
                if d@.len() == 0 {
                    assert(d@ =~= Set::<(int, int, int)>::empty());
                }
            }
            vstd::seq_lib::seq_to_set_is_finite(seq_views(seeds@));
            let m = seq_views(seeds@);
            assert forall|q: (int, int, int)| #[trigger] d@.contains(q) implies bbox.contains_pt(
                q,
            ) && in_space(q) by {
                assert(m.contains(q));
                let t = choose|t: int| 0 <= t < m.len() && m[t] == q;
                assert(seeds@[t]@ == q);
                assert(bbox.contains_pt((seeds@[t])@));
            }
            lemma_index_in_to_set(m, wlo0);
            assert(m[wlo0] == seeds@[wlo0]@);
            assert(d@.contains(seeds@[wlo0]@) && seeds@[wlo0]@.0 == d.bounds().lo().0);
            lemma_index_in_to_set(m, wlo1);
            assert(m[wlo1] == seeds@[wlo1]@);
            assert(d@.contains(seeds@[wlo1]@) && seeds@[wlo1]@.1 == d.bounds().lo().1);
            lemma_index_in_to_set(m, wlo2);
            assert(m[wlo2] == seeds@[wlo2]@);
            assert(d@.contains(seeds@[wlo2]@) && seeds@[wlo2]@.2 == d.bounds().lo().2);
            lemma_index_in_to_set(m, wup0);
            assert(m[wup0] == seeds@[wup0]@);
            assert(d@.contains(seeds@[wup0]@) && seeds@[wup0]@.0 == d.bounds().up().0);
            lemma_index_in_to_set(m, wup1);
            assert(m[wup1] == seeds@[wup1]@);
            assert(d@.contains(seeds@[wup1]@) && seeds@[wup1]@.1 == d.bounds().up().1);
            lemma_index_in_to_set(m, wup2);
            assert(m[wup2] == seeds@[wup2]@);
            assert(d@.contains(seeds@[wup2]@) && seeds@[wup2]@.2 == d.bounds().up().2);
        }
        Some(d)
    }

    /// Every attached cell, each exactly once, in an unspecified order.
    pub fn cells(&self) -> (r: Vec<Vec3>)
        requires
            self.wf(),
        ensures
            seq_views(r@).no_duplicates(),
            seq_views(r@).to_set() == self@,
    {
        self.cells.iter()
    }

    /// The number of attached cells.
    pub fn len(&self) -> (r: usize)
        requires
            self.wf(),
        ensures
            r == self@.len(),
    {
        self.cells.len()
    }

    /// Whether the aggregate is empty; never, once constructed.
    pub fn is_empty(&self) -> (r: bool)
        requires
            self.wf(),
        ensures
            r == (self@.len() == 0),
            !r,
    {
        self.cells.is_empty()
    }

    /// The exact bounding box of the attached cells: it contains every
    /// cell, and each of its six faces is attained by some cell.
    pub fn bbox(&self) -> (r: Bbox)
        requires
            self.wf(),
        ensures
            r == self.bounds(),
            r.wf(),
            r.box_in_space(),
            forall|q: (int, int, int)| #[trigger] self@.contains(q) ==> r.contains_pt(q),
            exists|q: (int, int, int)| #[trigger] self@.contains(q) && q.0 == r.lo().0,
            exists|q: (int, int, int)| #[trigger] self@.contains(q) && q.1 == r.lo().1,
            exists|q: (int, int, int)| #[trigger] self@.contains(q) && q.2 == r.lo().2,
            exists|q: (int, int, int)| #[trigger] self@.contains(q) && q.0 == r.up().0,
            exists|q: (int, int, int)| #[trigger] self@.contains(q) && q.1 == r.up().1,
            exists|q: (int, int, int)| #[trigger] self@.contains(q) && q.2 == r.up().2,
    {
        self.bbox
    }

    /// The neighbor a candidate at `p` would bond to: the nearest attached
    /// cell, when it lies within the attraction radius; `None` exactly when
    /// every attached cell is strictly farther than that radius.
    pub fn stuck(&self, p: Vec3) -> (r: Option<Vec3>)
        requires
            self.wf(),
            in_space(p@),
        ensures
            match r {
                Some(n) => {
                    &&& self@.contains(n@)
                    &&& in_space(n@)
                    &&& sq_dist(p@, n@) <= self.attraction_r() * self.attraction_r()
                    &&& forall|t: (int, int, int)|
                        self@.contains(t) ==> sq_dist(p@, t) >= sq_dist(p@, n@)
                },
                None => forall|t: (int, int, int)|
                    self@.contains(t) ==> sq_dist(p@, t) > self.attraction_r()
                        * self.attraction_r(),
            },
    {
        match self.cells.nearest(p) {
            Some((n, d2)) => {
                if d2 <= self.attraction_radius2 {
                    Some(n)
                } else {
                    None
                }
            },
            None => None,
        }
    }

    /// Grows the aggregate by one particle: a candidate spawns uniformly in
    /// the margin box, walks in unit-axis steps of `max(attraction_radius /
    /// 3, 1)` cells (respawning whenever it leaves the margin box), and once
    /// within the attraction radius of a neighbor bonds to the lattice cell
    /// adjacent to it on the approach side. Returns the attached position.
    /// The walk is randomized; as a defensive cap, after an astronomically
    /// large number of steps without a bond the candidate is bonded to its
    /// nearest cell outright.
    pub fn add(&mut self, rng: &mut rand::rngs::StdRng) -> (r: Vec3)
        requires
            old(self).wf(),
            old(self).can_grow(),
            old(self)@.len() < usize::MAX,
        ensures
            final(self).wf(),
            final(self)@ == old(self)@.insert(r@),
            in_space(r@),
            final(self).spawn_r() == old(self).spawn_r(),
            final(self).attraction_r() == old(self).attraction_r(),
            final(self).bounds().lo() == min3(old(self).bounds().lo(), r@),
            final(self).bounds().up() == max3(old(self).bounds().up(), r@),
            exists|n: (int, int, int)|
                {
                    &&& #[trigger] old(self)@.contains(n)
                    &&& -1 <= r@.0 - n.0 <= 1
                    &&& -1 <= r@.1 - n.1 <= 1
                    &&& -1 <= r@.2 - n.2 <= 1
                },
    {
        broadcast use vstd::set::group_set_axioms;

        let lo = self.bbox.lower().sub_scalar(self.spawn_radius);
        let hi = self.bbox.upper().add_scalar(self.spawn_radius);
        let spawn_bbox = self.bbox.expand(lo).expand(hi);
        let mut cell = respawn_cell(rng, &spawn_bbox);
        let mut fuel: u64 = 0xFFFF_FFFF_FFFF;
        while fuel > 0
            invariant
                *self == *old(self),
                self.wf(),
                self.can_grow(),
                self@.len() < usize::MAX,
                spawn_bbox.wf(),
                spawn_bbox.box_in_space(),
                spawn_bbox.contains_pt(cell@),
            decreases fuel,
        {
            match self.stuck(cell) {
                Some(n) => {
                    return self.bond(cell, n);
                },
                None => {
                    let s = self.attraction_radius / 3;
                    let step_len = if s < 1 {
                        1
                    } else {
                        s
                    };
                    proof {
                        assert(1 <= step_len <= 0xFFFFi64);
                    }
                    let dir = rand_range_i64(rng, 0, 5);
                    let delta = if dir == 0 {
                        Vec3::new(step_len, 0, 0)
                    } else if dir == 1 {
                        Vec3::new(-step_len, 0, 0)
                    } else if dir == 2 {
                        Vec3::new(0, step_len, 0)
                    } else if dir == 3 {
                        Vec3::new(0, -step_len, 0)
                    } else if dir == 4 {
                        Vec3::new(0, 0, step_len)
                    } else {
                        Vec3::new(0, 0, -step_len)
                    };
                    cell = cell.add(delta);
                    if !spawn_bbox.contains(cell) {
                        cell = respawn_cell(rng, &spawn_bbox);
                    }
                },
            }
            fuel = fuel - 1;
        }
        // the cap ran out: bond the candidate to its nearest cell outright
        let nr = self.cells.nearest(cell);
        proof {
            if nr is None {
                assert(self@.len() == 0);
            }
        }
        let (n, _d2) = nr.unwrap();
        self.bond(cell, n)
    }

    /// Attaches a candidate next to its bonding neighbor `n`: the final
    /// position is `n` plus the component-wise sign of the approach
    /// displacement, inserted into the index, with the bounding box grown
    /// to include it.
    fn bond(&mut self, cell: Vec3, n: Vec3) -> (r: Vec3)
        requires
            old(self).wf(),
            old(self).can_grow(),
            old(self)@.len() < usize::MAX,
            old(self)@.contains(n@),
            in_space(cell@),
        ensures
            final(self).wf(),
            final(self)@ == old(self)@.insert(r@),
            in_space(r@),
            final(self).spawn_r() == old(self).spawn_r(),
            final(self).attraction_r() == old(self).attraction_r(),
            final(self).bounds().lo() == min3(old(self).bounds().lo(), r@),
            final(self).bounds().up() == max3(old(self).bounds().up(), r@),
            -1 <= r@.0 - n@.0 <= 1,
            -1 <= r@.1 - n@.1 <= 1,
            -1 <= r@.2 - n@.2 <= 1,
    {
        broadcast use vstd::set::group_set_axioms;

        let d = cell.sub(n);
        let step = Vec3::new(sign_i64(d.x), sign_i64(d.y), sign_i64(d.z));
        let attach = n.add(step);
        proof {
            assert(self.bbox.contains_pt(n@));
            assert(in_space(attach@));
        }
        let ghost prelo = self.bbox.lo();
        let ghost preup = self.bbox.up();
        let _ = self.cells.add(attach);
        self.bbox = self.bbox.expand(attach);
        proof {
            assert(self@.contains(attach@));
            assert(self@.contains(n@));
            // each face of the grown box is attained by an old witness or
            // by the newly attached cell
            if attach@.0 <= prelo.0 {
                assert(self@.contains(attach@) && attach@.0 == self.bbox.lo().0);
            } else {
                let q0 = choose|q: (int, int, int)|
                    #[trigger] old(self)@.contains(q) && q.0 == prelo.0;
                assert(self@.contains(q0) && q0.0 == self.bbox.lo().0);
            }
            if attach@.1 <= prelo.1 {
                assert(self@.contains(attach@) && attach@.1 == self.bbox.lo().1);
            } else {
                let q0 = choose|q: (int, int, int)|
                    #[trigger] old(self)@.contains(q) && q.1 == prelo.1;
                assert(self@.contains(q0) && q0.1 == self.bbox.lo().1);
            }
            if attach@.2 <= prelo.2 {
                assert(self@.contains(attach@) && attach@.2 == self.bbox.lo().2);
            } else {
                let q0 = choose|q: (int, int, int)|
                    #[trigger] old(self)@.contains(q) && q.2 == prelo.2;
                assert(self@.contains(q0) && q0.2 == self.bbox.lo().2);
            }
            if attach@.0 >= preup.0 {
                assert(self@.contains(attach@) && attach@.0 == self.bbox.up().0);
            } else {
                let q0 = choose|q: (int, int, int)|
                    #[trigger] old(self)@.contains(q) && q.0 == preup.0;
                assert(self@.contains(q0) && q0.0 == self.bbox.up().0);
            }
            if attach@.1 >= preup.1 {
                assert(self@.contains(attach@) && attach@.1 == self.bbox.up().1);
            } else {
                let q0 = choose|q: (int, int, int)|
                    #[trigger] old(self)@.contains(q) && q.1 == preup.1;
                assert(self@.contains(q0) && q0.1 == self.bbox.up().1);
            }
            if attach@.2 >= preup.2 {
                assert(self@.contains(attach@) && attach@.2 == self.bbox.up().2);
            } else {
                let q0 = choose|q: (int, int, int)|
                    #[trigger] old(self)@.contains(q) && q.2 == preup.2;
                assert(self@.contains(q0) && q0.2 == self.bbox.up().2);
            }
        }
        attach
    }
}

/// Draws a uniform position within the spawn box, one axis at a time.
fn respawn_cell(rng: &mut rand::rngs::StdRng, sb: &Bbox) -> (r: Vec3)
    requires
        sb.wf(),
        sb.box_in_space(),
    ensures
        sb.contains_pt(r@),
        in_space(r@),
{
    let lo = sb.lower();
    let hi = sb.upper();
    let x = rand_range_i64(rng, lo.x, hi.x);
    let y = rand_range_i64(rng, lo.y, hi.y);
    let z = rand_range_i64(rng, lo.z, hi.z);
    Vec3::new(x, y, z)
}

/// The sign of a displacement component: the attachment step moves at most
/// one cell along each axis, toward the side the candidate came from.
fn sign_i64(v: i64) -> (r: i64)
    ensures
        r == (if v > 0 {
            1int
        } else if v < 0 {
            -1int
        } else {
            0int
        }),
{
    if v > 0 {
        1
    } else if v < 0 {
        -1
    } else {
        0
    }
}

} // verus!
