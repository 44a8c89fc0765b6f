//! An adaptive spatial index over a growing set of lattice points.
//!
//! Points inside the root box live in a recursively subdivided tree of
//! leaves and eight-way branches; points that arrive outside the root box
//! collect in an overflow set until a full rebuild re-roots the tree.

use vstd::prelude::*;
use vstd::assert_seqs_equal;
use vstd::assert_sets_equal;

use crate::geo::{in_space, seq_views, sq_dist, Bbox, Vec3};
use crate::geo::lemma_half_bounds;
use crate::pset::{pset_insert, pset_len, pset_to_vec, pset_view, pset_with_capacity, PointSet};

verus! {

/// Total extent of a box: the sum of its three axis lengths.
pub open spec fn extent_sum(b: Bbox) -> int {
    (b.up().0 - b.lo().0) + (b.up().1 - b.lo().1) + (b.up().2 - b.lo().2)
}

/// A leaf splits into a branch as soon as it holds more points than this.
pub const MAX_LEAF_SIZE: usize = 64;

/// One node of the spatial tree: either a leaf holding its points directly,
/// or a branch with exactly eight children partitioning its box.
enum Node {
    Branch { children: Vec<Node>, bbox: Bbox },
    Leaf { points: PointSet, bbox: Bbox },
}

/// Is the x-range of octant `i` the upper half of its box?
pub open spec fn oct_x_hi(i: int) -> bool {
    i == 2 || i == 3 || i == 6 || i == 7
}

/// Is the y-range of octant `i` the upper half of its box?
pub open spec fn oct_y_hi(i: int) -> bool {
    i == 4 || i == 5 || i == 6 || i == 7
}

/// Is the z-range of octant `i` the upper half of its box?
pub open spec fn oct_z_hi(i: int) -> bool {
    i == 1 || i == 3 || i == 5 || i == 7
}

/// The octant of `p` relative to center `c`: the first matching rule of a
/// fixed priority order of non-strict axis comparisons, so points on a
/// center plane land on the lower-coordinate side first.
pub open spec fn octant(p: (int, int, int), c: (int, int, int)) -> int {
    if p.0 <= c.0 && p.1 <= c.1 && p.2 <= c.2 {
        0
    } else if p.0 <= c.0 && p.1 <= c.1 && p.2 >= c.2 {
        1
    } else if p.0 >= c.0 && p.1 <= c.1 && p.2 <= c.2 {
        2
    } else if p.0 >= c.0 && p.1 <= c.1 && p.2 >= c.2 {
        3
    } else if p.0 <= c.0 && p.1 >= c.1 && p.2 <= c.2 {
        4
    } else if p.0 <= c.0 && p.1 >= c.1 && p.2 >= c.2 {
        5
    } else if p.0 >= c.0 && p.1 >= c.1 && p.2 <= c.2 {
        6
    } else {
        7
    }
}

/// Lower corner of octant `i` of a box split at its center.
pub open spec fn sub_lo(b: Bbox, i: int) -> (int, int, int) {
    (
        if oct_x_hi(i) {
            b.center_pt().0
        } else {
            b.lo().0
        },
        if oct_y_hi(i) {
            b.center_pt().1
        } else {
            b.lo().1
        },
        if oct_z_hi(i) {
            b.center_pt().2
        } else {
            b.lo().2
        },
    )
}

/// Upper corner of octant `i` of a box split at its center.
pub open spec fn sub_up(b: Bbox, i: int) -> (int, int, int) {
    (
        if oct_x_hi(i) {
            b.up().0
        } else {
            b.center_pt().0
        },
        if oct_y_hi(i) {
            b.up().1
        } else {
            b.center_pt().1
        },
        if oct_z_hi(i) {
            b.up().2
        } else {
            b.center_pt().2
        },
    )
}

/// Containment of a triple in the closed range of two corner triples.
pub open spec fn in_range3(lo: (int, int, int), up: (int, int, int), p: (int, int, int)) -> bool {
    &&& lo.0 <= p.0 <= up.0
    &&& lo.1 <= p.1 <= up.1
    &&& lo.2 <= p.2 <= up.2
}

/// Every point of a well-formed box falls in exactly one octant — the one
/// the priority rule assigns — and that octant's sub-box contains it.
pub proof fn lemma_octant_in_sub_box(b: Bbox, p: (int, int, int))
    requires
        b.wf(),
        b.box_in_space(),
        b.contains_pt(p),
    ensures
        0 <= octant(p, b.center_pt()) < 8,
        in_range3(sub_lo(b, octant(p, b.center_pt())), sub_up(b, octant(p, b.center_pt())), p),
{
    lemma_half_bounds(b.lo().0, b.up().0);
    lemma_half_bounds(b.lo().1, b.up().1);
    lemma_half_bounds(b.lo().2, b.up().2);
}

/// The sub-boxes of a well-formed box are well-formed and stay inside it.
pub proof fn lemma_sub_box_in_box(b: Bbox, i: int)
    requires
        b.wf(),
        b.box_in_space(),
        0 <= i < 8,
    ensures
        in_range3(b.lo(), b.up(), sub_lo(b, i)),
        in_range3(b.lo(), b.up(), sub_up(b, i)),
        sub_lo(b, i).0 <= sub_up(b, i).0,
        sub_lo(b, i).1 <= sub_up(b, i).1,
        sub_lo(b, i).2 <= sub_up(b, i).2,
{
    lemma_half_bounds(b.lo().0, b.up().0);
    lemma_half_bounds(b.lo().1, b.up().1);
    lemma_half_bounds(b.lo().2, b.up().2);
}

impl Node {
    /// The box this node was assigned at construction or split time.
    spec fn bbox_of(self) -> Bbox {
        match self {
            Node::Branch { bbox, .. } => bbox,
            Node::Leaf { bbox, .. } => bbox,
        }
    }

    /// All points stored in this subtree.
    spec fn contents(self) -> Set<(int, int, int)>
        decreases self,
    {
        match self {
            Node::Leaf { points, .. } => pset_view(points),
            Node::Branch { children, .. } => Node::seq_contents(children@),
        }
    }

    /// Union of the contents of a sequence of nodes.
    spec fn seq_contents(s: Seq<Node>) -> Set<(int, int, int)>
        decreases s,
    {
        if s.len() == 0 {
            Set::empty()
        } else {
            s[0].contents() + Node::seq_contents(s.drop_first())
        }
    }

    /// Structural invariant of a subtree: boxes are well-formed and lie in
    /// space, leaves are small and hold only points of their box, branches
    /// have eight children on the octants of their box, and each child holds
    /// only points that the octant rule assigns to it.
    spec fn wf(self) -> bool
        decreases self,
    {
        match self {
            Node::Leaf { points, bbox } => {
                &&& bbox.wf()
                &&& bbox.box_in_space()
                &&& pset_view(points).finite()
                &&& pset_view(points).len() <= MAX_LEAF_SIZE
                &&& forall|q: (int, int, int)|
                    pset_view(points).contains(q) ==> bbox.contains_pt(q)
            },
            Node::Branch { children, bbox } => {
                &&& bbox.wf()
                &&& bbox.box_in_space()
                &&& children@.len() == 8
                &&& Node::seq_wf(children@)
                &&& forall|i: int|
                    0 <= i < 8 ==> (#[trigger] children@[i]).bbox_of().lo() == sub_lo(bbox, i)
                &&& forall|i: int|
                    0 <= i < 8 ==> (#[trigger] children@[i]).bbox_of().up() == sub_up(bbox, i)
                &&& forall|i: int, q: (int, int, int)|
                    0 <= i < 8 && #[trigger] children@[i].contents().contains(q) ==> octant(
                        q,
                        bbox.center_pt(),
                    ) == i
            },
        }
    }

    /// The invariant, over a sequence of nodes.
    spec fn seq_wf(s: Seq<Node>) -> bool
        decreases s,
    {
        s.len() == 0 || (s[0].wf() && Node::seq_wf(s.drop_first()))
    }

    /// Builds a subtree over `bbox` holding exactly the given points: a
    /// leaf when they are at most the capacity threshold, otherwise a
    /// branch of eight recursively built octant children.
    fn new(bbox: Bbox, data: Vec<Vec3>) -> (n: Node)
        requires
            bbox.wf(),
            bbox.box_in_space(),
            seq_views(data@).no_duplicates(),
            forall|k: int| 0 <= k < data@.len() ==> bbox.contains_pt((#[trigger] data@[k])@),
        ensures
            n.wf(),
            n.bbox_of() == bbox,
            n.contents() == seq_views(data@).to_set(),
        decreases extent_sum(bbox),
    {
        let ghost m = seq_views(data@);
        proof {
            vstd::seq_lib::seq_to_set_is_finite(m);
            assert forall|q: (int, int, int)| m.to_set().contains(q) implies bbox.contains_pt(q)
                && in_space(q) by {
                assert(m.contains(q));
                let t = choose|t: int| 0 <= t < m.len() && m[t] == q;
                assert(data@[t]@ == q);
            }
        }
        if data.len() <= MAX_LEAF_SIZE {
            let mut points = pset_with_capacity(MAX_LEAF_SIZE);
            let mut k: usize = 0;
            while k < data.len()
                invariant
                    k <= data.len(),
                    m == seq_views(data@),
                    m.no_duplicates(),
                    pset_view(points) == m.subrange(0, k as int).to_set(),
                decreases data@.len() - k,
            {
                let p = data[k];
                proof {
                    assert(m[k as int] == p@);
                    assert_seqs_equal!(
                        m.subrange(0, k as int + 1),
                        m.subrange(0, k as int).push(m[k as int])
                    );
                    m.subrange(0, k as int).lemma_push_to_set_commute(m[k as int]);
                }
                let _ = pset_insert(&mut points, p);
                k = k + 1;
            }
            proof {
                assert_seqs_equal!(m.subrange(0, data@.len() as int), m);
                m.lemma_cardinality_of_set();
            }
            Node::Leaf { points, bbox }
        } else {
            let c = bbox.center();
            let sub_bboxes = split_bbox(&bbox, c);
            proof {
                m.unique_seq_to_set();
                lemma_crowded_box_has_wide_axis(bbox, m.to_set());
            }
            let mut buckets: Vec<Vec<Vec3>> = Vec::new();
            buckets.push(Vec::new());
            buckets.push(Vec::new());
            buckets.push(Vec::new());
            buckets.push(Vec::new());
            buckets.push(Vec::new());
            buckets.push(Vec::new());
            buckets.push(Vec::new());
            buckets.push(Vec::new());

            let mut k: usize = 0;
            while k < data.len()
                invariant
                    k <= data.len(),
                    buckets@.len() == 8,
                    m == seq_views(data@),
                    m.no_duplicates(),
                    forall|t: int|
                        0 <= t < data@.len() ==> bbox.contains_pt((#[trigger] data@[t])@),
                    bbox.wf(),
                    bbox.box_in_space(),
                    c@ == bbox.center_pt(),
                    forall|j: int| 0 <= j < 8 ==> bucket_views(buckets@, j).no_duplicates(),
                    forall|j: int, t: int|
                        0 <= j < 8 && 0 <= t < bucket_views(buckets@, j).len() ==> octant(
                            #[trigger] bucket_views(buckets@, j)[t],
                            bbox.center_pt(),
                        ) == j && bbox.contains_pt(bucket_views(buckets@, j)[t]),
                    m.subrange(0, k as int).to_set() == buckets_union(buckets@),
                decreases data@.len() - k,
            {
                let ghost bprev = buckets@;
                let p = data[k];
                let i = partition_pt(p, c);
                let mut b = buckets.remove(i);
                b.push(p);
                proof {
                    lemma_seq_views_push(bprev[i as int]@, p);
                }
                buckets.insert(i, b);
                proof {
                    assert_seqs_equal!(buckets@, bprev.update(i as int, buckets@[i as int]));
                    assert(bucket_views(buckets@, i as int) == bucket_views(bprev, i as int).push(
                        p@,
                    ));
                    assert(m[k as int] == p@);
                    // the new point is not yet in any bucket
                    assert(!m.subrange(0, k as int).to_set().contains(p@)) by {
                        if m.subrange(0, k as int).to_set().contains(p@) {
                            assert(m.subrange(0, k as int).contains(p@));
                            let t = choose|t: int|
                                0 <= t < k as int && m.subrange(0, k as int)[t] == p@;
                            assert(m[t] == m[k as int]);
                        }
                    }
                    assert(!bucket_views(bprev, i as int).contains(p@)) by {
                        if bucket_views(bprev, i as int).contains(p@) {
                            assert(bucket_views(bprev, i as int).to_set().contains(p@));
                            assert(buckets_union(bprev).contains(p@));
                        }
                    }
                    assert(bucket_views(buckets@, i as int).no_duplicates());
                    bucket_views(bprev, i as int).lemma_push_to_set_commute(p@);
                    assert_seqs_equal!(
                        m.subrange(0, k as int + 1),
                        m.subrange(0, k as int).push(m[k as int])
                    );
                    m.subrange(0, k as int).lemma_push_to_set_commute(m[k as int]);
                    assert_sets_equal!(
                        m.subrange(0, k as int + 1).to_set(),
                        buckets_union(buckets@)
                    );
                }
                k = k + 1;
            }
            proof {
                assert_seqs_equal!(m.subrange(0, data@.len() as int), m);
            }
            let ghost bfin = buckets@;

            let mut children: Vec<Node> = Vec::new();
            let mut j: usize = 0;
            while j < 8
                invariant
                    j <= 8,
                    children@.len() == j,
                    buckets@ == bfin.subrange(j as int, 8),
                    bfin.len() == 8,
                    bbox.wf(),
                    bbox.box_in_space(),
                    c@ == bbox.center_pt(),
                    bbox.up().0 - bbox.lo().0 >= 2 || bbox.up().1 - bbox.lo().1 >= 2 || bbox.up().2
                        - bbox.lo().2 >= 2,
                    forall|i: int|
                        0 <= i < 8 ==> (#[trigger] sub_bboxes@[i]).lo() == sub_lo(bbox, i),
                    forall|i: int|
                        0 <= i < 8 ==> (#[trigger] sub_bboxes@[i]).up() == sub_up(bbox, i),
                    forall|i: int| 0 <= i < 8 ==> bucket_views(bfin, i).no_duplicates(),
                    forall|i: int, t: int|
                        0 <= i < 8 && 0 <= t < bucket_views(bfin, i).len() ==> octant(
                            #[trigger] bucket_views(bfin, i)[t],
                            bbox.center_pt(),
                        ) == i && bbox.contains_pt(bucket_views(bfin, i)[t]),
                    forall|i: int|
                        0 <= i < j ==> (#[trigger] children@[i]).wf() && children@[i].bbox_of()
                            == sub_bboxes@[i] && children@[i].contents() == bucket_views(
                            bfin,
                            i,
                        ).to_set(),
                decreases 8 - j,
            {
                let bj = buckets.remove(0);
                proof {
                    assert(bj@ == bfin[j as int]@);
                    assert(bucket_views(bfin, j as int).no_duplicates());
                    assert(seq_views(bj@).no_duplicates());
                    assert_seqs_equal!(buckets@, bfin.subrange(j as int + 1, 8));
                    lemma_sub_box_in_box(bbox, j as int);
                    lemma_sub_box_extent_decreases(bbox, j as int);
                    assert forall|t: int| 0 <= t < bj@.len() implies sub_bboxes@[j as int].contains_pt(
                        (#[trigger] bj@[t])@,
                    ) by {
                        assert(bucket_views(bfin, j as int)[t] == bj@[t]@);
                        assert(octant(bj@[t]@, bbox.center_pt()) == j as int);
                        assert(bbox.contains_pt(bj@[t]@));
                        lemma_octant_in_sub_box(bbox, bj@[t]@);
                    }
                }
                let child = Node::new(sub_bboxes[j], bj);
                children.push(child);
                j = j + 1;
            }
            let n = Node::Branch { children, bbox };
            proof {
                lemma_seq_wf_build(children@);
                assert forall|i: int, q: (int, int, int)|
                    0 <= i < 8 && #[trigger] children@[i].contents().contains(q) implies octant(
                    q,
                    bbox.center_pt(),
                ) == i by {
                    assert(bucket_views(bfin, i).to_set().contains(q));
                    assert(bucket_views(bfin, i).contains(q));
                    let t = choose|t: int|
                        0 <= t < bucket_views(bfin, i).len() && bucket_views(bfin, i)[t] == q;
                }
                lemma_seq_contents_eight(children@);
                assert(n.contents() == m.to_set());
            }
            n
        }
    }

    /// Inserts one point into the subtree, splitting a leaf that outgrows
    /// its capacity; returns whether the point was absent before.
    fn add(&mut self, p: Vec3) -> (newly: bool)
        requires
            old(self).wf(),
            old(self).bbox_of().contains_pt(p@),
            in_space(p@),
        ensures
            final(self).wf(),
            final(self).bbox_of() == old(self).bbox_of(),
            final(self).contents() == old(self).contents().insert(p@),
            newly == !old(self).contents().contains(p@),
        decreases *old(self),
    {
        match self {
            Node::Leaf { points, bbox } => {
                broadcast use vstd::set::group_set_axioms;

                let newly = pset_insert(points, p);
                let n = pset_len(points);
                if n > MAX_LEAF_SIZE {
                    let bb = *bbox;
                    let data = pset_to_vec(points);
                    proof {
                        assert forall|t: int| 0 <= t < data@.len() implies bb.contains_pt(
                            (#[trigger] data@[t])@,
                        ) by {
                            assert(seq_views(data@)[t] == data@[t]@);
                            assert(seq_views(data@).to_set().contains(data@[t]@));
                        }
                    }
                    *self = Node::new(bb, data);
                }
                newly
            },
            Node::Branch { children, bbox } => {
                let ghost oldkids = children@;
                let ghost b = *bbox;
                proof {
                    lemma_octant_in_sub_box(b, p@);
                }
                let c = bbox.center();
                let i = partition_pt(p, c);
                let mut ch = children.remove(i);
                proof {
                    lemma_seq_wf_index(oldkids, i as int);
                    assert(ch.bbox_of().lo() == sub_lo(b, i as int));
                    assert(ch.bbox_of().contains_pt(p@));
                }
                let newly = ch.add(p);
                children.insert(i, ch);
                proof {
                    assert_seqs_equal!(children@, oldkids.update(i as int, children@[i as int]));
                    let kids = children@;
                    let newch = kids[i as int];
                    lemma_seq_contents_update(oldkids, i as int, newch, p@);
                    assert forall|t: int| 0 <= t < 8 implies (#[trigger] kids[t]).wf() by {
                        if t != i as int {
                            lemma_seq_wf_index(oldkids, t);
                        }
                    }
                    lemma_seq_wf_build(kids);
                    // each child still answers only to its own octant
                    assert forall|t: int, q: (int, int, int)|
                        0 <= t < 8 && #[trigger] kids[t].contents().contains(q) implies octant(
                        q,
                        b.center_pt(),
                    ) == t by {
                        if t == i as int {
                            if q != p@ {
                                assert(oldkids[t].contents().contains(q));
                            }
                        } else {
                            assert(oldkids[t].contents().contains(q));
                        }
                    }
                    // membership in the branch pins down membership in child i
                    assert(Node::seq_contents(oldkids).contains(p@) == oldkids[i as int].contents()
                        .contains(p@)) by {
                        if Node::seq_contents(oldkids).contains(p@) {
                            lemma_seq_contents_origin(oldkids, p@);
                            let t = choose|t: int|
                                0 <= t < oldkids.len() && #[trigger] oldkids[t].contents().contains(
                                    p@,
                                );
                            assert(octant(p@, b.center_pt()) == t);
                        }
                        if oldkids[i as int].contents().contains(p@) {
                            lemma_seq_contents_member(oldkids, i as int, p@);
                        }
                    }
                }
                newly
            },
        }
    }

    /// The box this node was assigned.
    fn bbox(&self) -> (r: &Bbox)
        ensures
            *r == self.bbox_of(),
    {
        match self {
            Node::Branch { bbox, .. } => bbox,
            Node::Leaf { bbox, .. } => bbox,
        }
    }

    /// The stored point closest to `p`, with its exact squared distance:
    /// a linear scan at a leaf, and a best-first descent with exact
    /// box-distance pruning at a branch. `None` exactly on an empty subtree.
    fn nearest(&self, p: Vec3) -> (r: Option<(Vec3, i64)>)
        requires
            self.wf(),
            in_space(p@),
        ensures
            match r {
                None => self.contents() == empty_pts(),
                Some(pr) => {
                    &&& self.contents().contains(pr.0@)
                    &&& in_space(pr.0@)
                    &&& pr.1 == sq_dist(p@, pr.0@)
                    &&& forall|t: (int, int, int)|
                        self.contents().contains(t) ==> sq_dist(p@, t) >= pr.1
                },
            },
        decreases *self,
    {
        match self {
            Node::Leaf { points, bbox } => {
                let pts = pset_to_vec(points);
                let ghost m = seq_views(pts@);
                let mut best: Option<(Vec3, i64)> = None;
                let mut k: usize = 0;
                while k < pts.len()
                    invariant
                        k <= pts.len(),
                        m == seq_views(pts@),
                        m.to_set() == pset_view(*points),
                        self.wf(),
                        in_space(p@),
                        *self == (Node::Leaf { points: *points, bbox: *bbox }),
                        best is None ==> k == 0,
                        match best {
                            None => true,
                            Some(pr) => {
                                &&& pset_view(*points).contains(pr.0@)
                                &&& in_space(pr.0@)
                                &&& pr.1 == sq_dist(p@, pr.0@)
                                &&& forall|t: int|
                                    0 <= t < k ==> sq_dist(p@, #[trigger] m[t]) >= pr.1
                            },
                        },
                    decreases pts@.len() - k,
                {
                    let q = pts[k];
                    proof {
                        assert(m[k as int] == q@);
                        assert(m.to_set().contains(q@));
                        assert(bbox.contains_pt(q@));
                    }
                    let d = p.dist2(q);
                    match best {
                        None => {
                            best = Some((q, d));
                        },
                        Some(pr) => {
                            if d < pr.1 || (d == pr.1 && lex_less(q, pr.0)) {
                                best = Some((q, d));
                            }
                        },
                    }
                    k = k + 1;
                }
                proof {
                    match best {
                        None => {
                            assert(pts@.len() == 0);
                            assert_sets_equal!(m.to_set(), empty_pts());
                        },
                        Some(pr) => {
                            assert forall|t: (int, int, int)|
                                self.contents().contains(t) implies sq_dist(p@, t) >= pr.1 by {
                                assert(m.contains(t));
                                let j = choose|j: int| 0 <= j < m.len() && m[j] == t;
                                assert(sq_dist(p@, m[j]) >= pr.1);
                            }
                        },
                    }
                }
                best
            },
            Node::Branch { children, bbox } => {
                let ghost b = *bbox;
                let ghost kids = children@;
                let c = bbox.center();
                let enclosing = partition_pt(p, c);
                proof {
                    lemma_seq_wf_index(kids, enclosing as int);
                }
                let mut best = children[enclosing].nearest(p);
                proof {
                    if best is Some {
                        lemma_seq_contents_member(kids, enclosing as int, best->Some_0.0@);
                    }
                }
                let mut k: usize = 0;
                while k < 8
                    invariant
                        k <= 8,
                        self.wf(),
                        in_space(p@),
                        *self == (Node::Branch { children: *children, bbox: *bbox }),
                        kids == children@,
                        kids.len() == 8,
                        enclosing < 8,
                        match best {
                            None => forall|j: int|
                                (j == enclosing as int || 0 <= j < k) && 0 <= j < 8 ==> (
                                #[trigger] kids[j]).contents() == empty_pts(),
                            Some(pr) => {
                                &&& Node::seq_contents(kids).contains(pr.0@)
                                &&& in_space(pr.0@)
                                &&& pr.1 == sq_dist(p@, pr.0@)
                                &&& forall|j: int, t: (int, int, int)|
                                    (j == enclosing as int || 0 <= j < k) && 0 <= j < 8 && (
                                    #[trigger] kids[j].contents().contains(t)) ==> sq_dist(p@, t)
                                        >= pr.1
                            },
                        },
                    decreases 8 - k,
                {
                    if k != enclosing {
                        proof {
                            lemma_seq_wf_index(kids, k as int);
                            lemma_contents_in_bbox(kids[k as int]);
                        }
                        match best {
                            None => {
                                let cand = children[k].nearest(p);
                                proof {
                                    if cand is Some {
                                        lemma_seq_contents_member(kids, k as int, cand->Some_0.0@);
                                    }
                                }
                                best = cand;
                            },
                            Some(pr) => {
                                let bd = children[k].bbox().dist2(p);
                                if bd < pr.1 {
                                    let cand = children[k].nearest(p);
                                    proof {
                                        if cand is Some {
                                            lemma_seq_contents_member(
                                                kids,
                                                k as int,
                                                cand->Some_0.0@,
                                            );
                                        }
                                    }
                                    match cand {
                                        Some(cr) => {
                                            if cr.1 < pr.1 {
                                                best = Some(cr);
                                            }
                                        },
                                        None => {},
                                    }
                                } else {
                                    // the whole child box is no closer than the best
                                    proof {
                                        assert forall|t: (int, int, int)|
                                            kids[k as int].contents().contains(t) implies sq_dist(
                                            p@,
                                            t,
                                        ) >= pr.1 by {
                                            assert(kids[k as int].bbox_of().contains_pt(t));
                                            crate::geo::lemma_box_dist2_lower_bound(
                                                kids[k as int].bbox_of(),
                                                p@,
                                                t,
                                            );
                                        }
                                    }
                                }
                            },
                        }
                    }
                    k = k + 1;
                }
                proof {
                    match best {
                        None => {
                            lemma_seq_contents_eight(kids);
                            assert_sets_equal!(Node::seq_contents(kids), empty_pts());
                        },
                        Some(pr) => {
                            assert forall|t: (int, int, int)|
                                self.contents().contains(t) implies sq_dist(p@, t) >= pr.1 by {
                                lemma_seq_contents_origin(kids, t);
                                let j = choose|j: int|
                                    0 <= j < kids.len() && #[trigger] kids[j].contents().contains(
                                        t,
                                    );
                            }
                        },
                    }
                }
                best
            },
        }
    }

    /// Appends every stored point of the subtree to `out`, depth first;
    /// the appended block enumerates the subtree's contents exactly once.
    fn collect_into(&self, out: &mut Vec<Vec3>)
        requires
            self.wf(),
        ensures
            final(out)@.len() >= old(out)@.len(),
            final(out)@.subrange(0, old(out)@.len() as int) == old(out)@,
            seq_views(final(out)@.skip(old(out)@.len() as int)).no_duplicates(),
            seq_views(final(out)@.skip(old(out)@.len() as int)).to_set() == self.contents(),
        decreases *self,
    {
        let ghost base = out@;
        match self {
            Node::Leaf { points, .. } => {
                let mut pts = pset_to_vec(points);
                let ghost seg = pts@;
                out.append(&mut pts);
                proof {
                    assert_seqs_equal!(out@.subrange(0, base.len() as int), base);
                    assert_seqs_equal!(out@.skip(base.len() as int), seg);
                }
            },
            Node::Branch { children, .. } => {
                let ghost kids = children@;
                let mut k: usize = 0;
                while k < 8
                    invariant
                        k <= 8,
                        self.wf(),
                        *self == (Node::Branch {
                            children: *children,
                            bbox: self.bbox_of(),
                        }),
                        kids == children@,
                        kids.len() == 8,
                        out@.len() >= base.len(),
                        out@.subrange(0, base.len() as int) == base,
                        seq_views(out@.skip(base.len() as int)).no_duplicates(),
                        seq_views(out@.skip(base.len() as int)).to_set() == Node::seq_contents(
                            kids.subrange(0, k as int),
                        ),
                    decreases 8 - k,
                {
                    let ghost pre = out@;
                    proof {
                        lemma_seq_wf_index(kids, k as int);
                    }
                    children[k].collect_into(out);
                    proof {
                        let n0 = base.len() as int;
                        let n1 = pre.len() as int;
                        let whole = out@.skip(n0);
                        let older = pre.skip(n0);
                        let newer = out@.skip(n1);
                        assert_seqs_equal!(out@.subrange(0, n0), base);
                        assert_seqs_equal!(whole, older + newer);
                        lemma_seq_views_concat(older, newer);
                        vstd::seq_lib::seq_to_set_distributes_over_add(
                            seq_views(older),
                            seq_views(newer),
                        );
                        // the freshly appended points are disjoint from the
                        // earlier children's: they live in different octants
                        assert forall|a: int, bq: int|
                            0 <= a < seq_views(older).len() && 0 <= bq < seq_views(newer).len()
                            implies seq_views(older)[a] != seq_views(newer)[bq] by {
                            let ta = seq_views(older)[a];
                            let tb = seq_views(newer)[bq];
                            assert(seq_views(older).to_set().contains(ta));
                            assert(seq_views(newer).to_set().contains(tb));
                            lemma_seq_contents_origin(kids.subrange(0, k as int), ta);
                            let j = choose|j: int|
                                0 <= j < k as int && #[trigger] kids.subrange(0, k as int)[j]
                                    .contents().contains(ta);
                            assert(kids[j].contents().contains(ta));
                            assert(octant(ta, self.bbox_of().center_pt()) == j);
                            assert(kids[k as int].contents().contains(tb));
                            assert(octant(tb, self.bbox_of().center_pt()) == k as int);
                        }
                        vstd::seq_lib::lemma_no_dup_in_concat(seq_views(older), seq_views(newer));
                        assert_seqs_equal!(
                            kids.subrange(0, k as int + 1),
                            kids.subrange(0, k as int).push(kids[k as int])
                        );
                        lemma_seq_contents_push(kids.subrange(0, k as int), kids[k as int]);
                    }
                    k = k + 1;
                }
                proof {
                    assert_seqs_equal!(kids.subrange(0, 8), kids);
                }
            },
        }
    }
}

/// The contents of a well-formed subtree form a finite set.
proof fn lemma_contents_finite(n: Node)
    requires
        n.wf(),
    ensures
        n.contents().finite(),
    decreases n,
{
    broadcast use vstd::set::group_set_axioms;

    match n {
        Node::Leaf { .. } => {},
        Node::Branch { children, .. } => {
            lemma_seq_contents_finite(children@);
        },
    }
}

/// The contents of a sequence of well-formed nodes form a finite set.
proof fn lemma_seq_contents_finite(s: Seq<Node>)
    requires
        Node::seq_wf(s),
    ensures
        Node::seq_contents(s).finite(),
    decreases s,
{
    broadcast use vstd::set::group_set_axioms;

    if s.len() > 0 {
        lemma_contents_finite(s[0]);
        lemma_seq_contents_finite(s.drop_first());
    }
}

/// Mapping to coordinate triples commutes with concatenation.
proof fn lemma_seq_views_concat(a: Seq<Vec3>, b: Seq<Vec3>)
    ensures
        seq_views(a + b) == seq_views(a) + seq_views(b),
{
    assert_seqs_equal!(seq_views(a + b), seq_views(a) + seq_views(b));
}

/// Appending one node at the end of a sequence adds exactly its contents.
proof fn lemma_seq_contents_push(s: Seq<Node>, n: Node)
    ensures
        Node::seq_contents(s.push(n)) == Node::seq_contents(s) + n.contents(),
    decreases s.len(),
{
    if s.len() == 0 {
        assert(s.push(n)[0] == n);
        assert_seqs_equal!(s.push(n).drop_first(), Seq::<Node>::empty());
        assert(Node::seq_contents(s.push(n).drop_first()) == empty_pts());
        assert_sets_equal!(
            n.contents() + Set::<(int, int, int)>::empty(),
            Set::<(int, int, int)>::empty() + n.contents()
        );
    } else {
        lemma_seq_contents_push(s.drop_first(), n);
        assert_seqs_equal!(s.push(n).drop_first(), s.drop_first().push(n));
        assert(s.push(n)[0] == s[0]);
        assert_sets_equal!(
            s[0].contents() + (Node::seq_contents(s.drop_first()) + n.contents()),
            (s[0].contents() + Node::seq_contents(s.drop_first())) + n.contents()
        );
    }
}

/// Lexicographic order on points, used only to resolve distance ties
/// deterministically, so a query's answer depends on the stored set alone
/// and never on iteration order.
fn lex_less(a: Vec3, b: Vec3) -> bool {
    a.x < b.x || (a.x == b.x && (a.y < b.y || (a.y == b.y && a.z < b.z)))
}

/// The empty set of coordinate triples.
pub open spec fn empty_pts() -> Set<(int, int, int)> {
    Set::empty()
}

/// Updating one node of a sequence to hold one more point inserts exactly
/// that point into the sequence's contents.
proof fn lemma_seq_contents_update(s: Seq<Node>, i: int, n: Node, q: (int, int, int))
    requires
        0 <= i < s.len(),
        n.contents() == s[i].contents().insert(q),
    ensures
        Node::seq_contents(s.update(i, n)) == Node::seq_contents(s).insert(q),
    decreases s.len(),
{
    if i == 0 {
        assert_seqs_equal!(s.update(0, n).drop_first(), s.drop_first());
        assert(s.update(0, n)[0] == n);
        assert_sets_equal!(
            s[0].contents().insert(q) + Node::seq_contents(s.drop_first()),
            (s[0].contents() + Node::seq_contents(s.drop_first())).insert(q)
        );
    } else {
        lemma_seq_contents_update(s.drop_first(), i - 1, n, q);
        assert_seqs_equal!(s.update(i, n).drop_first(), s.drop_first().update(i - 1, n));
        assert(s.update(i, n)[0] == s[0]);
        assert_sets_equal!(
            s[0].contents() + Node::seq_contents(s.drop_first()).insert(q),
            (s[0].contents() + Node::seq_contents(s.drop_first())).insert(q)
        );
    }
}

/// The spatial index: a point set answering insertion, nearest-neighbor
/// queries and enumeration. Points inside the root box live in the tree;
/// points arriving outside it collect in an overflow set until a rebuild.
pub struct Octree {
    root: Option<Node>,
    outside: PointSet,
    len: usize,
    rebuilt_count: usize,
}

impl View for Octree {
    type V = Set<(int, int, int)>;

    /// The set of all stored points, as coordinate triples.
    closed spec fn view(&self) -> Set<(int, int, int)> {
        self.tree_view() + self.outside_view()
    }
}

impl Octree {
    /// The points held by the tree under the root.
    pub closed spec fn tree_view(self) -> Set<(int, int, int)> {
        match self.root {
            Some(n) => n.contents(),
            None => Set::empty(),
        }
    }

    /// The points held aside because they fell outside the root's box.
    pub closed spec fn outside_view(self) -> Set<(int, int, int)> {
        pset_view(self.outside)
    }

    /// The root's box, if a root exists.
    pub closed spec fn root_box(self) -> Option<Bbox> {
        match self.root {
            Some(n) => Some(n.bbox_of()),
            None => None,
        }
    }

    /// How many times the index has been rebuilt from scratch.
    pub closed spec fn rebuilds(self) -> int {
        self.rebuilt_count as int
    }

    /// The index's invariant: the tree is well-formed, overflow points lie
    /// outside the root's box and within coordinate space, and the stored
    /// count is the exact number of distinct points.
    pub closed spec fn wf(self) -> bool {
        &&& match self.root {
            Some(n) => n.wf() && forall|q: (int, int, int)|
                #[trigger] pset_view(self.outside).contains(q) ==> !n.bbox_of().contains_pt(q),
            None => true,
        }
        &&& pset_view(self.outside).finite()
        &&& forall|q: (int, int, int)|
            #[trigger] pset_view(self.outside).contains(q) ==> in_space(q)
        &&& self.len == self@.len()
        &&& self.rebuilds() <= self.tree_view().len()
    }

    /// An empty index with no root box yet.
    pub fn new() -> (r: Octree)
        ensures
            r.wf(),
            r@ == empty_pts(),
            r.root_box() is None,
            r.rebuilds() == 0,
    {
        let r = Octree {
            root: None,
            outside: pset_with_capacity(MAX_LEAF_SIZE),
            len: 0,
            rebuilt_count: 0,
        };
        proof {
            broadcast use vstd::set::group_set_axioms;

            assert_sets_equal!(r@, empty_pts());
        }
        r
    }

    /// An empty index whose root box is fixed up front, so points within it
    /// never force a rebuild.
    pub fn with_hint(bbox: Bbox) -> (r: Octree)
        requires
            bbox.wf(),
            bbox.box_in_space(),
        ensures
            r.wf(),
            r@ == empty_pts(),
            r.root_box() == Some(bbox),
            r.rebuilds() == 0,
    {
        let root = Node::new(bbox, Vec::new());
        proof {
            broadcast use vstd::set::group_set_axioms;

            assert(seq_views(Seq::<Vec3>::empty()).len() == 0);
            assert_sets_equal!(seq_views(Seq::<Vec3>::empty()).to_set(), empty_pts());
        }
        let r = Octree {
            root: Some(root),
            outside: pset_with_capacity(MAX_LEAF_SIZE),
            len: 0,
            rebuilt_count: 0,
        };
        proof {
            broadcast use vstd::set::group_set_axioms;

            assert_sets_equal!(r@, empty_pts());
        }
        r
    }

    /// The number of distinct stored points.
    pub fn len(&self) -> (r: usize)
        requires
            self.wf(),
        ensures
            r == self@.len(),
    {
        self.len
    }

    /// Whether no point is stored.
    pub fn is_empty(&self) -> (r: bool)
        requires
            self.wf(),
        ensures
            r == (self@.len() == 0),
    {
        self.len == 0
    }

    /// How many times the whole index has been rebuilt.
    pub fn rebuilt_count(&self) -> (r: usize)
        ensures
            r as int == self.rebuilds(),
    {
        self.rebuilt_count
    }

    /// Every stored point, each exactly once, in an unspecified order.
    pub fn iter(&self) -> (r: Vec<Vec3>)
        requires
            self.wf(),
        ensures
            seq_views(r@).no_duplicates(),
            seq_views(r@).to_set() == self@,
    {
        let mut out: Vec<Vec3> = Vec::new();
        match &self.root {
            Some(n) => n.collect_into(&mut out),
            None => {},
        }
        let ghost tree_part = out@;
        let mut ov = pset_to_vec(&self.outside);
        let ghost out_part = ov@;
        out.append(&mut ov);
        proof {
            broadcast use vstd::set::group_set_axioms;

            assert_seqs_equal!(tree_part.skip(0), tree_part);
            assert(seq_views(tree_part).to_set() == self.tree_view());
            lemma_seq_views_concat(tree_part, out_part);
            vstd::seq_lib::seq_to_set_distributes_over_add(
                seq_views(tree_part),
                seq_views(out_part),
            );
            assert forall|a: int, b: int|
                0 <= a < seq_views(tree_part).len() && 0 <= b < seq_views(out_part).len()
                implies seq_views(tree_part)[a] != seq_views(out_part)[b] by {
                let ta = seq_views(tree_part)[a];
                let tb = seq_views(out_part)[b];
                assert(seq_views(tree_part).to_set().contains(ta));
                assert(seq_views(out_part).to_set().contains(tb));
                if self.root is Some {
                    let n = self.root->Some_0;
                    lemma_contents_in_bbox(n);
                    assert(n.bbox_of().contains_pt(ta));
                    assert(!n.bbox_of().contains_pt(tb));
                }
            }
            vstd::seq_lib::lemma_no_dup_in_concat(seq_views(tree_part), seq_views(out_part));
        }
        out
    }

    /// Inserts a point: a no-op on a point already present. A point outside
    /// the root's box goes to the overflow set, and once that set outgrows
    /// the leaf capacity the whole index is rebuilt around a fresh bounding
    /// box. Returns whether the point was newly inserted.
    pub fn add(&mut self, p: Vec3) -> (newly: bool)
        requires
            old(self).wf(),
            in_space(p@),
            old(self)@.len() < usize::MAX,
        ensures
            final(self).wf(),
            final(self)@ == old(self)@.insert(p@),
            newly == !old(self)@.contains(p@),
            final(self).rebuilds() >= old(self).rebuilds(),
            old(self).root_box() is Some && old(self).root_box()->Some_0.contains_pt(p@)
                ==> final(self).root_box() == old(self).root_box() && final(self).rebuilds()
                == old(self).rebuilds(),
    {
        broadcast use vstd::set::group_set_axioms;

        let inside = match &self.root {
            Some(n) => n.bbox().contains(p),
            None => false,
        };
        if !inside {
            proof {
                if self.root is Some {
                    let n = self.root->Some_0;
                    lemma_contents_in_bbox(n);
                    assert(!self.tree_view().contains(p@));
                }
                if self.root is None {
                    assert(self.tree_view() == Set::<(int, int, int)>::empty());
                }
                lemma_view_finite(*self);
            }
            let newly = pset_insert(&mut self.outside, p);
            if newly {
                self.len = self.len + 1;
            }
            proof {
                assert_sets_equal!(self@, old(self)@.insert(p@));
            }
            let n_out = pset_len(&self.outside);
            if n_out > MAX_LEAF_SIZE {
                self.rebuild();
            }
            newly
        } else {
            proof {
                lemma_view_finite(*self);
            }
            let mut root = self.root.take().unwrap();
            let ghost oldroot = root;
            let newly = root.add(p);
            self.root = Some(root);
            if newly {
                self.len = self.len + 1;
            }
            proof {
                assert(!pset_view(self.outside).contains(p@));
                assert_sets_equal!(self@, old(self)@.insert(p@));
            }
            newly
        }
    }

    /// Rebuilds the whole index: every stored point is collected, a fresh
    /// bounding box over all of them is computed, and a new root is built
    /// holding everything; the overflow set empties.
    fn rebuild(&mut self)
        requires
            old(self).wf(),
            old(self)@.len() > 0,
            old(self)@.len() <= usize::MAX,
            pset_view(old(self).outside).len() > MAX_LEAF_SIZE,
        ensures
            final(self).wf(),
            final(self)@ == old(self)@,
            final(self).rebuilds() == old(self).rebuilds() + 1,
    {
        broadcast use vstd::set::group_set_axioms;

        let mut all: Vec<Vec3> = Vec::new();
        match &self.root {
            Some(n) => n.collect_into(&mut all),
            None => {},
        }
        let ghost tree_part = all@;
        let mut ov = pset_to_vec(&self.outside);
        let ghost out_part = ov@;
        all.append(&mut ov);
        proof {
            assert_seqs_equal!(tree_part.skip(0), tree_part);
            assert(seq_views(tree_part).to_set() == self.tree_view());
            lemma_seq_views_concat(tree_part, out_part);
            vstd::seq_lib::seq_to_set_distributes_over_add(
                seq_views(tree_part),
                seq_views(out_part),
            );
            assert forall|a: int, b: int|
                0 <= a < seq_views(tree_part).len() && 0 <= b < seq_views(out_part).len()
                implies seq_views(tree_part)[a] != seq_views(out_part)[b] by {
                let ta = seq_views(tree_part)[a];
                let tb = seq_views(out_part)[b];
                assert(seq_views(tree_part).to_set().contains(ta));
                assert(seq_views(out_part).to_set().contains(tb));
                if self.root is Some {
                    let n = self.root->Some_0;
                    lemma_contents_in_bbox(n);
                    assert(n.bbox_of().contains_pt(ta));
                    assert(!n.bbox_of().contains_pt(tb));
                }
            }
            vstd::seq_lib::lemma_no_dup_in_concat(seq_views(tree_part), seq_views(out_part));
            assert(seq_views(all@).to_set() == self@);
            if all@.len() == 0 {
                assert_sets_equal!(seq_views(all@).to_set(), empty_pts());
                assert(self@.len() == 0);
            }
        }
        let first = all[0];
        let mut bb = Bbox::new(first);
        let mut k: usize = 1;
        proof {
            assert(seq_views(all@)[0] == first@);
            assert(seq_views(all@).to_set().contains(first@));
            assert(in_space(first@)) by {
                lemma_view_in_space(*self, first@);
            }
        }
        while k < all.len()
            invariant
                1 <= k <= all@.len(),
                self.wf(),
                seq_views(all@).to_set() == self@,
                bb.wf(),
                bb.box_in_space(),
                forall|t: int| 0 <= t < k ==> bb.contains_pt(#[trigger] seq_views(all@)[t]),
            decreases all@.len() - k,
        {
            let q = all[k];
            proof {
                assert(seq_views(all@)[k as int] == q@);
                assert(seq_views(all@).to_set().contains(q@));
                lemma_view_in_space(*self, q@);
            }
            bb = bb.expand(q);
            k = k + 1;
        }
        proof {
            assert forall|t: int| 0 <= t < all@.len() implies bb.contains_pt(
                (#[trigger] all@[t])@,
            ) by {
                assert(seq_views(all@)[t] == all@[t]@);
            }
        }
        proof {
            // the rebuild counter stays well below the count of points it
            // has moved into the tree, so the increment cannot overflow
            lemma_containment_partition(*old(self));
            lemma_view_finite(*old(self));
            vstd::set_lib::lemma_set_disjoint_lens(
                old(self).tree_view(),
                old(self).outside_view(),
            );
        }
        let root = Node::new(bb, all);
        self.root = Some(root);
        self.outside = pset_with_capacity(MAX_LEAF_SIZE);
        self.rebuilt_count = self.rebuilt_count + 1;
        proof {
            assert_sets_equal!(self@, old(self)@);
        }
    }

    /// The stored point nearest to `p` with its exact squared distance, or
    /// `None` exactly when the index is empty. Ties may resolve either way.
    pub fn nearest(&self, p: Vec3) -> (r: Option<(Vec3, i64)>)
        requires
            self.wf(),
            in_space(p@),
        ensures
            match r {
                None => self@ == empty_pts(),
                Some(pr) => {
                    &&& self@.contains(pr.0@)
                    &&& in_space(pr.0@)
                    &&& pr.1 == sq_dist(p@, pr.0@)
                    &&& forall|t: (int, int, int)| self@.contains(t) ==> sq_dist(p@, t) >= pr.1
                },
            },
    {
        broadcast use vstd::set::group_set_axioms;

        let closest = match &self.root {
            Some(n) => n.nearest(p),
            None => None,
        };
        let ov = pset_to_vec(&self.outside);
        let ghost m = seq_views(ov@);
        let mut closest_outside: Option<(Vec3, i64)> = None;
        let mut k: usize = 0;
        while k < ov.len()
            invariant
                k <= ov@.len(),
                m == seq_views(ov@),
                m.to_set() == self.outside_view(),
                self.wf(),
                in_space(p@),
                closest_outside is None ==> k == 0,
                match closest_outside {
                    None => true,
                    Some(pr) => {
                        &&& self.outside_view().contains(pr.0@)
                        &&& in_space(pr.0@)
                        &&& pr.1 == sq_dist(p@, pr.0@)
                        &&& forall|t: int| 0 <= t < k ==> sq_dist(p@, #[trigger] m[t]) >= pr.1
                    },
                },
            decreases ov@.len() - k,
        {
            let q = ov[k];
            proof {
                assert(m[k as int] == q@);
                assert(m.to_set().contains(q@));
            }
            let d = p.dist2(q);
            match closest_outside {
                None => {
                    closest_outside = Some((q, d));
                },
                Some(pr) => {
                    if d < pr.1 || (d == pr.1 && lex_less(q, pr.0)) {
                        closest_outside = Some((q, d));
                    }
                },
            }
            k = k + 1;
        }
        proof {
            if closest_outside is None {
                assert(ov@.len() == 0);
                assert_sets_equal!(m.to_set(), empty_pts());
            }
            if closest_outside is Some {
                let pr = closest_outside->Some_0;
                assert forall|t: (int, int, int)|
                    self.outside_view().contains(t) implies sq_dist(p@, t) >= pr.1 by {
                    assert(m.contains(t));
                    let j = choose|j: int| 0 <= j < m.len() && m[j] == t;
                    assert(sq_dist(p@, m[j]) >= pr.1);
                }
            }
        }
        let r = match (closest, closest_outside) {
            (None, None) => None,
            (Some(n1), None) => Some(n1),
            (None, Some(n2)) => Some(n2),
            (Some(n1), Some(n2)) => {
                if n1.1 < n2.1 {
                    Some(n1)
                } else {
                    Some(n2)
                }
            },
        };
        proof {
            match r {
                None => {
                    assert_sets_equal!(self@, empty_pts());
                },
                Some(pr) => {
                    assert forall|t: (int, int, int)| self@.contains(t) implies sq_dist(p@, t)
                        >= pr.1 by {
                        assert(self.tree_view().contains(t) || self.outside_view().contains(t));
                    }
                },
            }
        }
        r
    }
}

/// The view of a well-formed index is finite.
proof fn lemma_view_finite(o: Octree)
    requires
        o.wf(),
    ensures
        o@.finite(),
        o.tree_view().finite(),
        o.outside_view().finite(),
{
    broadcast use vstd::set::group_set_axioms;

    match o.root {
        Some(n) => {
            lemma_contents_finite(n);
        },
        None => {},
    }
}

/// Every stored point of a well-formed index lies within coordinate space.
proof fn lemma_view_in_space(o: Octree, q: (int, int, int))
    requires
        o.wf(),
        o@.contains(q),
    ensures
        in_space(q),
{
    if o.tree_view().contains(q) {
        let n = o.root->Some_0;
        lemma_contents_in_bbox(n);
    }
}

/// Set semantics of insertion: adding a point twice is the same as adding
/// it once, and adding a point already stored changes nothing — so a
/// repeated `add` leaves both the count and the enumeration unchanged.
pub proof fn lemma_add_idempotent(s: Set<(int, int, int)>, p: (int, int, int))
    ensures
        s.insert(p).insert(p) == s.insert(p),
        s.contains(p) ==> s.insert(p) == s,
{
    broadcast use vstd::set::group_set_axioms;

    assert_sets_equal!(s.insert(p).insert(p), s.insert(p));
    if s.contains(p) {
        assert_sets_equal!(s.insert(p), s);
    }
}

/// Ownership partition of the index: the stored set splits into the tree
/// part and the overflow part; tree points lie inside the root's box,
/// overflow points lie outside it, and no point is claimed by both.
pub proof fn lemma_containment_partition(o: Octree)
    requires
        o.wf(),
    ensures
        o@ == o.tree_view() + o.outside_view(),
        o.tree_view().disjoint(o.outside_view()),
        o.root_box() is None ==> o.tree_view() == empty_pts(),
        forall|q: (int, int, int)|
            #[trigger] o.tree_view().contains(q) ==> o.root_box() is Some
                && o.root_box()->Some_0.contains_pt(q),
        forall|q: (int, int, int)|
            #[trigger] o.outside_view().contains(q) ==> (o.root_box() is Some
                ==> !o.root_box()->Some_0.contains_pt(q)),
{
    broadcast use vstd::set::group_set_axioms;

    if o.root_box() is Some {
        lemma_contents_in_bbox(o.root_box_node());
    }
}

/// Rebuild correctness, at the model level: a nearest query at a stored
/// point must answer with that very point at squared distance zero —
/// whatever rebuilds have reshaped the index in between, since `add` and
/// `rebuild` preserve the stored set that `nearest`'s contract speaks of.
pub proof fn lemma_nearest_at_stored_point(
    s: Set<(int, int, int)>,
    p: (int, int, int),
    q: (int, int, int),
    d: int,
)
    requires
        s.contains(p),
        s.contains(q),
        d == sq_dist(p, q),
        forall|t: (int, int, int)| s.contains(t) ==> sq_dist(p, t) >= d,
    ensures
        d == 0,
        q == p,
{
    assert(sq_dist(p, p) == 0) by (nonlinear_arith);
    assert(sq_dist(p, q) >= 0 && (sq_dist(p, q) == 0 ==> q == p)) by (nonlinear_arith);
}

impl Octree {
    /// The root node, where one exists; a helper for the partition law.
    spec fn root_box_node(self) -> Node {
        self.root->Some_0
    }
}

/// The coordinate triples of one bucket of a partition in progress.
spec fn bucket_views(bs: Seq<Vec<Vec3>>, j: int) -> Seq<(int, int, int)> {
    seq_views(bs[j]@)
}

/// The union of the contents of all eight buckets.
spec fn buckets_union(bs: Seq<Vec<Vec3>>) -> Set<(int, int, int)> {
    bucket_views(bs, 0).to_set() + bucket_views(bs, 1).to_set() + bucket_views(bs, 2).to_set()
        + bucket_views(bs, 3).to_set() + bucket_views(bs, 4).to_set() + bucket_views(
        bs,
        5,
    ).to_set() + bucket_views(bs, 6).to_set() + bucket_views(bs, 7).to_set()
}

/// The invariant of a sequence gives the invariant of each element.
proof fn lemma_seq_wf_index(s: Seq<Node>, i: int)
    requires
        Node::seq_wf(s),
        0 <= i < s.len(),
    ensures
        s[i].wf(),
    decreases s.len(),
{
    if i > 0 {
        lemma_seq_wf_index(s.drop_first(), i - 1);
    }
}

/// A point of one element's contents is in the sequence's contents.
proof fn lemma_seq_contents_member(s: Seq<Node>, i: int, q: (int, int, int))
    requires
        0 <= i < s.len(),
        s[i].contents().contains(q),
    ensures
        Node::seq_contents(s).contains(q),
    decreases s.len(),
{
    if i > 0 {
        lemma_seq_contents_member(s.drop_first(), i - 1, q);
    }
}

/// A point of the sequence's contents is in some element's contents.
proof fn lemma_seq_contents_origin(s: Seq<Node>, q: (int, int, int))
    requires
        Node::seq_contents(s).contains(q),
    ensures
        exists|i: int| 0 <= i < s.len() && #[trigger] s[i].contents().contains(q),
    decreases s.len(),
{
    if s.len() > 0 {
        if s[0].contents().contains(q) {
            assert(s[0].contents().contains(q));
        } else {
            lemma_seq_contents_origin(s.drop_first(), q);
            let j = choose|j: int|
                0 <= j < s.drop_first().len() && #[trigger] s.drop_first()[j].contents().contains(
                    q,
                );
            assert(s[j + 1].contents().contains(q));
        }
    }
}

/// Every stored point lies in its subtree's box and within coordinate space.
proof fn lemma_contents_in_bbox(n: Node)
    requires
        n.wf(),
    ensures
        forall|q: (int, int, int)|
            #[trigger] n.contents().contains(q) ==> n.bbox_of().contains_pt(q) && in_space(q),
    decreases n,
{
    match n {
        Node::Leaf { points, bbox } => {
            assert forall|q: (int, int, int)|
                #[trigger] n.contents().contains(q) implies n.bbox_of().contains_pt(q)
                && in_space(q) by {
                assert(pset_view(points).contains(q));
                assert(bbox.contains_pt(q));
                assert(bbox.box_in_space());
                assert(in_space(q));
            }
        },
        Node::Branch { children, bbox } => {
            assert forall|q: (int, int, int)|
                #[trigger] n.contents().contains(q) implies n.bbox_of().contains_pt(q)
                && in_space(q) by {
                lemma_seq_contents_origin(children@, q);
                let i = choose|i: int|
                    0 <= i < children@.len() && #[trigger] children@[i].contents().contains(q);
                assert(0 <= i < 8);
                lemma_seq_wf_index(children@, i);
                lemma_contents_in_bbox(children@[i]);
                assert(children@[i].bbox_of().contains_pt(q));
                lemma_sub_box_in_box(bbox, i);
            }
        },
    }
}

/// Computes which octant of center `c` the point `p` falls in, by the fixed
/// priority order of non-strict axis comparisons.
pub fn partition_pt(p: Vec3, c: Vec3) -> (r: usize)
    ensures
        r as int == octant(p@, c@),
        r < 8,
{
    if p.x <= c.x && p.y <= c.y && p.z <= c.z {
        0
    } else if p.x <= c.x && p.y <= c.y && p.z >= c.z {
        1
    } else if p.x >= c.x && p.y <= c.y && p.z <= c.z {
        2
    } else if p.x >= c.x && p.y <= c.y && p.z >= c.z {
        3
    } else if p.x <= c.x && p.y >= c.y && p.z <= c.z {
        4
    } else if p.x <= c.x && p.y >= c.y && p.z >= c.z {
        5
    } else if p.x >= c.x && p.y >= c.y && p.z <= c.z {
        6
    } else {
        7
    }
}

/// Splits a box into its eight octant sub-boxes around center `c`, each the
/// span of `c` and one corner of the box.
pub fn split_bbox(bbox: &Bbox, c: Vec3) -> (r: [Bbox; 8])
    requires
        bbox.wf(),
        bbox.box_in_space(),
        c@ == bbox.center_pt(),
    ensures
        forall|i: int| 0 <= i < 8 ==> (#[trigger] r@[i]).lo() == sub_lo(*bbox, i),
        forall|i: int| 0 <= i < 8 ==> (#[trigger] r@[i]).up() == sub_up(*bbox, i),
{
    proof {
        lemma_half_bounds(bbox.lo().0, bbox.up().0);
        lemma_half_bounds(bbox.lo().1, bbox.up().1);
        lemma_half_bounds(bbox.lo().2, bbox.up().2);
    }
    let u = bbox.upper();
    let l = bbox.lower();

    let r: [Bbox; 8] = [
        Bbox::new(c).expand(Vec3::new(l.x, l.y, l.z)),
        Bbox::new(c).expand(Vec3::new(l.x, l.y, u.z)),
        Bbox::new(c).expand(Vec3::new(u.x, l.y, l.z)),
        Bbox::new(c).expand(Vec3::new(u.x, l.y, u.z)),
        Bbox::new(c).expand(Vec3::new(l.x, u.y, l.z)),
        Bbox::new(c).expand(Vec3::new(l.x, u.y, u.z)),
        Bbox::new(c).expand(Vec3::new(u.x, u.y, l.z)),
        Bbox::new(c).expand(Vec3::new(u.x, u.y, u.z)),
    ];
    r
}

/// Mapping to coordinate triples commutes with appending one point.
proof fn lemma_seq_views_push(s: Seq<Vec3>, p: Vec3)
    ensures
        seq_views(s.push(p)) == seq_views(s).push(p@),
{
    assert_seqs_equal!(seq_views(s.push(p)), seq_views(s).push(p@));
}

/// A box whose every axis extent is at most one holds at most eight cells.
proof fn lemma_small_box_few_points(b: Bbox, s: Set<(int, int, int)>)
    requires
        b.wf(),
        s.finite(),
        forall|q: (int, int, int)| s.contains(q) ==> b.contains_pt(q),
        b.up().0 - b.lo().0 <= 1,
        b.up().1 - b.lo().1 <= 1,
        b.up().2 - b.lo().2 <= 1,
    ensures
        s.len() <= 8,
{
    broadcast use vstd::set::group_set_axioms;

    let l = b.lo();
    let u = b.up();
    let grid = set![
        (l.0, l.1, l.2),
        (l.0, l.1, u.2),
        (l.0, u.1, l.2),
        (l.0, u.1, u.2),
        (u.0, l.1, l.2),
        (u.0, l.1, u.2),
        (u.0, u.1, l.2),
        (u.0, u.1, u.2),
    ];
    assert forall|q: (int, int, int)| s.contains(q) implies grid.contains(q) by {
        assert(b.contains_pt(q));
        assert(q.0 == l.0 || q.0 == u.0);
        assert(q.1 == l.1 || q.1 == u.1);
        assert(q.2 == l.2 || q.2 == u.2);
    }
    assert(grid.finite());
    assert(grid.len() <= 8);
    vstd::set_lib::lemma_len_subset(s, grid);
}

/// A box holding more than eight distinct cells is at least two wide on
/// some axis.
proof fn lemma_crowded_box_has_wide_axis(b: Bbox, s: Set<(int, int, int)>)
    requires
        b.wf(),
        s.finite(),
        forall|q: (int, int, int)| s.contains(q) ==> b.contains_pt(q),
        s.len() > 8,
    ensures
        b.up().0 - b.lo().0 >= 2 || b.up().1 - b.lo().1 >= 2 || b.up().2 - b.lo().2 >= 2,
{
    if b.up().0 - b.lo().0 <= 1 && b.up().1 - b.lo().1 <= 1 && b.up().2 - b.lo().2 <= 1 {
        lemma_small_box_few_points(b, s);
    }
}

/// Once some axis of a box is at least two wide, every octant sub-box has a
/// strictly smaller total extent.
proof fn lemma_sub_box_extent_decreases(b: Bbox, i: int)
    requires
        b.wf(),
        b.box_in_space(),
        0 <= i < 8,
        b.up().0 - b.lo().0 >= 2 || b.up().1 - b.lo().1 >= 2 || b.up().2 - b.lo().2 >= 2,
    ensures
        0 <= (sub_up(b, i).0 - sub_lo(b, i).0) + (sub_up(b, i).1 - sub_lo(b, i).1) + (sub_up(
            b,
            i,
        ).2 - sub_lo(b, i).2) < extent_sum(b),
{
    lemma_half_bounds(b.lo().0, b.up().0);
    lemma_half_bounds(b.lo().1, b.up().1);
    lemma_half_bounds(b.lo().2, b.up().2);
}

/// A sequence of nodes that are each well-formed is well-formed as a
/// sequence.
proof fn lemma_seq_wf_build(s: Seq<Node>)
    requires
        forall|i: int| 0 <= i < s.len() ==> (#[trigger] s[i]).wf(),
    ensures
        Node::seq_wf(s),
    decreases s.len(),
{
    if s.len() > 0 {
        assert(forall|i: int|
            0 <= i < s.drop_first().len() ==> (#[trigger] s.drop_first()[i]) == s[i + 1]);
        lemma_seq_wf_build(s.drop_first());
    }
}

/// The contents of an eight-node sequence, written out as one union.
proof fn lemma_seq_contents_eight(s: Seq<Node>)
    requires
        s.len() == 8,
    ensures
        Node::seq_contents(s) == s[0].contents() + s[1].contents() + s[2].contents()
            + s[3].contents() + s[4].contents() + s[5].contents() + s[6].contents()
            + s[7].contents(),
{
    reveal_with_fuel(Node::seq_contents, 9);
    let s1 = s.drop_first();
    let s2 = s1.drop_first();
    let s3 = s2.drop_first();
    let s4 = s3.drop_first();
    let s5 = s4.drop_first();
    let s6 = s5.drop_first();
    let s7 = s6.drop_first();
    let s8 = s7.drop_first();
    assert(s8.len() == 0);
    assert(Node::seq_contents(s8) == Set::<(int, int, int)>::empty());
    assert(s7[0] == s[7] && s6[0] == s[6] && s5[0] == s[5] && s4[0] == s[4] && s3[0] == s[3]
        && s2[0] == s[2] && s1[0] == s[1]);
    assert(Node::seq_contents(s) == s[0].contents() + (s[1].contents() + (s[2].contents() + (
    s[3].contents() + (s[4].contents() + (s[5].contents() + (s[6].contents() + (s[7].contents()
        + Set::<(int, int, int)>::empty()))))))));
    assert_sets_equal!(
        s[0].contents() + (s[1].contents() + (s[2].contents() + (s[3].contents() + (s[4].contents()
            + (s[5].contents() + (s[6].contents() + (s[7].contents()
            + Set::<(int, int, int)>::empty()))))))),
        s[0].contents() + s[1].contents() + s[2].contents() + s[3].contents() + s[4].contents()
            + s[5].contents() + s[6].contents() + s[7].contents()
    );
}

} // verus!
