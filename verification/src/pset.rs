//! Trusted view of the hashbrown point sets the index stores its cells in.
//!
//! The octree keeps leaf contents and the overflow set in a
//! `hashbrown::HashSet<Vec3>`. Verus refuses a declaration of that type
//! itself (its allocator parameter's trait bound cannot be named), so the
//! set is held in a private field of an opaque struct, and everything the
//! verified code knows about it goes through the contracts in this file.

use vstd::prelude::*;

use crate::geo::{seq_views, Vec3};

verus! {

/// An unordered set of lattice points, backed by `hashbrown::HashSet`.
#[verifier::external_body]
pub struct PointSet {
    cells: hashbrown::HashSet<Vec3>,
}

/// The mathematical contents of a point set: the coordinate triples it holds.
pub uninterp spec fn pset_view(s: PointSet) -> Set<(int, int, int)>;

/// Relies on `hashbrown::HashSet::with_capacity`: a freshly made set is empty.
#[verifier::external_body]
pub(crate) fn pset_with_capacity(cap: usize) -> (s: PointSet)
    ensures
        pset_view(s) == Set::<(int, int, int)>::empty(),
{
    PointSet { cells: hashbrown::HashSet::with_capacity(cap) }
}

/// Relies on `hashbrown::HashSet::insert`: the value is added to the set, and
/// the call returns whether it was absent before.
#[verifier::external_body]
pub(crate) fn pset_insert(s: &mut PointSet, p: Vec3) -> (newly: bool)
    ensures
        pset_view(*final(s)) == pset_view(*old(s)).insert(p@),
        newly == !pset_view(*old(s)).contains(p@),
{
    s.cells.insert(p)
}

/// Relies on `hashbrown::HashSet::len`: the number of stored elements.
#[verifier::external_body]
pub(crate) fn pset_len(s: &PointSet) -> (n: usize)
    ensures
        n == pset_view(*s).len(),
{
    s.cells.len()
}

/// Relies on `hashbrown::HashSet::iter`: every stored element is yielded
/// exactly once, in no particular order.
#[verifier::external_body]
pub(crate) fn pset_to_vec(s: &PointSet) -> (v: Vec<Vec3>)
    ensures
        seq_views(v@).to_set() == pset_view(*s),
        seq_views(v@).no_duplicates(),
{
    let mut v = Vec::with_capacity(s.cells.len());
    for p in s.cells.iter() {
        v.push(*p);
    }
    v
}

} // verus!
