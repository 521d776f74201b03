//! The set of nodes already discovered during one traversal, kept in a
//! `hashbrown` hash set.
use vstd::prelude::*;

verus! {

/// Largest capacity requested up front; the set grows past it on demand.
pub const CAPACITY_HINT_LIMIT: usize = 0x10_0000;

/// A set of node indices backed by `hashbrown::HashSet<usize>`.
#[verifier::external_body]
pub struct VisitedSet {
    inner: hashbrown::HashSet<usize>,
}

/// The node indices that a `VisitedSet` holds.
pub uninterp spec fn visited_nodes(s: VisitedSet) -> Set<usize>;

impl VisitedSet {
    /// Relies on hashbrown's `HashSet::with_capacity`: the new set is empty.
    /// Capacities past the limit are left out, since a large enough one
    /// panics on capacity overflow.
    #[verifier::external_body]
    pub(crate) fn with_capacity(capacity: usize) -> (r: VisitedSet)
        requires
            capacity <= CAPACITY_HINT_LIMIT,
        ensures
            visited_nodes(r) == Set::<usize>::empty(),
    {
        VisitedSet { inner: hashbrown::HashSet::with_capacity(capacity) }
    }

    /// Relies on hashbrown's `HashSet::contains`: membership of `node`.
    #[verifier::external_body]
    pub(crate) fn contains(&self, node: usize) -> (r: bool)
        ensures
            r == visited_nodes(*self).contains(node),
    {
        self.inner.contains(&node)
    }

    /// Relies on hashbrown's `HashSet::insert`: `node` is added, and the
    /// result tells whether it was absent before.
    #[verifier::external_body]
    pub(crate) fn insert(&mut self, node: usize) -> (r: bool)
        ensures
            visited_nodes(*final(self)) == visited_nodes(*old(self)).insert(node),
            r == !visited_nodes(*old(self)).contains(node),
    {
        self.inner.insert(node)
    }
}

} // verus!
