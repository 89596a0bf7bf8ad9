use crate::node::Node;
use crate::slab::Slab;
use crate::NodeId;
use vstd::prelude::*;

verus! {

/// Draws a fresh tree identifier.
///
/// Relies on `snowflake::ProcessUniqueId::new`: every call returns an
/// identifier distinct from all others issued in this process.  The
/// identifier is reduced to 64 bits by hashing, so nothing is promised of
/// the result here; distinctness of two ids drawn by different trees holds
/// with overwhelming probability but rests on the outside crate and the
/// hash, not on a proof.
#[verifier::external_body]
fn fresh_tree_id() -> u64 {
    let unique = snowflake::ProcessUniqueId::new();
    let mut hasher = std::collections::hash_map::DefaultHasher::new();
    std::hash::Hash::hash(&unique, &mut hasher);
    std::hash::Hasher::finish(&hasher)
}

/// A [`Slab`] of [`Node`]s bound to one tree identity.
///
/// Every operation first checks the handle's stamped tree identifier against
/// this tree's own; a handle issued by another tree is reported absent
/// without the arena ever being consulted, even if its slot and generation
/// would match.
pub struct CoreTree<T> {
    pub id: u64,
    pub slab: Slab<Node<T>>,
}

impl<T> CoreTree<T> {
    /// The backing arena is well formed.
    pub open spec fn wf(self) -> bool {
        self.slab.wf()
    }

    /// `node_id` resolves against this tree: right tree identifier, live
    /// slot, matching generation.
    pub open spec fn has(self, node_id: NodeId) -> bool {
        node_id.tree_id == self.id && self.slab.resolves(node_id.index)
    }

    /// The node `node_id` resolves to (meaningful only when `has(node_id)`).
    pub open spec fn node_of(self, node_id: NodeId) -> Node<T> {
        self.slab.data_of(node_id.index)
    }

    /// Number of live nodes.
    pub open spec fn spec_count(self) -> int {
        self.slab.spec_count()
    }

    /// Creates an empty store with a fresh tree identity and the given
    /// capacity.
    pub fn new(capacity: usize) -> (r: CoreTree<T>)
        ensures
            r.wf(),
            r.spec_count() == 0,
            r.slab.spec_len() == 0,
            r.slab.cap == capacity,
            forall|id: NodeId| !r.has(id),
    {
        CoreTree { id: fresh_tree_id(), slab: Slab::new(capacity) }
    }

    /// Reported capacity of the backing arena.
    pub fn capacity(&self) -> (r: usize)
        ensures
            r == self.slab.cap,
    {
        self.slab.capacity()
    }

    /// Stores `data` as a fresh, unattached node and returns its handle,
    /// stamped with this tree's identity.  No existing node changes, and no
    /// previously retired handle comes back to life.
    pub fn insert(&mut self, data: T) -> (r: NodeId)
        requires
            old(self).wf(),
            old(self).slab.spec_len() < usize::MAX,
        ensures
            final(self).wf(),
            final(self).id == old(self).id,
            final(self).slab.generation == old(self).slab.generation,
            final(self).spec_count() == old(self).spec_count() + 1,
            final(self).slab.cap >= old(self).slab.cap,
            final(self).slab.cap == (if final(self).slab.spec_len() > old(self).slab.cap {
                final(self).slab.spec_len()
            } else {
                old(self).slab.cap as int
            }),
            final(self).slab.spec_len() <= old(self).slab.spec_len() + 1,
            r.tree_id == old(self).id,
            !old(self).has(r),
            !old(self).slab.occupied(r.index.index as int),
            forall|id: NodeId| old(self).has(id) ==> id.index.index != r.index.index,
            final(self).has(r),
            final(self).node_of(r) == Node::spec_new(data),
            forall|id: NodeId|
                id.index.index != r.index.index ==> (final(self).has(id) <==> old(self).has(id)),
            forall|id: NodeId|
                id.index.index != r.index.index && final(self).has(id) ==> final(self).node_of(id)
                    == old(self).node_of(id),
            forall|id: NodeId| id.index.index == r.index.index && id != r ==> !final(self).has(id),
    {
        let key = self.slab.insert(Node::new(data));
        NodeId { tree_id: self.id, index: key }
    }

    /// Removes the node if the handle resolves against this tree and returns
    /// its payload; otherwise nothing happens.  A successful removal retires
    /// every handle to the freed slot, for good.
    pub fn remove(&mut self, node_id: NodeId) -> (r: Option<T>)
        requires
            old(self).wf(),
        ensures
            final(self).wf(),
            final(self).id == old(self).id,
            final(self).slab.cap == old(self).slab.cap,
            final(self).slab.spec_len() == old(self).slab.spec_len(),
            match r {
                Some(v) => {
                    &&& old(self).has(node_id)
                    &&& v == old(self).node_of(node_id).data
                    &&& !final(self).has(node_id)
                    &&& final(self).spec_count() == old(self).spec_count() - 1
                    &&& forall|id: NodeId|
                        id.index.index != node_id.index.index ==> (final(self).has(id) <==> old(self).has(id))
                    &&& forall|id: NodeId|
                        id.index.index != node_id.index.index && final(self).has(id) ==> final(self).node_of(id) == old(self).node_of(id)
                    &&& forall|id: NodeId| id.index.index == node_id.index.index ==> !final(self).has(id)
                },
                None => {
                    &&& !old(self).has(node_id)
                    &&& *final(self) == *old(self)
                },
            },
    {
        if node_id.tree_id != self.id {
            return None;
        }
        match self.slab.try_remove(node_id.index) {
            Some(node) => Some(node.data),
            None => None,
        }
    }

    /// Looks the handle up: the node is returned only when the handle
    /// carries this tree's identity and still resolves in the arena.
    pub fn get(&self, node_id: NodeId) -> (r: Option<&Node<T>>)
        ensures
            match r {
                Some(n) => self.has(node_id) && *n == self.node_of(node_id),
                None => !self.has(node_id),
            },
    {
        if node_id.tree_id != self.id {
            return None;
        }
        self.slab.get(node_id.index)
    }

    /// Like [`Self::get`], but the node may be changed through the returned
    /// reference.  Only the addressed node can change; every other slot,
    /// and all arena bookkeeping, stays as it was.
    pub fn get_mut(&mut self, node_id: NodeId) -> (r: Option<&mut Node<T>>)
        ensures
            match r {
                Some(n) => {
                    &&& old(self).has(node_id)
                    &&& *n == old(self).node_of(node_id)
                    &&& final(self).id == old(self).id
                    &&& final(self).has(node_id)
                    &&& final(self).node_of(node_id) == *final(n)
                    &&& final(self).spec_count() == old(self).spec_count()
                    &&& final(self).slab.generation == old(self).slab.generation
                    &&& final(self).slab.cap == old(self).slab.cap
                    &&& final(self).slab.next_free == old(self).slab.next_free
                    &&& final(self).slab.count == old(self).slab.count
                    &&& final(self).slab.free@ == old(self).slab.free@
                    &&& final(self).slab.spec_len() == old(self).slab.spec_len()
                    &&& (old(self).wf() ==> final(self).wf())
                    &&& forall|id: NodeId|
                        id.index.index != node_id.index.index ==> (final(self).has(id) <==> old(self).has(id))
                    &&& forall|id: NodeId|
                        id.index.index != node_id.index.index && final(self).has(id) ==> final(self).node_of(id) == old(self).node_of(id)
                    &&& forall|id: NodeId|
                        id.index.index == node_id.index.index && id != node_id ==> !final(self).has(id)
                },
                None => {
                    &&& !old(self).has(node_id)
                    &&& *final(self) == *old(self)
                },
            },
    {
        if node_id.tree_id != self.id {
            return None;
        }
        self.slab.get_mut(node_id.index)
    }

    /// Shrinks the backing arena as far as possible without invalidating
    /// any handle: trailing unused capacity is reclaimed, every node stays
    /// where it is.
    pub fn shrink_to_fit(&mut self)
        requires
            old(self).wf(),
        ensures
            final(self).wf(),
            final(self).id == old(self).id,
            final(self).spec_count() == old(self).spec_count(),
            final(self).slab.generation == old(self).slab.generation,
            final(self).slab.cap == final(self).slab.spec_len(),
            final(self).slab.spec_len() <= old(self).slab.spec_len(),
            forall|id: NodeId| final(self).has(id) <==> old(self).has(id),
            forall|id: NodeId| #[trigger] final(self).has(id) ==> final(self).node_of(id) == old(
                self,
            ).node_of(id),
    {
        self.slab.shrink_to_fit();
    }
}

} // verus!
