use crate::behaviors::RemoveBehavior;
use crate::slab::Index;
use crate::core_tree::CoreTree;
use crate::node::{Node, Relatives};
use crate::NodeId;
use vstd::prelude::*;
use vstd::std_specs::cmp::PartialEqSpec;
use vstd::string::StringExecFns;

verus! {

/// A `Tree` builder: chooses the root value and the pre-reserved capacity
/// before the tree is made.
pub struct TreeBuilder<T> {
    pub root: Option<T>,
    pub capacity: Option<usize>,
}

/// A tree of [`Node`]s stored in a generational arena and addressed by
/// [`NodeId`] handles.
///
/// Every public operation keeps the sibling-chain invariant [`Tree::wf`]:
/// mutual sibling links agree, each parent's `first_child`/`last_child`
/// delimit the chain of exactly its children, and the root (when present)
/// has neither parent nor siblings.
pub struct Tree<T> {
    pub root_id: Option<NodeId>,
    pub core_tree: CoreTree<T>,
    /// Ghost sibling ranks: strictly increasing along every sibling chain,
    /// which rules out cyclic chains.
    pub pos: Ghost<Map<NodeId, nat>>,
    /// Ghost depths: each node lies one level below its parent, which rules
    /// out cyclic parent chains.
    pub depth: Ghost<Map<NodeId, nat>>,
}

impl<T> Tree<T> {
    /// `id` resolves against this tree.
    pub open spec fn has(self, id: NodeId) -> bool {
        self.core_tree.has(id)
    }

    /// The node `id` resolves to (meaningful only when `has(id)`).
    pub open spec fn node_of(self, id: NodeId) -> Node<T> {
        self.core_tree.node_of(id)
    }

    /// The relatives of the node `id` resolves to.
    pub open spec fn rel_of(self, id: NodeId) -> Relatives {
        self.core_tree.node_of(id).relatives
    }

    /// The payload of the node `id` resolves to.
    pub open spec fn data_of(self, id: NodeId) -> T {
        self.core_tree.node_of(id).data
    }

    /// Number of live nodes, orphans included.
    pub open spec fn spec_count(self) -> int {
        self.core_tree.spec_count()
    }

    /// The links around one live node are mutually consistent:
    /// sibling links pair up and stay within one parent, child-chain ends
    /// are delimited by the parent's `first_child`/`last_child`, and the
    /// ghost ranks order each sibling chain and each parent chain.
    #[verifier::opaque]
    pub open spec fn wf_at(self, n: NodeId) -> bool {
        let r = self.rel_of(n);
        &&& (r.parent matches Some(p) ==> self.has(p) && self.depth@[n] == self.depth@[p] + 1)
        &&& (r.next_sibling matches Some(m) ==> self.has(m) && self.rel_of(m).prev_sibling
            == Some(n) && self.rel_of(m).parent == r.parent && self.pos@[m] > self.pos@[n])
        &&& (r.prev_sibling matches Some(m) ==> self.has(m) && self.rel_of(m).next_sibling
            == Some(n) && self.rel_of(m).parent == r.parent && self.pos@[m] < self.pos@[n])
        &&& (r.first_child matches Some(f) ==> self.has(f) && self.rel_of(f).parent == Some(n)
            && self.rel_of(f).prev_sibling is None)
        &&& (r.last_child matches Some(l) ==> self.has(l) && self.rel_of(l).parent == Some(n)
            && self.rel_of(l).next_sibling is None)
        &&& (r.first_child is None <==> r.last_child is None)
        &&& (r.parent matches Some(p) ==> (r.next_sibling is None ==> self.rel_of(p).last_child
            == Some(n)))
        &&& (r.parent matches Some(p) ==> (r.prev_sibling is None ==> self.rel_of(p).first_child
            == Some(n)))
    }

    /// The tree invariant: a well-formed arena, a root without parent or
    /// siblings, and consistent links at every live node.
    pub open spec fn wf(self) -> bool {
        &&& self.core_tree.wf()
        &&& (self.root_id matches Some(r) ==> self.has(r) && self.rel_of(r).parent is None
            && self.rel_of(r).prev_sibling is None && self.rel_of(r).next_sibling is None)
        &&& forall|n: NodeId| #[trigger] self.has(n) ==> self.wf_at(n)
    }

    /// Spells out the consistency clauses that hold at one live node of a
    /// well-formed tree.
    pub proof fn lemma_wf_at(self, n: NodeId)
        requires
            self.wf(),
            self.has(n),
        ensures
            (self.rel_of(n).parent matches Some(p) ==> self.has(p) && self.depth@[n]
                == self.depth@[p] + 1),
            (self.rel_of(n).next_sibling matches Some(m) ==> self.has(m) && self.rel_of(
                m,
            ).prev_sibling == Some(n) && self.rel_of(m).parent == self.rel_of(n).parent
                && self.pos@[m] > self.pos@[n]),
            (self.rel_of(n).prev_sibling matches Some(m) ==> self.has(m) && self.rel_of(
                m,
            ).next_sibling == Some(n) && self.rel_of(m).parent == self.rel_of(n).parent
                && self.pos@[m] < self.pos@[n]),
            (self.rel_of(n).first_child matches Some(f) ==> self.has(f) && self.rel_of(f).parent
                == Some(n) && self.rel_of(f).prev_sibling is None),
            (self.rel_of(n).last_child matches Some(l) ==> self.has(l) && self.rel_of(l).parent
                == Some(n) && self.rel_of(l).next_sibling is None),
            (self.rel_of(n).first_child is None <==> self.rel_of(n).last_child is None),
            (self.rel_of(n).parent matches Some(p) ==> (self.rel_of(n).next_sibling is None
                ==> self.rel_of(p).last_child == Some(n))),
            (self.rel_of(n).parent matches Some(p) ==> (self.rel_of(n).prev_sibling is None
                ==> self.rel_of(p).first_child == Some(n))),
    {
        reveal(Tree::wf_at);
        assert(self.wf_at(n));
    }

    /// The converse: a node at which all consistency clauses hold satisfies
    /// the per-node invariant.
    proof fn lemma_wf_at_intro(self, n: NodeId)
        requires
            (self.rel_of(n).parent matches Some(p) ==> self.has(p) && self.depth@[n]
                == self.depth@[p] + 1),
            (self.rel_of(n).next_sibling matches Some(m) ==> self.has(m) && self.rel_of(
                m,
            ).prev_sibling == Some(n) && self.rel_of(m).parent == self.rel_of(n).parent
                && self.pos@[m] > self.pos@[n]),
            (self.rel_of(n).prev_sibling matches Some(m) ==> self.has(m) && self.rel_of(
                m,
            ).next_sibling == Some(n) && self.rel_of(m).parent == self.rel_of(n).parent
                && self.pos@[m] < self.pos@[n]),
            (self.rel_of(n).first_child matches Some(f) ==> self.has(f) && self.rel_of(f).parent
                == Some(n) && self.rel_of(f).prev_sibling is None),
            (self.rel_of(n).last_child matches Some(l) ==> self.has(l) && self.rel_of(l).parent
                == Some(n) && self.rel_of(l).next_sibling is None),
            (self.rel_of(n).first_child is None <==> self.rel_of(n).last_child is None),
            (self.rel_of(n).parent matches Some(p) ==> (self.rel_of(n).next_sibling is None
                ==> self.rel_of(p).last_child == Some(n))),
            (self.rel_of(n).parent matches Some(p) ==> (self.rel_of(n).prev_sibling is None
                ==> self.rel_of(p).first_child == Some(n))),
        ensures
            self.wf_at(n),
    {
        reveal(Tree::wf_at);
    }

    /// A tree with the same handles, links and ghost ranks as a well-formed
    /// one — only payloads may differ — is well formed itself.
    pub proof fn lemma_wf_same_structure(pre: Tree<T>, post: Tree<T>)
        requires
            pre.wf(),
            post.root_id == pre.root_id || post.root_id is None,
            post.pos == pre.pos,
            post.depth == pre.depth,
            post.core_tree.wf(),
            forall|id: NodeId| post.has(id) <==> pre.has(id),
            forall|id: NodeId| #[trigger] post.has(id) ==> post.rel_of(id) == pre.rel_of(id),
        ensures
            post.wf(),
    {
        assert forall|n: NodeId| #[trigger] post.has(n) implies post.wf_at(n) by {
            pre.lemma_wf_at(n);
            post.lemma_wf_at_intro(n);
        }
    }

    /// Creates an empty tree with a capacity of 0.
    pub fn new() -> (r: Tree<T>)
        ensures
            r.wf(),
            r.root_id is None,
            r.spec_count() == 0,
            r.core_tree.slab.cap == 0,
            forall|id: NodeId| !r.has(id),
    {
        TreeBuilder::new().build()
    }

    /// Reported capacity: how many nodes fit before more memory is needed.
    pub fn capacity(&self) -> (r: usize)
        ensures
            r == self.core_tree.slab.cap,
    {
        self.core_tree.capacity()
    }

    /// The root node's handle, if the tree has a root.
    pub fn root_id(&self) -> (r: Option<NodeId>)
        ensures
            r == self.root_id,
    {
        self.root_id
    }

    /// Looks a handle up and returns the node it resolves to: its payload
    /// and its relatives.  Absent for a stale handle or one from another
    /// tree.
    pub fn get_node(&self, node_id: NodeId) -> (r: Option<&Node<T>>)
        ensures
            match r {
                Some(n) => self.has(node_id) && *n == self.node_of(node_id),
                None => !self.has(node_id),
            },
    {
        self.core_tree.get(node_id)
    }

    /// Like [`Self::get_node`], but the node may be changed through the
    /// returned reference.  Only that node changes; the handle keeps
    /// resolving, and every other node is untouched.  Changing the payload
    /// alone leaves the tree invariant intact; changing the relatives is the
    /// caller's responsibility.
    pub fn get_node_mut(&mut self, node_id: NodeId) -> (r: Option<&mut Node<T>>)
        ensures
            match r {
                Some(n) => {
                    &&& old(self).has(node_id)
                    &&& *n == old(self).node_of(node_id)
                    &&& final(self).has(node_id)
                    &&& final(self).node_of(node_id) == *final(n)
                    &&& final(self).root_id == old(self).root_id
                    &&& final(self).pos == old(self).pos
                    &&& final(self).depth == old(self).depth
                    &&& final(self).core_tree.id == old(self).core_tree.id
                    &&& final(self).spec_count() == old(self).spec_count()
                    &&& final(self).core_tree.slab.cap == old(self).core_tree.slab.cap
                    &&& final(self).core_tree.slab.spec_len() == old(self).core_tree.slab.spec_len()
                    &&& (old(self).core_tree.wf() ==> final(self).core_tree.wf())
                    &&& forall|id: NodeId| final(self).has(id) <==> old(self).has(id)
                    &&& forall|id: NodeId|
                        id != node_id && final(self).has(id) ==> final(self).node_of(id) == old(self).node_of(id)
                },
                None => {
                    &&& !old(self).has(node_id)
                    &&& *final(self) == *old(self)
                },
            },
    {
        self.core_tree.get_mut(node_id)
    }

    /// The payload of the node the handle resolves to, exclusively borrowed
    /// for mutation in place.  The tree invariant is preserved: only the
    /// payload can change.
    pub fn data_mut(&mut self, node_id: NodeId) -> (r: Option<&mut T>)
        ensures
            match r {
                Some(v) => {
                    &&& old(self).has(node_id)
                    &&& *v == old(self).data_of(node_id)
                    &&& final(self).has(node_id)
                    &&& final(self).node_of(node_id) == Node {
                        data: *final(v),
                        relatives: old(self).rel_of(node_id),
                    }
                    &&& final(self).root_id == old(self).root_id
                    &&& final(self).core_tree.id == old(self).core_tree.id
                    &&& final(self).spec_count() == old(self).spec_count()
                    &&& forall|id: NodeId| final(self).has(id) <==> old(self).has(id)
                    &&& forall|id: NodeId|
                        id != node_id && final(self).has(id) ==> final(self).node_of(id) == old(self).node_of(id)
                },
                None => {
                    &&& !old(self).has(node_id)
                    &&& *final(self) == *old(self)
                },
            },
    {
        match self.get_node_mut(node_id) {
            Some(node) => Some(&mut node.data),
            None => None,
        }
    }

    /// Swaps `data` into the node the handle resolves to and returns the old
    /// payload; absent (and nothing changed) if the handle does not resolve.
    pub fn replace_data(&mut self, node_id: NodeId, data: T) -> (r: Option<T>)
        ensures
            match r {
                Some(v) => {
                    &&& old(self).has(node_id)
                    &&& v == old(self).data_of(node_id)
                    &&& final(self).has(node_id)
                    &&& final(self).node_of(node_id) == Node {
                        data,
                        relatives: old(self).rel_of(node_id),
                    }
                    &&& final(self).root_id == old(self).root_id
                    &&& final(self).spec_count() == old(self).spec_count()
                    &&& forall|id: NodeId| final(self).has(id) <==> old(self).has(id)
                    &&& forall|id: NodeId|
                        id != node_id && final(self).has(id) ==> final(self).node_of(id) == old(self).node_of(id)
                    &&& (old(self).wf() ==> final(self).wf())
                },
                None => {
                    &&& !old(self).has(node_id)
                    &&& *final(self) == *old(self)
                },
            },
    {
        let r = match self.get_node_mut(node_id) {
            Some(node) => Some(node.replace_data(data)),
            None => None,
        };
        proof {
            if r is Some && old(self).wf() {
                Self::lemma_wf_same_structure(*old(self), *self);
            }
        }
        r
    }

    /// Shrinks the backing arena as much as possible without invalidating
    /// any handle.  Nodes are never moved, so only trailing unused capacity
    /// can be reclaimed; the reported capacity falls to one past the last
    /// slot ever occupied that is still in use.
    pub fn shrink_to_fit(&mut self)
        requires
            old(self).wf(),
        ensures
            final(self).wf(),
            final(self).core_tree.id == old(self).core_tree.id,
            final(self).root_id == old(self).root_id,
            final(self).spec_count() == old(self).spec_count(),
            final(self).core_tree.slab.cap == final(self).core_tree.slab.spec_len(),
            final(self).core_tree.slab.spec_len() <= old(self).core_tree.slab.spec_len(),
            forall|id: NodeId| final(self).has(id) <==> old(self).has(id),
            forall|id: NodeId| #[trigger] final(self).has(id) ==> final(self).node_of(id) == old(
                self,
            ).node_of(id),
    {
        self.core_tree.shrink_to_fit();
        proof {
            Self::lemma_wf_same_structure(*old(self), *self);
        }
    }

    /// Reads the relatives of a node known to be live.
    pub(crate) fn get_node_relatives(&self, node_id: NodeId) -> (r: Relatives)
        requires
            self.has(node_id),
        ensures
            r == self.rel_of(node_id),
    {
        match self.core_tree.get(node_id) {
            Some(node) => node.relatives,
            None => unreached(),
        }
    }

    /// Reads the previous sibling of a node known to be live.
    pub(crate) fn get_node_prev_sibling_id(&self, node_id: NodeId) -> (r: Option<NodeId>)
        requires
            self.has(node_id),
        ensures
            r == self.rel_of(node_id).prev_sibling,
    {
        match self.core_tree.get(node_id) {
            Some(node) => node.relatives.prev_sibling,
            None => unreached(),
        }
    }

    /// Reads the next sibling of a node known to be live.
    pub(crate) fn get_node_next_sibling_id(&self, node_id: NodeId) -> (r: Option<NodeId>)
        requires
            self.has(node_id),
        ensures
            r == self.rel_of(node_id).next_sibling,
    {
        match self.core_tree.get(node_id) {
            Some(node) => node.relatives.next_sibling,
            None => unreached(),
        }
    }

    /// Sets the parent link of a node known to be live; nothing else moves.
    pub(crate) fn set_parent(&mut self, node_id: NodeId, parent_id: Option<NodeId>)
        requires
            old(self).has(node_id),
        ensures
            final(self).only_relatives_changed(*old(self), node_id),
            final(self).rel_of(node_id) == (Relatives {
                parent: parent_id,
                ..old(self).rel_of(node_id)
            }),
    {
        let node = match self.core_tree.get_mut(node_id) {
            Some(n) => n,
            None => unreached(),
        };
        node.relatives.parent = parent_id;
    }

    /// Sets the previous-sibling link of a node known to be live.
    pub(crate) fn set_prev_sibling(&mut self, node_id: NodeId, prev_sibling: Option<NodeId>)
        requires
            old(self).has(node_id),
        ensures
            final(self).only_relatives_changed(*old(self), node_id),
            final(self).rel_of(node_id) == (Relatives {
                prev_sibling,
                ..old(self).rel_of(node_id)
            }),
    {
        let node = match self.core_tree.get_mut(node_id) {
            Some(n) => n,
            None => unreached(),
        };
        node.relatives.prev_sibling = prev_sibling;
    }

    /// Sets the next-sibling link of a node known to be live.
    pub(crate) fn set_next_sibling(&mut self, node_id: NodeId, next_sibling: Option<NodeId>)
        requires
            old(self).has(node_id),
        ensures
            final(self).only_relatives_changed(*old(self), node_id),
            final(self).rel_of(node_id) == (Relatives {
                next_sibling,
                ..old(self).rel_of(node_id)
            }),
    {
        let node = match self.core_tree.get_mut(node_id) {
            Some(n) => n,
            None => unreached(),
        };
        node.relatives.next_sibling = next_sibling;
    }

    /// Sets the first-child link of a node known to be live.
    pub(crate) fn set_first_child(&mut self, node_id: NodeId, first_child: Option<NodeId>)
        requires
            old(self).has(node_id),
        ensures
            final(self).only_relatives_changed(*old(self), node_id),
            final(self).rel_of(node_id) == (Relatives {
                first_child,
                ..old(self).rel_of(node_id)
            }),
    {
        let node = match self.core_tree.get_mut(node_id) {
            Some(n) => n,
            None => unreached(),
        };
        node.relatives.first_child = first_child;
    }

    /// Sets the last-child link of a node known to be live.
    pub(crate) fn set_last_child(&mut self, node_id: NodeId, last_child: Option<NodeId>)
        requires
            old(self).has(node_id),
        ensures
            final(self).only_relatives_changed(*old(self), node_id),
            final(self).rel_of(node_id) == (Relatives {
                last_child,
                ..old(self).rel_of(node_id)
            }),
    {
        let node = match self.core_tree.get_mut(node_id) {
            Some(n) => n,
            None => unreached(),
        };
        node.relatives.last_child = last_child;
    }

    /// Replaces the whole relatives record of a node known to be live.
    pub(crate) fn set_relatives(&mut self, node_id: NodeId, relatives: Relatives)
        requires
            old(self).has(node_id),
        ensures
            final(self).only_relatives_changed(*old(self), node_id),
            final(self).rel_of(node_id) == relatives,
    {
        let node = match self.core_tree.get_mut(node_id) {
            Some(n) => n,
            None => unreached(),
        };
        node.relatives = relatives;
    }

    /// Repoints the next-sibling link of `current_id`'s previous sibling, if
    /// there is one.
    pub(crate) fn set_prev_siblings_next_sibling(
        &mut self,
        current_id: NodeId,
        next_sibling: Option<NodeId>,
    )
        requires
            old(self).has(current_id),
            old(self).rel_of(current_id).prev_sibling matches Some(p) ==> old(self).has(p),
        ensures
            match old(self).rel_of(current_id).prev_sibling {
                Some(p) => final(self).only_relatives_changed(*old(self), p) && final(self).rel_of(
                    p,
                ) == (Relatives { next_sibling, ..old(self).rel_of(p) }),
                None => *final(self) == *old(self),
            },
    {
        if let Some(prev_sibling_id) = self.get_node_prev_sibling_id(current_id) {
            self.set_next_sibling(prev_sibling_id, next_sibling);
        }
    }

    /// Repoints the previous-sibling link of `current_id`'s next sibling, if
    /// there is one.
    pub(crate) fn set_next_siblings_prev_sibling(
        &mut self,
        current_id: NodeId,
        prev_sibling: Option<NodeId>,
    )
        requires
            old(self).has(current_id),
            old(self).rel_of(current_id).next_sibling matches Some(n) ==> old(self).has(n),
        ensures
            match old(self).rel_of(current_id).next_sibling {
                Some(n) => final(self).only_relatives_changed(*old(self), n) && final(self).rel_of(
                    n,
                ) == (Relatives { prev_sibling, ..old(self).rel_of(n) }),
                None => *final(self) == *old(self),
            },
    {
        if let Some(next_sibling_id) = self.get_node_next_sibling_id(current_id) {
            self.set_prev_sibling(next_sibling_id, prev_sibling);
        }
    }

    /// Everything about the tree is as in `pre`, except that the relatives
    /// of the one live node `node_id` may differ.
    pub open spec fn only_relatives_changed(self, pre: Tree<T>, node_id: NodeId) -> bool {
        &&& pre.has(node_id)
        &&& self.root_id == pre.root_id
        &&& self.pos == pre.pos
        &&& self.depth == pre.depth
        &&& self.core_tree.id == pre.core_tree.id
        &&& self.spec_count() == pre.spec_count()
        &&& self.core_tree.slab.cap == pre.core_tree.slab.cap
        &&& self.core_tree.slab.spec_len() == pre.core_tree.slab.spec_len()
        &&& self.core_tree.slab.generation == pre.core_tree.slab.generation
        &&& (pre.core_tree.wf() ==> self.core_tree.wf())
        &&& (forall|id: NodeId| self.has(id) <==> pre.has(id))
        &&& (forall|id: NodeId|
            id != node_id && self.has(id) ==> self.node_of(id) == pre.node_of(id))
        &&& self.data_of(node_id) == pre.data_of(node_id)
    }
}

impl<T> Tree<T> {
    /// A next-sibling chain of exactly `k` steps leads from `s` to `x`.
    pub open spec fn sib_step(self, s: NodeId, x: NodeId, k: nat) -> bool
        decreases k,
    {
        if k == 0 {
            s == x
        } else {
            self.has(s) && (match self.rel_of(s).next_sibling {
                Some(nx) => self.sib_step(nx, x, (k - 1) as nat),
                None => false,
            })
        }
    }

    /// A sibling chain reaching `p` extends by one step to `p`'s next
    /// sibling.
    proof fn lemma_sib_step_extend(self, s: NodeId, p: NodeId, c: NodeId, k: nat)
        requires
            self.sib_step(s, p, k),
            self.has(p),
            self.rel_of(p).next_sibling == Some(c),
        ensures
            self.sib_step(s, c, (k + 1) as nat),
        decreases k,
    {
        if k == 0 {
            assert(s == p);
            assert(self.sib_step(c, c, 0));
            assert(self.sib_step(s, c, 1));
        } else {
            match self.rel_of(s).next_sibling {
                Some(nx) => {
                    self.lemma_sib_step_extend(nx, p, c, (k - 1) as nat);
                    assert(self.sib_step(nx, c, k));
                    assert(self.sib_step(s, c, (k + 1) as nat));
                },
                None => {},
            }
        }
    }

    /// In a well-formed tree, every child of `h` is reached from `h`'s
    /// first child by following next-sibling links; in particular a node
    /// whose `first_child` is absent has no children at all.
    proof fn lemma_child_on_chain(self, h: NodeId, c: NodeId)
        requires
            self.wf(),
            self.has(h),
            self.has(c),
            self.rel_of(c).parent == Some(h),
        ensures
            self.rel_of(h).first_child is Some,
            exists|k: nat| self.sib_step(self.rel_of(h).first_child->0, c, k),
        decreases self.pos@[c],
    {
        self.lemma_wf_at(c);
        match self.rel_of(c).prev_sibling {
            None => {
                assert(self.rel_of(h).first_child == Some(c));
                assert(self.sib_step(self.rel_of(h).first_child->0, c, 0));
            },
            Some(p) => {
                self.lemma_wf_at(p);
                assert(self.pos@[p] < self.pos@[c]);
                self.lemma_child_on_chain(h, p);
                let f = self.rel_of(h).first_child->0;
                let k = choose|k: nat| self.sib_step(f, p, k);
                self.lemma_sib_step_extend(f, p, c, k);
                assert(self.sib_step(f, c, (k + 1) as nat));
            },
        }
    }

    /// Tells whether the node is its parent's first and last child.
    /// Parentless nodes count as neither.
    pub(crate) fn is_node_first_last_child(&self, node_id: NodeId) -> (r: (bool, bool))
        requires
            self.wf(),
            self.has(node_id),
        ensures
            r.0 == (self.rel_of(node_id).parent is Some && self.rel_of(node_id).prev_sibling
                is None),
            r.1 == (self.rel_of(node_id).parent is Some && self.rel_of(node_id).next_sibling
                is None),
    {
        let rel = self.get_node_relatives(node_id);
        match rel.parent {
            None => (false, false),
            Some(parent_id) => {
                proof {
                    self.lemma_wf_at(node_id);
                }
                let parent_rel = self.get_node_relatives(parent_id);
                let is_first = match parent_rel.first_child {
                    Some(f) => f == node_id,
                    None => false,
                };
                let is_last = match parent_rel.last_child {
                    Some(l) => l == node_id,
                    None => false,
                };
                proof {
                    if self.rel_of(node_id).prev_sibling is None {
                        assert(self.rel_of(parent_id).first_child == Some(node_id));
                    } else {
                        let p = self.rel_of(node_id).prev_sibling->0;
                        self.lemma_wf_at(p);
                        if self.rel_of(parent_id).first_child == Some(node_id) {
                            self.lemma_wf_at(parent_id);
                            assert(self.rel_of(node_id).prev_sibling is None);
                        }
                    }
                    if self.rel_of(node_id).next_sibling is None {
                        assert(self.rel_of(parent_id).last_child == Some(node_id));
                    } else {
                        let nx = self.rel_of(node_id).next_sibling->0;
                        self.lemma_wf_at(nx);
                        if self.rel_of(parent_id).last_child == Some(node_id) {
                            self.lemma_wf_at(parent_id);
                            assert(self.rel_of(node_id).next_sibling is None);
                        }
                    }
                }
                (is_first, is_last)
            },
        }
    }

    /// Splices a node out of its surroundings: its sibling neighbours are
    /// linked to each other, its parent's child-chain ends are repaired, and
    /// the node itself keeps only its children.  The node stays live; the
    /// tree stays well formed.
    #[verifier::rlimit(100)]
    pub(crate) fn splice_detach(&mut self, node_id: NodeId)
        requires
            old(self).wf(),
            old(self).has(node_id),
        ensures
            final(self).wf(),
            final(self).core_tree.id == old(self).core_tree.id,
            final(self).root_id == old(self).root_id,
            final(self).pos == old(self).pos,
            final(self).depth == old(self).depth,
            final(self).spec_count() == old(self).spec_count(),
            final(self).core_tree.slab.spec_len() == old(self).core_tree.slab.spec_len(),
            final(self).core_tree.slab.cap == old(self).core_tree.slab.cap,
            final(self).core_tree.slab.generation == old(self).core_tree.slab.generation,
            forall|id: NodeId| final(self).has(id) <==> old(self).has(id),
            final(self).node_of(node_id) == (Node {
                data: old(self).data_of(node_id),
                relatives: Relatives {
                    parent: None,
                    prev_sibling: None,
                    next_sibling: None,
                    ..old(self).rel_of(node_id)
                },
            }),
            (old(self).rel_of(node_id).prev_sibling matches Some(p) ==> final(self).node_of(p)
                == (Node {
                data: old(self).data_of(p),
                relatives: Relatives {
                    next_sibling: old(self).rel_of(node_id).next_sibling,
                    ..old(self).rel_of(p)
                },
            })),
            (old(self).rel_of(node_id).next_sibling matches Some(nx) ==> final(self).node_of(nx)
                == (Node {
                data: old(self).data_of(nx),
                relatives: Relatives {
                    prev_sibling: old(self).rel_of(node_id).prev_sibling,
                    ..old(self).rel_of(nx)
                },
            })),
            (old(self).rel_of(node_id).parent matches Some(pa) ==> final(self).node_of(pa)
                == (Node {
                data: old(self).data_of(pa),
                relatives: Relatives {
                    first_child: (if old(self).rel_of(node_id).prev_sibling is None {
                        old(self).rel_of(node_id).next_sibling
                    } else {
                        old(self).rel_of(pa).first_child
                    }),
                    last_child: (if old(self).rel_of(node_id).next_sibling is None {
                        old(self).rel_of(node_id).prev_sibling
                    } else {
                        old(self).rel_of(pa).last_child
                    }),
                    ..old(self).rel_of(pa)
                },
            })),
            forall|id: NodeId|
                old(self).has(id) && id != node_id && Some(id) != old(self).rel_of(
                    node_id,
                ).prev_sibling && Some(id) != old(self).rel_of(node_id).next_sibling && Some(id)
                    != old(self).rel_of(node_id).parent ==> final(self).node_of(id) == old(self).node_of(id),
    {
        let rel = self.get_node_relatives(node_id);
        let (is_first, is_last) = self.is_node_first_last_child(node_id);
        proof {
            old(self).lemma_wf_at(node_id);
            if let Some(p) = rel.prev_sibling {
                old(self).lemma_wf_at(p);
            }
            if let Some(nx) = rel.next_sibling {
                old(self).lemma_wf_at(nx);
            }
            if let Some(pa) = rel.parent {
                old(self).lemma_wf_at(pa);
            }
        }
        if let Some(p) = rel.prev_sibling {
            self.set_next_sibling(p, rel.next_sibling);
            proof {
                assert(forall|id: NodeId| self.has(id) <==> old(self).has(id));
                assert(forall|id: NodeId|
                    id != p && self.has(id) ==> self.node_of(id) == old(self).node_of(id));
            }
        }
        let ghost mid1 = *self;
        if let Some(nx) = rel.next_sibling {
            self.set_prev_sibling(nx, rel.prev_sibling);
            proof {
                assert(forall|id: NodeId| self.has(id) <==> mid1.has(id));
                assert(forall|id: NodeId|
                    id != nx && self.has(id) ==> self.node_of(id) == mid1.node_of(id));
            }
        }
        let ghost mid2 = *self;
        if let Some(pa) = rel.parent {
            let parent_rel = self.get_node_relatives(pa);
            let new_first = if is_first {
                rel.next_sibling
            } else {
                parent_rel.first_child
            };
            let new_last = if is_last {
                rel.prev_sibling
            } else {
                parent_rel.last_child
            };
            self.set_relatives(
                pa,
                Relatives { first_child: new_first, last_child: new_last, ..parent_rel },
            );
            proof {
                assert(forall|id: NodeId| self.has(id) <==> mid2.has(id));
                assert(forall|id: NodeId|
                    id != pa && self.has(id) ==> self.node_of(id) == mid2.node_of(id));
            }
        }
        let ghost mid3 = *self;
        self.set_relatives(
            node_id,
            Relatives {
                parent: None,
                prev_sibling: None,
                next_sibling: None,
                ..rel
            },
        );
        proof {
            assert(forall|id: NodeId| self.has(id) <==> mid3.has(id));
            assert(forall|id: NodeId|
                id != node_id && self.has(id) ==> self.node_of(id) == mid3.node_of(id));
            let fin = *self;
            let pre = *old(self);
            let r0 = pre.rel_of(node_id);
            assert(forall|id: NodeId| fin.has(id) <==> pre.has(id));
            assert(fin.node_of(node_id) == (Node {
                data: pre.data_of(node_id),
                relatives: Relatives {
                    parent: None,
                    prev_sibling: None,
                    next_sibling: None,
                    ..r0
                },
            }));
            if let Some(p) = r0.prev_sibling {
                assert(p != node_id);
                assert(Some(p) != r0.next_sibling);
                assert(Some(p) != r0.parent);
                assert(fin.node_of(p) == (Node {
                    data: pre.data_of(p),
                    relatives: Relatives { next_sibling: r0.next_sibling, ..pre.rel_of(p) },
                }));
            }
            if let Some(nx) = r0.next_sibling {
                assert(nx != node_id);
                assert(Some(nx) != r0.parent);
                assert(fin.node_of(nx) == (Node {
                    data: pre.data_of(nx),
                    relatives: Relatives { prev_sibling: r0.prev_sibling, ..pre.rel_of(nx) },
                }));
            }
            if let Some(pa) = r0.parent {
                assert(pa != node_id);
                assert(fin.node_of(pa) == (Node {
                    data: pre.data_of(pa),
                    relatives: Relatives {
                        first_child: (if r0.prev_sibling is None {
                            r0.next_sibling
                        } else {
                            pre.rel_of(pa).first_child
                        }),
                        last_child: (if r0.next_sibling is None {
                            r0.prev_sibling
                        } else {
                            pre.rel_of(pa).last_child
                        }),
                        ..pre.rel_of(pa)
                    },
                }));
            }
            assert(forall|id: NodeId|
                pre.has(id) && id != node_id && Some(id) != r0.prev_sibling && Some(id)
                    != r0.next_sibling && Some(id) != r0.parent ==> fin.node_of(id)
                    == pre.node_of(id));
            assert forall|n: NodeId| #[trigger] fin.has(n) implies fin.wf_at(n) by {
                    assert(pre.has(n));
                pre.lemma_wf_at(n);
                if let Some(p) = r0.prev_sibling {
                    pre.lemma_wf_at(p);
                }
                if let Some(nx) = r0.next_sibling {
                    pre.lemma_wf_at(nx);
                }
                if let Some(pa) = r0.parent {
                    pre.lemma_wf_at(pa);
                }
                pre.lemma_wf_at(node_id);
                fin.lemma_wf_at_intro(n);
            }
        }
    }

    /// Distinct live handles name distinct slots, so a duplicate-free
    /// sequence of live handles is no longer than the arena itself.
    proof fn lemma_live_ids_bounded(self, ids: Seq<NodeId>)
        requires
            ids.no_duplicates(),
            forall|i: int| 0 <= i < ids.len() ==> self.has(#[trigger] ids[i]),
        ensures
            ids.len() <= self.core_tree.slab.spec_len(),
    {
        broadcast use vstd::seq_lib::group_seq_properties;

        let idxs = ids.map_values(|id: NodeId| id.index.index);
        assert(idxs.len() == ids.len());
        assert(idxs.no_duplicates()) by {
                assert forall|i: int, j: int|
                0 <= i < idxs.len() && 0 <= j < idxs.len() && i != j implies idxs[i] != idxs[j] by {
                    assert(self.has(ids[i]) && self.has(ids[j]));
                assert(ids[i] != ids[j]);
                if ids[i].index.index == ids[j].index.index {
                    assert(ids[i].tree_id == self.core_tree.id);
                    assert(ids[j].tree_id == self.core_tree.id);
                    assert(ids[i].index.generation == ids[j].index.generation);
                }
            }
        }
        let n = self.core_tree.slab.slots@.len();
        let positions = Seq::new(n, |p: int| p as usize);
        assert forall|x: usize| idxs.to_set().contains(x) implies positions.to_set().contains(
            x,
        ) by {
                let k = choose|k: int| 0 <= k < idxs.len() && idxs[k] == x;
            assert(self.has(ids[k]));
            assert(x < n);
            assert(positions[x as int] == x);
            assert(positions.contains(x));
        }
        idxs.unique_seq_to_set();
        positions.lemma_cardinality_of_set();
        broadcast use vstd::seq_lib::seq_to_set_is_finite;

        vstd::set_lib::lemma_len_subset(idxs.to_set(), positions.to_set());
    }

    /// Handles of the direct children of `node_id`, in sibling order.
    /// Empty when the handle does not resolve or the node has no children.
    /// Every child of `h` appears in a duplicate-free sibling run that
    /// starts at `h`'s first child and ends with an absent next link.
    proof fn lemma_children_complete(self, h: NodeId, ids: Seq<NodeId>, c: NodeId)
        requires
            self.wf(),
            self.has(h),
            forall|i: int|
                0 <= i < ids.len() ==> self.has(#[trigger] ids[i]) && self.rel_of(ids[i]).parent
                    == Some(h),
            forall|i: int|
                0 <= i < ids.len() - 1 ==> self.rel_of(#[trigger] ids[i]).next_sibling == Some(
                    ids[i + 1],
                ),
            ids.len() > 0 ==> self.rel_of(h).first_child == Some(ids[0]),
            ids.len() > 0 ==> self.rel_of(ids[ids.len() - 1]).next_sibling is None,
            ids.len() == 0 ==> self.rel_of(h).first_child is None,
            self.has(c),
            self.rel_of(c).parent == Some(h),
        ensures
            ids.contains(c),
        decreases self.pos@[c],
    {
        self.lemma_wf_at(c);
        match self.rel_of(c).prev_sibling {
            None => {
                assert(self.rel_of(h).first_child == Some(c));
                assert(ids.len() > 0 && ids[0] == c);
            },
            Some(p) => {
                self.lemma_wf_at(p);
                assert(self.pos@[p] < self.pos@[c]);
                self.lemma_children_complete(h, ids, p);
                let j = choose|j: int| 0 <= j < ids.len() && ids[j] == p;
                assert(self.rel_of(p).next_sibling == Some(c));
                if j == ids.len() - 1 {
                    assert(self.rel_of(ids[j]).next_sibling is None);
                } else {
                    assert(ids[j + 1] == c);
                }
            },
        }
    }

    /// Handles of the direct children of `node_id`, in sibling order.
    /// Empty when the handle does not resolve or the node has no children.
    #[verifier::rlimit(60)]
    pub fn children(&self, node_id: NodeId) -> (r: Vec<NodeId>)
        requires
            self.wf(),
        ensures
            !self.has(node_id) ==> r@.len() == 0,
            forall|i: int|
                0 <= i < r@.len() ==> self.has(#[trigger] r@[i]) && self.rel_of(r@[i]).parent
                    == Some(node_id),
            forall|c: NodeId|
                self.has(c) && self.rel_of(c).parent == Some(node_id) ==> r@.contains(c),
            forall|i: int, j: int|
                0 <= i < j < r@.len() ==> self.pos@[#[trigger] r@[i]] < self.pos@[#[trigger] r@[j]],
            r@.no_duplicates(),
            forall|i: int|
                0 <= i < r@.len() - 1 ==> self.rel_of(#[trigger] r@[i]).next_sibling == Some(
                    r@[i + 1],
                ),
            r@.len() > 0 ==> self.rel_of(node_id).first_child == Some(r@[0]) && self.rel_of(
                r@[r@.len() - 1],
            ).next_sibling is None && self.rel_of(r@[0]).prev_sibling is None,
            (self.has(node_id) ==> (r@.len() == 0 <==> self.rel_of(node_id).first_child is None)),
    {
        let mut ids: Vec<NodeId> = Vec::new();
        if self.get_node(node_id).is_none() {
            proof {
                assert forall|c: NodeId|
                    self.has(c) && self.rel_of(c).parent == Some(node_id) implies ids@.contains(
                    c,
                ) by {
                    self.lemma_wf_at(c);
                }
            }
            return ids;
        }
        let rel = self.get_node_relatives(node_id);
        proof {
            self.lemma_wf_at(node_id);
        }
        let mut cur_opt = rel.first_child;
        while cur_opt.is_some()
            invariant
                self.wf(),
                self.has(node_id),
                forall|i: int|
                    0 <= i < ids@.len() ==> self.has(#[trigger] ids@[i]) && self.rel_of(
                        ids@[i],
                    ).parent == Some(node_id),
                forall|i: int, j: int|
                    0 <= i < j < ids@.len() ==> self.pos@[#[trigger] ids@[i]]
                        < self.pos@[#[trigger] ids@[j]],
                forall|i: int|
                    0 <= i < ids@.len() - 1 ==> self.rel_of(#[trigger] ids@[i]).next_sibling
                        == Some(ids@[i + 1]),
                ids@.len() > 0 ==> self.rel_of(node_id).first_child == Some(ids@[0])
                    && self.rel_of(ids@[0]).prev_sibling is None,
                match cur_opt {
                    Some(u) => {
                        &&& self.has(u)
                        &&& self.rel_of(u).parent == Some(node_id)
                        &&& (if ids@.len() == 0 {
                            self.rel_of(node_id).first_child == Some(u)
                        } else {
                            self.rel_of(ids@[ids@.len() - 1]).next_sibling == Some(u)
                        })
                        &&& forall|i: int|
                            0 <= i < ids@.len() ==> self.pos@[#[trigger] ids@[i]] < self.pos@[u]
                    },
                    None => {
                        &&& (ids@.len() > 0 ==> self.rel_of(
                            ids@[ids@.len() - 1],
                        ).next_sibling is None)
                        &&& (ids@.len() == 0 ==> self.rel_of(node_id).first_child is None)
                    },
                },
            decreases self.core_tree.slab.spec_len() - ids@.len(),
        {
            let u = cur_opt.unwrap();
            ids.push(u);
            proof {
                self.lemma_wf_at(u);
                self.lemma_wf_at(node_id);
                assert(ids@.no_duplicates()) by {
                        assert forall|i: int, j: int|
                        0 <= i < ids@.len() && 0 <= j < ids@.len() && i != j implies ids@[i]
                        != ids@[j] by {
                            if i < j {
                            assert(self.pos@[ids@[i]] < self.pos@[ids@[j]]);
                        } else {
                            assert(self.pos@[ids@[j]] < self.pos@[ids@[i]]);
                        }
                    }
                }
                self.lemma_live_ids_bounded(ids@);
            }
            cur_opt = self.get_node_next_sibling_id(u);
        }
        proof {
            assert(ids@.no_duplicates()) by {
                    assert forall|i: int, j: int|
                    0 <= i < ids@.len() && 0 <= j < ids@.len() && i != j implies ids@[i]
                    != ids@[j] by {
                        if i < j {
                        assert(self.pos@[ids@[i]] < self.pos@[ids@[j]]);
                    } else {
                        assert(self.pos@[ids@[j]] < self.pos@[ids@[i]]);
                    }
                }
            }
            assert forall|c: NodeId|
                self.has(c) && self.rel_of(c).parent == Some(node_id) implies ids@.contains(c) by {
                    self.lemma_children_complete(node_id, ids@, c);
            }
            self.lemma_wf_at(node_id);
            if ids@.len() > 0 {
                self.lemma_wf_at(ids@[0]);
            }
        }
        ids
    }

    /// Detaches every direct child of `node_id`: each keeps its payload and
    /// its mutual sibling links, but its parent becomes absent.  The node's
    /// own child-chain ends are left in place.
    #[verifier::rlimit(100)]
    pub(crate) fn orphan_children(&mut self, node_id: NodeId)
        requires
            old(self).wf(),
            old(self).has(node_id),
        ensures
            final(self).core_tree.id == old(self).core_tree.id,
            final(self).root_id == old(self).root_id,
            final(self).pos == old(self).pos,
            final(self).depth == old(self).depth,
            final(self).spec_count() == old(self).spec_count(),
            final(self).core_tree.slab.spec_len() == old(self).core_tree.slab.spec_len(),
            final(self).core_tree.slab.cap == old(self).core_tree.slab.cap,
            final(self).core_tree.slab.generation == old(self).core_tree.slab.generation,
            final(self).core_tree.wf(),
            forall|id: NodeId| final(self).has(id) <==> old(self).has(id),
            forall|c: NodeId|
                old(self).has(c) && old(self).rel_of(c).parent == Some(node_id) ==> final(self).node_of(c) == (Node {
                    data: old(self).data_of(c),
                    relatives: Relatives { parent: None, ..old(self).rel_of(c) },
                }),
            forall|id: NodeId|
                old(self).has(id) && old(self).rel_of(id).parent != Some(node_id) ==> final(self).node_of(id) == old(self).node_of(id),
    {
        let kids = self.children(node_id);
        let ghost pre = *old(self);
        let mut i: usize = 0;
        while i < kids.len()
            invariant
                0 <= i <= kids@.len(),
                pre.wf(),
                pre.has(node_id),
                forall|j: int|
                    0 <= j < kids@.len() ==> pre.has(#[trigger] kids@[j]) && pre.rel_of(
                        kids@[j],
                    ).parent == Some(node_id),
                forall|c: NodeId|
                    pre.has(c) && pre.rel_of(c).parent == Some(node_id) ==> kids@.contains(c),
                kids@.no_duplicates(),
                self.core_tree.id == pre.core_tree.id,
                self.root_id == pre.root_id,
                self.pos == pre.pos,
                self.depth == pre.depth,
                self.spec_count() == pre.spec_count(),
                self.core_tree.slab.spec_len() == pre.core_tree.slab.spec_len(),
                self.core_tree.slab.cap == pre.core_tree.slab.cap,
                self.core_tree.slab.generation == pre.core_tree.slab.generation,
                self.core_tree.wf(),
                forall|id: NodeId| self.has(id) <==> pre.has(id),
                forall|j: int|
                    0 <= j < i ==> self.node_of(#[trigger] kids@[j]) == (Node {
                        data: pre.data_of(kids@[j]),
                        relatives: Relatives { parent: None, ..pre.rel_of(kids@[j]) },
                    }),
                forall|id: NodeId|
                    pre.has(id) && !kids@.subrange(0, i as int).contains(id) ==> self.node_of(id)
                        == pre.node_of(id),
            decreases kids@.len() - i,
        {
            let c = kids[i];
            self.set_parent(c, None);
            i = i + 1;
            proof {
                assert forall|id: NodeId|
                    pre.has(id) && !kids@.subrange(0, i as int).contains(id) implies self.node_of(
                    id,
                ) == pre.node_of(id) by {
                        assert(kids@.subrange(0, i as int)[i as int - 1] == c);
                    assert(id != c);
                    assert forall|j: int| 0 <= j < i - 1 implies #[trigger] kids@.subrange(
                        0,
                        i as int - 1,
                    )[j] != id by {
                            assert(kids@.subrange(0, i as int)[j] == kids@.subrange(0, i as int - 1)[j]);
                    }
                    assert(!kids@.subrange(0, i as int - 1).contains(id));
                }
            }
        }
        proof {
            assert forall|c: NodeId|
                pre.has(c) && pre.rel_of(c).parent == Some(node_id) implies self.node_of(c)
                == (Node {
                data: pre.data_of(c),
                relatives: Relatives { parent: None, ..pre.rel_of(c) },
            }) by {
                    let j = choose|j: int| 0 <= j < kids@.len() && kids@[j] == c;
                assert(0 <= j < kids@.len());
            }
            assert forall|id: NodeId|
                pre.has(id) && pre.rel_of(id).parent != Some(node_id) implies self.node_of(id)
                == pre.node_of(id) by {
                    if kids@.subrange(0, kids@.len() as int).contains(id) {
                    assert(pre.rel_of(id).parent == Some(node_id));
                }
                assert(kids@.subrange(0, kids@.len() as int) == kids@);
            }
        }
    }

    /// A parent chain of exactly `k` steps leads from `a` up to `h`.
    pub open spec fn chain_to(self, a: NodeId, h: NodeId, k: nat) -> bool
        decreases k,
    {
        if k == 0 {
            a == h
        } else {
            self.has(a) && (match self.rel_of(a).parent {
                Some(p) => self.chain_to(p, h, (k - 1) as nat),
                None => false,
            })
        }
    }

    /// `a` lies in the subtree rooted at `h`: it is `h` itself, or some
    /// parent chain from `a` reaches `h`.
    pub open spec fn in_subtree(self, a: NodeId, h: NodeId) -> bool {
        exists|k: nat| self.chain_to(a, h, k)
    }

    /// Along a parent chain the ghost depth falls by one per step, so a
    /// chain of `k` steps starts exactly `k` levels below its end.
    proof fn lemma_chain_depth(self, x: NodeId, h: NodeId, k: nat)
        requires
            self.wf(),
            self.chain_to(x, h, k),
        ensures
            self.depth@[x] == self.depth@[h] + k,
        decreases k,
    {
        if k > 0 {
            self.lemma_wf_at(x);
            match self.rel_of(x).parent {
                Some(p) => {
                    self.lemma_chain_depth(p, h, (k - 1) as nat);
                },
                None => {},
            }
        }
    }

    /// Subtree membership transfers to any state that keeps every live node
    /// other than the subtree's root live with the same parent link.
    proof fn lemma_subtree_lift(s: Tree<T>, t: Tree<T>, x: NodeId, h: NodeId, k: nat)
        requires
            forall|y: NodeId|
                y != h && #[trigger] s.has(y) ==> t.has(y) && t.rel_of(y).parent == s.rel_of(
                    y,
                ).parent,
            s.chain_to(x, h, k),
        ensures
            t.in_subtree(x, h),
        decreases k,
    {
        if k == 0 || x == h {
            assert(t.chain_to(x, h, 0));
        } else {
            match s.rel_of(x).parent {
                Some(p) => {
                    Self::lemma_subtree_lift(s, t, p, h, (k - 1) as nat);
                    let k2 = choose|k2: nat| t.chain_to(p, h, k2);
                    assert(t.chain_to(x, h, (k2 + 1) as nat));
                },
                None => {},
            }
        }
    }

    /// Once `h` is gone from a well-formed state whose surviving nodes kept
    /// their parent links, nothing whose old parent chain reached `h` can
    /// still be live.
    proof fn lemma_subtree_all_removed(pre: Tree<T>, fin: Tree<T>, h: NodeId, id: NodeId, k: nat)
        requires
            fin.wf(),
            !fin.has(h),
            forall|y: NodeId| #[trigger] fin.has(y) ==> pre.has(y) && fin.rel_of(y).parent
                == pre.rel_of(y).parent,
            pre.chain_to(id, h, k),
        ensures
            !fin.has(id),
        decreases k,
    {
        if k == 0 {
        } else {
            if fin.has(id) {
                match pre.rel_of(id).parent {
                    Some(p) => {
                        assert(fin.rel_of(id).parent == Some(p));
                        fin.lemma_wf_at(id);
                        assert(fin.has(p));
                        Self::lemma_subtree_all_removed(pre, fin, h, p, (k - 1) as nat);
                    },
                    None => {},
                }
            }
        }
    }

    /// A live node whose relatives are all absent is referenced by no other
    /// node, so freeing its slot leaves every remaining node's links
    /// consistent.
    proof fn lemma_detached_removal(pre: Tree<T>, post: Tree<T>, d: NodeId)
        requires
            pre.wf(),
            pre.has(d),
            pre.rel_of(d) == Relatives::spec_none(),
            post.root_id == pre.root_id,
            post.root_id != Some(d),
            post.pos == pre.pos,
            post.depth == pre.depth,
            post.core_tree.wf(),
            forall|id: NodeId| post.has(id) <==> pre.has(id) && id != d,
            forall|id: NodeId| #[trigger] post.has(id) ==> post.node_of(id) == pre.node_of(id),
        ensures
            post.wf(),
    {
        assert(forall|m: NodeId| #[trigger] post.has(m) ==> post.rel_of(m) == pre.rel_of(m));
        assert forall|n: NodeId| #[trigger] post.has(n) implies post.wf_at(n) by {
            assert(pre.has(n));
            pre.lemma_wf_at(n);
            if pre.rel_of(n).parent == Some(d) {
                pre.lemma_child_on_chain(d, n);
            }
            post.lemma_wf_at_intro(n);
        }
    }

    /// Frees a node to which nothing links any more.  The tree stays well
    /// formed without further repair.
    fn remove_detached(&mut self, d: NodeId) -> (r: T)
        requires
            old(self).wf(),
            old(self).has(d),
            old(self).rel_of(d) == Relatives::spec_none(),
            old(self).root_id != Some(d),
        ensures
            final(self).wf(),
            r == old(self).data_of(d),
            final(self).core_tree.id == old(self).core_tree.id,
            final(self).root_id == old(self).root_id,
            final(self).pos == old(self).pos,
            final(self).depth == old(self).depth,
            final(self).spec_count() == old(self).spec_count() - 1,
            final(self).core_tree.slab.spec_len() == old(self).core_tree.slab.spec_len(),
            final(self).core_tree.slab.cap == old(self).core_tree.slab.cap,
            forall|id: NodeId| final(self).has(id) <==> old(self).has(id) && id != d,
            forall|id: NodeId| #[trigger] final(self).has(id) ==> final(self).node_of(id) == old(self).node_of(id),
    {
        let r = match self.core_tree.remove(d) {
            Some(data) => data,
            None => unreached(),
        };
        proof {
            assert forall|id: NodeId| final(self).has(id) <==> old(self).has(id) && id != d by {
                if id.index.index == d.index.index && id != d {
                    assert(!old(self).has(id));
                }
            }
            Self::lemma_detached_removal(*old(self), *self, d);
        }
        r
    }

    /// Removes the detached subtree rooted at `h` — every node whose parent
    /// chain reaches `h` — one childless node at a time, and returns `h`'s
    /// payload.  Nodes outside the subtree are untouched.
    #[verifier::rlimit(60)]
    fn remove_detached_subtree(&mut self, h: NodeId) -> (r: T)
        requires
            old(self).wf(),
            old(self).has(h),
            old(self).rel_of(h).parent is None,
            old(self).rel_of(h).prev_sibling is None,
            old(self).rel_of(h).next_sibling is None,
            old(self).root_id != Some(h),
        ensures
            final(self).wf(),
            r == old(self).data_of(h),
            final(self).core_tree.id == old(self).core_tree.id,
            final(self).root_id == old(self).root_id,
            final(self).pos == old(self).pos,
            final(self).depth == old(self).depth,
            final(self).core_tree.slab.spec_len() == old(self).core_tree.slab.spec_len(),
            final(self).core_tree.slab.cap == old(self).core_tree.slab.cap,
            forall|id: NodeId|
                final(self).has(id) <==> old(self).has(id) && !old(self).in_subtree(id, h),
            forall|id: NodeId| #[trigger] final(self).has(id) ==> final(self).node_of(id) == old(self).node_of(id),
    {
        let ghost pre = *old(self);
        loop
            invariant
                pre == *old(self),
                self.wf(),
                self.has(h),
                self.rel_of(h).parent is None,
                self.rel_of(h).prev_sibling is None,
                self.rel_of(h).next_sibling is None,
                self.data_of(h) == pre.data_of(h),
                pre.root_id != Some(h),
                self.core_tree.id == pre.core_tree.id,
                self.root_id == pre.root_id,
                self.pos == pre.pos,
                self.depth == pre.depth,
                self.core_tree.slab.spec_len() == pre.core_tree.slab.spec_len(),
                self.core_tree.slab.cap == pre.core_tree.slab.cap,
                forall|id: NodeId| #[trigger] self.has(id) ==> pre.has(id),
                forall|id: NodeId| #[trigger] self.has(id) ==> self.node_of(id).data
                    == pre.node_of(id).data && self.rel_of(id).parent == pre.rel_of(id).parent,
                forall|id: NodeId|
                    pre.has(id) && !pre.in_subtree(id, h) ==> #[trigger] self.has(id)
                        && self.node_of(id) == pre.node_of(id),
            decreases self.spec_count(),
        {
            // Descend along first-child links to a childless node of the
            // subtree.
            let mut cur = h;
            let ghost mut path: Seq<NodeId> = seq![h];
            let ghost mut steps: nat = 0;
            proof {
                assert(self.chain_to(cur, h, 0));
            }
            let mut fc_opt = self.get_node_relatives(cur).first_child;
            while fc_opt.is_some()
                invariant
                    self.wf(),
                    self.has(cur),
                    self.chain_to(cur, h, steps),
                    fc_opt == self.rel_of(cur).first_child,
                    path.no_duplicates(),
                    path.len() > 0 && path[path.len() - 1] == cur,
                    forall|i: int| 0 <= i < path.len() ==> self.has(#[trigger] path[i]),
                    forall|i: int|
                        0 <= i < path.len() ==> self.depth@[#[trigger] path[i]]
                            <= self.depth@[cur],
                    forall|i: int, j: int|
                        0 <= i < j < path.len() ==> self.depth@[#[trigger] path[i]]
                            < self.depth@[#[trigger] path[j]],
                decreases self.core_tree.slab.spec_len() - path.len(),
            {
                let fc = fc_opt.unwrap();
                proof {
                    self.lemma_wf_at(cur);
                    self.lemma_wf_at(fc);
                    assert(self.depth@[fc] == self.depth@[cur] + 1);
                    assert(forall|i: int| 0 <= i < path.len() ==> path[i] != fc);
                    path = path.push(fc);
                    assert(path.no_duplicates());
                    self.lemma_live_ids_bounded(path);
                    assert(self.chain_to(fc, h, (steps + 1) as nat));
                    steps = steps + 1;
                }
                cur = fc;
                fc_opt = self.get_node_relatives(cur).first_child;
            }
            proof {
                self.lemma_wf_at(cur);
                assert(self.rel_of(cur).last_child is None);
            }
            let ghost stage = *self;
            let ghost cur_rel = self.rel_of(cur);
            proof {
                // The node about to go lies in the subtree as it stood at
                // the start: its parent chain survives the pruning so far.
                Self::lemma_subtree_lift(stage, pre, cur, h, steps);
                assert(pre.in_subtree(cur, h));
                if cur != h {
                    assert(steps > 0);
                }
                if stage.root_id == Some(cur) {
                    if cur != h {
                        stage.lemma_wf_at(cur);
                        assert(stage.rel_of(cur).parent is Some);
                        assert(false);
                    }
                }
            }
            self.splice_detach(cur);
            let data = self.remove_detached(cur);
            if cur == h {
                proof {
                    let fin = *self;
                    assert forall|id: NodeId|
                        fin.has(id) <==> pre.has(id) && !pre.in_subtree(id, h) by {
                        if fin.has(id) {
                            if pre.in_subtree(id, h) {
                                let k = choose|k: nat| pre.chain_to(id, h, k);
                                Self::lemma_subtree_all_removed(pre, fin, h, id, k);
                            }
                        }
                    }
                }
                return data;
            }
            proof {
                let now = *self;
                // The spliced neighbours of `cur` all lay in the old
                // subtree, so nodes outside it are exactly as they were.
                assert(steps > 0);
                if let Some(pa) = cur_rel.parent {
                    assert(stage.chain_to(pa, h, (steps - 1) as nat)) by {
                        assert(stage.chain_to(cur, h, steps));
                    }
                    Self::lemma_subtree_lift(stage, pre, pa, h, (steps - 1) as nat);
                }
                if let Some(p) = cur_rel.prev_sibling {
                    stage.lemma_wf_at(cur);
                    assert(stage.rel_of(p).parent == cur_rel.parent);
                    if let Some(pa) = cur_rel.parent {
                        assert(stage.has(p));
                        assert(stage.chain_to(p, h, ((steps - 1) + 1) as nat)) by {
                            assert(stage.chain_to(pa, h, (steps - 1) as nat)) by {
                                assert(stage.chain_to(cur, h, steps));
                            }
                        }
                        Self::lemma_subtree_lift(stage, pre, p, h, steps);
                    }
                }
                if let Some(nx) = cur_rel.next_sibling {
                    stage.lemma_wf_at(cur);
                    assert(stage.rel_of(nx).parent == cur_rel.parent);
                    if let Some(pa) = cur_rel.parent {
                        assert(stage.has(nx));
                        assert(stage.chain_to(nx, h, ((steps - 1) + 1) as nat)) by {
                            assert(stage.chain_to(pa, h, (steps - 1) as nat)) by {
                                assert(stage.chain_to(cur, h, steps));
                            }
                        }
                        Self::lemma_subtree_lift(stage, pre, nx, h, steps);
                    }
                }
                assert forall|id: NodeId|
                    pre.has(id) && !pre.in_subtree(id, h) implies #[trigger] now.has(id)
                    && now.node_of(id) == pre.node_of(id) by {
                    assert(id != cur);
                    assert(Some(id) != cur_rel.parent);
                    assert(Some(id) != cur_rel.prev_sibling);
                    assert(Some(id) != cur_rel.next_sibling);
                }
            }
        }
    }

    /// A tree with a well-formed arena holds exactly `spec_count()` live
    /// handles.
    pub proof fn lemma_live_set_card(self)
        requires
            self.core_tree.wf(),
        ensures
            Set::new(|x: NodeId| self.has(x)).finite(),
            Set::new(|x: NodeId| self.has(x)).len() == self.spec_count(),
    {
        broadcast use vstd::seq_lib::seq_to_set_is_finite;

        let slab = self.core_tree.slab;
        let occ = slab.lemma_occupied_listing();
        let tid = self.core_tree.id;
        let ids = occ.map_values(
            |j: int|
                NodeId {
                    tree_id: tid,
                    index: Index {
                        index: j as usize,
                        generation: slab.slots@[j]->generation,
                    },
                },
        );
        assert(ids.len() == occ.len());
        assert(forall|k: int|
            0 <= k < ids.len() ==> (#[trigger] ids[k]).index.index as int == occ[k]);
        assert(ids.no_duplicates()) by {
            assert forall|k1: int, k2: int|
                0 <= k1 < ids.len() && 0 <= k2 < ids.len() && k1 != k2 implies ids[k1]
                != ids[k2] by {
                assert(occ[k1] != occ[k2]);
            }
        }
        ids.unique_seq_to_set();
        assert(Set::new(|x: NodeId| self.has(x)) =~= ids.to_set()) by {
            assert forall|x: NodeId| #[trigger] self.has(x) implies ids.to_set().contains(x) by {
                let j = x.index.index as int;
                assert(slab.occupied(j));
                assert(occ.contains(j));
                let k = choose|k: int| 0 <= k < occ.len() && occ[k] == j;
                assert(ids[k] == x);
                assert(ids.contains(x));
            }
            assert forall|x: NodeId| ids.to_set().contains(x) implies self.has(x) by {
                assert(ids.contains(x));
                let k = choose|k: int| 0 <= k < ids.len() && ids[k] == x;
                assert(slab.occupied(occ[k]));
            }
        }
    }

    /// Removes the node the handle resolves to and returns its payload;
    /// absent (and nothing changed) if the handle does not resolve.
    ///
    /// The node is spliced out of its sibling chain and its parent's
    /// child-chain ends are repaired.  `DropChildren` then deletes the whole
    /// subtree below it, retiring every descendant handle for good;
    /// `OrphanChildren` keeps each direct child alive with its payload and
    /// its mutual sibling links, parent cleared.  If the removed node was
    /// the root, the root handle is cleared.
    #[verifier::rlimit(100)]
    pub fn remove(&mut self, node_id: NodeId, behavior: RemoveBehavior) -> (r: Option<T>)
        requires
            old(self).wf(),
        ensures
            final(self).wf(),
            final(self).core_tree.id == old(self).core_tree.id,
            match r {
                Some(d) => {
                    &&& old(self).has(node_id)
                    &&& d == old(self).data_of(node_id)
                    &&& !final(self).has(node_id)
                    &&& final(self).root_id == (if old(self).root_id == Some(node_id) {
                        None
                    } else {
                        old(self).root_id
                    })
                    &&& (old(self).rel_of(node_id).prev_sibling matches Some(p) ==> final(self).has(p) && final(self).node_of(p) == (Node {
                        data: old(self).data_of(p),
                        relatives: Relatives {
                            next_sibling: old(self).rel_of(node_id).next_sibling,
                            ..old(self).rel_of(p)
                        },
                    }))
                    &&& (old(self).rel_of(node_id).next_sibling matches Some(nx) ==> final(self).has(nx) && final(self).node_of(nx) == (Node {
                        data: old(self).data_of(nx),
                        relatives: Relatives {
                            prev_sibling: old(self).rel_of(node_id).prev_sibling,
                            ..old(self).rel_of(nx)
                        },
                    }))
                    &&& (old(self).rel_of(node_id).parent matches Some(pa) ==> final(self).has(pa)
                        && final(self).node_of(pa) == (Node {
                        data: old(self).data_of(pa),
                        relatives: Relatives {
                            first_child: (if old(self).rel_of(node_id).prev_sibling is None {
                                old(self).rel_of(node_id).next_sibling
                            } else {
                                old(self).rel_of(pa).first_child
                            }),
                            last_child: (if old(self).rel_of(node_id).next_sibling is None {
                                old(self).rel_of(node_id).prev_sibling
                            } else {
                                old(self).rel_of(pa).last_child
                            }),
                            ..old(self).rel_of(pa)
                        },
                    }))
                    &&& (behavior == RemoveBehavior::OrphanChildren ==> {
                        &&& final(self).spec_count() == old(self).spec_count() - 1
                        &&& (forall|id: NodeId|
                            final(self).has(id) <==> old(self).has(id) && id != node_id)
                        &&& (forall|c: NodeId|
                            old(self).has(c) && old(self).rel_of(c).parent == Some(node_id)
                                ==> final(self).node_of(c) == (Node {
                                data: old(self).data_of(c),
                                relatives: Relatives { parent: None, ..old(self).rel_of(c) },
                            }))
                        &&& (forall|id: NodeId|
                            old(self).has(id) && id != node_id && old(self).rel_of(id).parent
                                != Some(node_id) && Some(id) != old(self).rel_of(
                                node_id,
                            ).prev_sibling && Some(id) != old(self).rel_of(node_id).next_sibling
                                && Some(id) != old(self).rel_of(node_id).parent ==> final(self).node_of(id) == old(self).node_of(id))
                    })
                    &&& (behavior == RemoveBehavior::DropChildren ==> {
                        &&& final(self).spec_count() == old(self).spec_count() - Set::new(
                            |x: NodeId| old(self).has(x) && old(self).in_subtree(x, node_id),
                        ).len()
                        &&& (forall|id: NodeId|
                            final(self).has(id) <==> old(self).has(id) && !old(self).in_subtree(
                                id,
                                node_id,
                            ))
                        &&& (forall|id: NodeId|
                            final(self).has(id) && Some(id) != old(self).rel_of(
                                node_id,
                            ).prev_sibling && Some(id) != old(self).rel_of(node_id).next_sibling
                                && Some(id) != old(self).rel_of(node_id).parent ==> final(self).node_of(id) == old(self).node_of(id))
                    })
                },
                None => {
                    &&& !old(self).has(node_id)
                    &&& *final(self) == *old(self)
                },
            },
    {
        if self.get_node(node_id).is_none() {
            return None;
        }
        let ghost pre = *old(self);
        let ghost rel0 = pre.rel_of(node_id);
        proof {
            pre.lemma_wf_at(node_id);
            if let Some(p) = rel0.prev_sibling {
                pre.lemma_wf_at(p);
            }
            if let Some(nx) = rel0.next_sibling {
                pre.lemma_wf_at(nx);
            }
            if let Some(pa) = rel0.parent {
                pre.lemma_wf_at(pa);
            }
        }
        self.splice_detach(node_id);
        let ghost after_splice = *self;
        if let Some(rid) = self.root_id {
            if rid == node_id {
                self.root_id = None;
                proof {
                    Self::lemma_wf_same_structure(after_splice, *self);
                }
            }
        }
        let ghost spliced = *self;
        proof {
            // The removed node's old neighbours lie outside its subtree, and
            // subtree membership reads the same before and after the splice.
            assert(forall|y: NodeId|
                y != node_id && #[trigger] spliced.has(y) ==> pre.has(y) && pre.rel_of(y).parent
                    == spliced.rel_of(y).parent);
            assert(forall|y: NodeId|
                y != node_id && #[trigger] pre.has(y) ==> spliced.has(y) && spliced.rel_of(
                    y,
                ).parent == pre.rel_of(y).parent);
        }
        match behavior {
            RemoveBehavior::DropChildren => {
                let data = self.remove_detached_subtree(node_id);
                proof {
                    let fin = *self;
                    assert(pre.chain_to(node_id, node_id, 0));
                    assert(pre.in_subtree(node_id, node_id));
                    assert forall|id: NodeId|
                        fin.has(id) <==> pre.has(id) && !pre.in_subtree(id, node_id) by {
                        if pre.in_subtree(id, node_id) {
                            let k = choose|k: nat| pre.chain_to(id, node_id, k);
                            Self::lemma_subtree_lift(pre, spliced, id, node_id, k);
                        }
                        if spliced.in_subtree(id, node_id) {
                            let k = choose|k: nat| spliced.chain_to(id, node_id, k);
                            Self::lemma_subtree_lift(spliced, pre, id, node_id, k);
                        }
                    }
                    if let Some(p) = rel0.prev_sibling {
                        Self::lemma_neighbour_outside(pre, node_id, p);
                        assert(!spliced.in_subtree(p, node_id)) by {
                            if spliced.in_subtree(p, node_id) {
                                let k = choose|k: nat| spliced.chain_to(p, node_id, k);
                                Self::lemma_subtree_lift(spliced, pre, p, node_id, k);
                            }
                        }
                    }
                    if let Some(nx) = rel0.next_sibling {
                        Self::lemma_neighbour_outside(pre, node_id, nx);
                        assert(!spliced.in_subtree(nx, node_id)) by {
                            if spliced.in_subtree(nx, node_id) {
                                let k = choose|k: nat| spliced.chain_to(nx, node_id, k);
                                Self::lemma_subtree_lift(spliced, pre, nx, node_id, k);
                            }
                        }
                    }
                    if let Some(pa) = rel0.parent {
                        Self::lemma_neighbour_outside(pre, node_id, pa);
                        assert(!spliced.in_subtree(pa, node_id)) by {
                            if spliced.in_subtree(pa, node_id) {
                                let k = choose|k: nat| spliced.chain_to(pa, node_id, k);
                                Self::lemma_subtree_lift(spliced, pre, pa, node_id, k);
                            }
                        }
                    }
                    // The live count falls by exactly the subtree's size.
                    broadcast use vstd::set_lib::lemma_set_subset_finite;

                    let fin = *self;
                    let pre_live = Set::new(|x: NodeId| pre.has(x));
                    let fin_live = Set::new(|x: NodeId| fin.has(x));
                    let removed = Set::new(
                        |x: NodeId| pre.has(x) && pre.in_subtree(x, node_id),
                    );
                    pre.lemma_live_set_card();
                    fin.lemma_live_set_card();
                    assert(pre_live =~= fin_live + removed);
                    assert(fin_live.disjoint(removed));
                    assert(removed.subset_of(pre_live));
                    vstd::set_lib::lemma_set_disjoint_lens(fin_live, removed);
                    assert(pre_live.len() == fin_live.len() + removed.len());
                }
                Some(data)
            },
            RemoveBehavior::OrphanChildren => {
                self.orphan_children(node_id);
                let ghost orphaned = *self;
                proof {
                    assert(forall|id: NodeId| orphaned.has(id) <==> spliced.has(id));
                    assert(forall|id: NodeId| spliced.has(id) <==> pre.has(id));
                    assert(orphaned.has(node_id));
                }
                let data = match self.core_tree.remove(node_id) {
                    Some(d) => d,
                    None => unreached(),
                };
                proof {
                    let fin = *self;
                    assert forall|id: NodeId|
                        fin.has(id) <==> pre.has(id) && id != node_id by {
                        if id.index.index == node_id.index.index && id != node_id {
                            assert(!orphaned.has(id));
                        }
                    }
                    assert(forall|id: NodeId| #[trigger] fin.has(id) ==> fin.node_of(id)
                        == orphaned.node_of(id));
                    // A child of the removed node is none of its sibling
                    // neighbours or parent: the ghost depths forbid it.
                    assert forall|c: NodeId|
                        pre.has(c) && pre.rel_of(c).parent == Some(node_id) implies c != node_id
                        && Some(c) != rel0.prev_sibling && Some(c) != rel0.next_sibling && Some(c)
                        != rel0.parent by {
                        pre.lemma_wf_at(c);
                    }
                    assert forall|n: NodeId| #[trigger] fin.has(n) implies fin.wf_at(n) by {
                        assert(spliced.has(n) && n != node_id);
                        spliced.lemma_wf_at(n);
                        if spliced.rel_of(n).parent == Some(node_id) {
                            assert(fin.rel_of(n) == (Relatives {
                                parent: None,
                                ..spliced.rel_of(n)
                            }));
                            if let Some(m) = spliced.rel_of(n).next_sibling {
                                spliced.lemma_wf_at(m);
                            }
                            if let Some(m) = spliced.rel_of(n).prev_sibling {
                                spliced.lemma_wf_at(m);
                            }
                        } else {
                            assert(fin.rel_of(n) == spliced.rel_of(n));
                            if let Some(m) = spliced.rel_of(n).next_sibling {
                                spliced.lemma_wf_at(m);
                            }
                            if let Some(m) = spliced.rel_of(n).prev_sibling {
                                spliced.lemma_wf_at(m);
                            }
                            if let Some(f) = spliced.rel_of(n).first_child {
                                spliced.lemma_wf_at(f);
                            }
                            if let Some(l) = spliced.rel_of(n).last_child {
                                spliced.lemma_wf_at(l);
                            }
                        }
                        fin.lemma_wf_at_intro(n);
                    }
                }
                Some(data)
            },
        }
    }

    /// The previous sibling, next sibling and parent of a live node lie
    /// outside the subtree rooted at it.
    proof fn lemma_neighbour_outside(pre: Tree<T>, h: NodeId, y: NodeId)
        requires
            pre.wf(),
            pre.has(h),
            Some(y) == pre.rel_of(h).prev_sibling || Some(y) == pre.rel_of(h).next_sibling
                || Some(y) == pre.rel_of(h).parent,
        ensures
            !pre.in_subtree(y, h),
    {
        pre.lemma_wf_at(h);
        pre.lemma_wf_at(y);
        if pre.in_subtree(y, h) {
            let k = choose|k: nat| pre.chain_to(y, h, k);
            pre.lemma_chain_depth(y, h, k);
            if Some(y) == pre.rel_of(h).parent {
                // The parent sits one level above, but a chain would place
                // it at or below the node.
                assert(pre.depth@[h] == pre.depth@[y] + 1);
                assert(false);
            } else {
                // A sibling shares the node's parent.  With a parent, the
                // depths agree, so the chain must be empty and the sibling
                // would be the node itself, against the sibling ranks.
                // Without a parent, the sibling is parentless and no
                // nonempty chain can start at it.
                if k == 0 {
                    assert(y == h);
                    if Some(y) == pre.rel_of(h).prev_sibling {
                        assert(pre.pos@[y] < pre.pos@[h]);
                    } else {
                        assert(pre.pos@[y] > pre.pos@[h]);
                    }
                    assert(false);
                } else {
                    match pre.rel_of(h).parent {
                        Some(pa) => {
                            assert(pre.rel_of(y).parent == Some(pa));
                            assert(pre.depth@[y] == pre.depth@[pa] + 1);
                            assert(pre.depth@[h] == pre.depth@[pa] + 1);
                            assert(false);
                        },
                        None => {
                            assert(pre.rel_of(y).parent is None);
                            assert(!pre.chain_to(y, h, k));
                            assert(false);
                        },
                    }
                }
            }
        }
    }

    /// A node's parent never lies inside the subtree rooted at the node:
    /// the ghost depths forbid the cycle.
    proof fn lemma_no_parent_in_subtree(self, from: NodeId, x: NodeId)
        requires
            self.wf(),
            self.has(from),
            self.rel_of(from).parent == Some(x),
        ensures
            !self.in_subtree(x, from),
    {
        if self.in_subtree(x, from) {
            let k = choose|k: nat| self.chain_to(x, from, k);
            self.lemma_chain_depth(x, from, k);
            self.lemma_wf_at(from);
            assert(false);
        }
    }

    /// Every node of the subtree appears in a worklist order in which the
    /// start comes first and every listed node's children are listed too.
    proof fn lemma_traversal_complete(self, from: NodeId, order: Seq<NodeId>, x: NodeId, k: nat)
        requires
            self.wf(),
            order.len() > 0,
            order[0] == from,
            forall|j: int| 0 <= j < order.len() ==> self.has(#[trigger] order[j]),
            forall|j: int, c: NodeId|
                0 <= j < order.len() && #[trigger] self.has(c) && self.rel_of(c).parent == Some(
                    #[trigger] order[j],
                ) ==> order.contains(c),
            self.has(x),
            self.chain_to(x, from, k),
        ensures
            order.contains(x),
        decreases k,
    {
        if k == 0 {
            assert(order[0] == x);
        } else {
            match self.rel_of(x).parent {
                Some(p) => {
                    assert(self.has(p)) by {
                        self.lemma_wf_at(x);
                    }
                    self.lemma_traversal_complete(from, order, p, (k - 1) as nat);
                    let j = choose|j: int| 0 <= j < order.len() && order[j] == p;
                    assert(order.contains(x));
                },
                None => {},
            }
        }
    }

    /// Handles of the subtree rooted at `from`, visited breadth-first:
    /// the node itself, then its children left to right, then theirs, each
    /// exactly once.  Empty when the handle does not resolve.
    #[verifier::rlimit(60)]
    pub fn traverse_level_order(&self, from: NodeId) -> (r: Vec<NodeId>)
        requires
            self.wf(),
        ensures
            !self.has(from) ==> r@.len() == 0,
            self.has(from) ==> r@.len() > 0 && r@[0] == from,
            forall|j: int|
                0 <= j < r@.len() ==> self.has(#[trigger] r@[j]) && self.in_subtree(r@[j], from),
            forall|x: NodeId| self.has(x) && self.in_subtree(x, from) ==> r@.contains(x),
            r@.no_duplicates(),
            forall|j: int|
                0 < j < r@.len() ==> self.rel_of(#[trigger] r@[j]).parent is Some && exists|j2: int|
                    0 <= j2 < j && r@[j2] == self.rel_of(r@[j]).parent->0,
            forall|j: int|
                0 <= j < r@.len() && r@[j] != from && self.rel_of(
                    #[trigger] r@[j],
                ).next_sibling is Some ==> j + 1 < r@.len() && r@[j + 1] == self.rel_of(
                    r@[j],
                ).next_sibling->0,
    {
        let mut order: Vec<NodeId> = Vec::new();
        if self.get_node(from).is_none() {
            proof {
                assert forall|x: NodeId|
                    self.has(x) && self.in_subtree(x, from) implies order@.contains(x) by {
                    let k = choose|k: nat| self.chain_to(x, from, k);
                    self.lemma_subtree_of_dead(x, from, k);
                }
            }
            return order;
        }
        order.push(from);
        proof {
            assert(self.chain_to(from, from, 0));
        }
        let mut i: usize = 0;
        while i < order.len()
            invariant
                self.wf(),
                self.has(from),
                0 <= i <= order@.len(),
                order@.len() > 0 && order@[0] == from,
                forall|j: int|
                    0 <= j < order@.len() ==> self.has(#[trigger] order@[j]) && self.in_subtree(
                        order@[j],
                        from,
                    ),
                order@.no_duplicates(),
                forall|j: int|
                    0 < j < order@.len() ==> self.rel_of(#[trigger] order@[j]).parent is Some
                        && exists|j2: int|
                        0 <= j2 < i && j2 < j && order@[j2] == self.rel_of(
                            order@[j],
                        ).parent->0,
                forall|j: int, c: NodeId|
                    0 <= j < i && #[trigger] self.has(c) && self.rel_of(c).parent == Some(
                        #[trigger] order@[j],
                    ) ==> order@.contains(c),
                // Siblings are listed back to back: each visited batch is a
                // whole child chain.
                forall|j: int|
                    0 <= j < order@.len() && order@[j] != from && self.rel_of(
                        #[trigger] order@[j],
                    ).next_sibling is Some ==> j + 1 < order@.len() && order@[j + 1]
                        == self.rel_of(order@[j]).next_sibling->0,
            decreases self.core_tree.slab.spec_len() - i,
        {
            let n = order[i];
            let kids = self.children(n);
            let ghost entry = order@;
            let mut m: usize = 0;
            while m < kids.len()
                invariant
                    self.wf(),
                    self.has(from),
                    i < entry.len(),
                    entry.len() > 0 && entry[0] == from,
                    forall|j: int|
                        0 <= j < entry.len() ==> self.has(#[trigger] entry[j])
                            && self.in_subtree(entry[j], from),
                    entry.no_duplicates(),
                    forall|j: int|
                        0 < j < entry.len() ==> self.rel_of(#[trigger] entry[j]).parent is Some
                            && exists|j2: int|
                            0 <= j2 < i && j2 < j && entry[j2] == self.rel_of(
                                entry[j],
                            ).parent->0,
                    n == entry[i as int],
                    0 <= m <= kids@.len(),
                    forall|j: int|
                        0 <= j < kids@.len() ==> self.has(#[trigger] kids@[j]) && self.rel_of(
                            kids@[j],
                        ).parent == Some(n),
                    kids@.no_duplicates(),
                    order@ == entry.add(kids@.subrange(0, m as int)),
                decreases kids@.len() - m,
            {
                let c = kids[m];
                proof {
                    // The child is new: it is not the start (its parent lies
                    // in the subtree), not an earlier element (their parents
                    // were processed before `i`), and not an earlier child
                    // of this very node (the child list has no repeats).
                    assert(self.in_subtree(n, from));
                    if c == from {
                        self.lemma_no_parent_in_subtree(from, n);
                    }
                    assert forall|j: int| 0 <= j < order@.len() implies order@[j] != c by {
                        if j == 0 {
                        } else if j < entry.len() {
                            assert(entry[j] == order@[j]);
                        } else {
                            assert(order@[j] == kids@[j - entry.len()]);
                        }
                    }
                    let k = choose|k: nat| self.chain_to(n, from, k);
                    assert(self.chain_to(c, from, (k + 1) as nat));
                }
                order.push(c);
                proof {
                    assert(order@ == entry.add(kids@.subrange(0, m as int + 1))) by {
                        assert(kids@.subrange(0, m as int + 1) == kids@.subrange(
                            0,
                            m as int,
                        ).push(kids@[m as int]));
                    }
                }
                m = m + 1;
            }
            i = i + 1;
            proof {
                assert(kids@.subrange(0, kids@.len() as int) == kids@);
                assert(order@ == entry.add(kids@));
                // The new batch keeps siblings back to back.
                assert forall|j: int|
                    0 <= j < order@.len() && order@[j] != from && self.rel_of(
                        #[trigger] order@[j],
                    ).next_sibling is Some implies j + 1 < order@.len() && order@[j + 1]
                    == self.rel_of(order@[j]).next_sibling->0 by {
                    if j < entry.len() - 1 {
                        assert(order@[j] == entry[j]);
                        assert(order@[j + 1] == entry[j + 1]);
                    } else if j == entry.len() - 1 {
                        assert(order@[j] == entry[j]);
                    } else {
                        let t = j - entry.len();
                        assert(order@[j] == kids@[t]);
                        if t < kids@.len() - 1 {
                            assert(self.rel_of(kids@[t]).next_sibling == Some(kids@[t + 1]));
                            assert(order@[j + 1] == kids@[t + 1]);
                        }
                    }
                }
                assert(forall|j: int|
                    0 <= j < entry.len() ==> order@[j] == entry[j]);
                assert(forall|t: int|
                    0 <= t < kids@.len() ==> order@[entry.len() + t] == kids@[t]);
                // Every pushed child is live and stays inside the subtree.
                let k_n = choose|k_n: nat| self.chain_to(n, from, k_n);
                assert forall|j: int|
                    entry.len() <= j < order@.len() implies self.has(#[trigger] order@[j])
                    && self.in_subtree(order@[j], from) by {
                    assert(order@[j] == kids@[j - entry.len()]);
                    assert(self.chain_to(order@[j], from, (k_n + 1) as nat));
                }
                // No pushed child repeats an earlier element: the start has
                // no parent in the subtree, and earlier elements' parents
                // were processed before this node.
                assert forall|t: int, j: int|
                    0 <= t < kids@.len() && 0 <= j < entry.len() implies entry[j] != kids@[t] by {
                    if j == 0 {
                        if entry[0] == kids@[t] {
                            assert(self.rel_of(from).parent == Some(n));
                            self.lemma_no_parent_in_subtree(from, n);
                        }
                    } else {
                        if entry[j] == kids@[t] {
                            let j2 = choose|j2: int|
                                0 <= j2 < i - 1 && j2 < j && entry[j2] == self.rel_of(
                                    entry[j],
                                ).parent->0;
                            assert(entry[j2] == n);
                            assert(entry[i - 1] == n);
                        }
                    }
                }
                assert(order@.no_duplicates()) by {
                    assert forall|a: int, b: int|
                        0 <= a < order@.len() && 0 <= b < order@.len() && a != b implies order@[a]
                        != order@[b] by {
                        if a < entry.len() && b < entry.len() {
                            assert(entry[a] != entry[b]);
                        } else if a >= entry.len() && b >= entry.len() {
                            assert(kids@[a - entry.len()] != kids@[b - entry.len()]);
                        } else if a < entry.len() {
                            assert(entry[a] != kids@[b - entry.len()]);
                        } else {
                            assert(entry[b] != kids@[a - entry.len()]);
                        }
                    }
                }
                // Every element after the head still records a processed
                // parent earlier in the order.
                assert forall|j: int|
                    0 < j < order@.len() implies self.rel_of(#[trigger] order@[j]).parent is Some
                    && exists|j2: int|
                    0 <= j2 < i && j2 < j && order@[j2] == self.rel_of(order@[j]).parent->0 by {
                    if j < entry.len() {
                        let j2 = choose|j2: int|
                            0 <= j2 < i - 1 && j2 < j && entry[j2] == self.rel_of(
                                entry[j],
                            ).parent->0;
                        assert(order@[j2] == self.rel_of(order@[j]).parent->0);
                    } else {
                        assert(self.rel_of(order@[j]).parent == Some(n));
                        assert(order@[i - 1] == n);
                    }
                }
                assert forall|j: int, c: NodeId|
                    0 <= j < i && #[trigger] self.has(c) && self.rel_of(c).parent == Some(
                        #[trigger] order@[j],
                    ) implies order@.contains(c) by {
                    if j < i - 1 {
                        assert(entry.contains(c));
                        let j3 = choose|j3: int| 0 <= j3 < entry.len() && entry[j3] == c;
                        assert(order@[j3] == c);
                    } else {
                        assert(order@[j] == n);
                        assert(kids@.contains(c));
                        let j4 = choose|j4: int| 0 <= j4 < kids@.len() && kids@[j4] == c;
                        assert(order@[entry.len() + j4] == c);
                    }
                }
                self.lemma_live_ids_bounded(order@);
            }
        }
        proof {
            assert forall|x: NodeId|
                self.has(x) && self.in_subtree(x, from) implies order@.contains(x) by {
                let k = choose|k: nat| self.chain_to(x, from, k);
                self.lemma_traversal_complete(from, order@, x, k);
            }
        }
        order
    }

    /// In a well-formed tree a parent chain from a live node ends at a live
    /// node.
    proof fn lemma_subtree_of_dead(self, x: NodeId, h: NodeId, k: nat)
        requires
            self.wf(),
            self.has(x),
            self.chain_to(x, h, k),
        ensures
            self.has(h),
        decreases k,
    {
        if k == 0 {
        } else {
            self.lemma_wf_at(x);
            match self.rel_of(x).parent {
                Some(p) => {
                    self.lemma_subtree_of_dead(p, h, (k - 1) as nat);
                },
                None => {},
            }
        }
    }

    /// Handles of the subtree rooted at `from`, visited depth-first: each
    /// node before its children, children left to right, each node exactly
    /// once.  Empty when the handle does not resolve.
    #[verifier::rlimit(100)]
    pub fn traverse_pre_order(&self, from: NodeId) -> (r: Vec<NodeId>)
        requires
            self.wf(),
        ensures
            !self.has(from) ==> r@.len() == 0,
            self.has(from) ==> r@.len() > 0 && r@[0] == from,
            forall|j: int|
                0 <= j < r@.len() ==> self.has(#[trigger] r@[j]) && self.in_subtree(r@[j], from),
            forall|x: NodeId| self.has(x) && self.in_subtree(x, from) ==> r@.contains(x),
            r@.no_duplicates(),
            forall|j: int|
                0 < j < r@.len() ==> self.rel_of(#[trigger] r@[j]).parent is Some && exists|j2: int|
                    0 <= j2 < j && r@[j2] == self.rel_of(r@[j]).parent->0,
            forall|j: int|
                0 <= j < r@.len() && self.rel_of(#[trigger] r@[j]).first_child is Some ==> j + 1
                    < r@.len() && r@[j + 1] == self.rel_of(r@[j]).first_child->0,
    {
        let mut order: Vec<NodeId> = Vec::new();
        if self.get_node(from).is_none() {
            proof {
                assert forall|x: NodeId|
                    self.has(x) && self.in_subtree(x, from) implies order@.contains(x) by {
                    let k = choose|k: nat| self.chain_to(x, from, k);
                    self.lemma_subtree_of_dead(x, from, k);
                }
            }
            return order;
        }
        let mut stack: Vec<NodeId> = Vec::new();
        stack.push(from);
        proof {
            assert(self.chain_to(from, from, 0));
        }
        while stack.len() > 0
            invariant
                self.wf(),
                self.has(from),
                forall|j: int|
                    0 <= j < order@.len() ==> self.has(#[trigger] order@[j]) && self.in_subtree(
                        order@[j],
                        from,
                    ),
                forall|j: int|
                    0 <= j < stack@.len() ==> self.has(#[trigger] stack@[j]) && self.in_subtree(
                        stack@[j],
                        from,
                    ),
                order@.len() > 0 ==> order@[0] == from,
                order@.len() == 0 ==> stack@ == seq![from],
                order@.no_duplicates(),
                stack@.no_duplicates(),
                forall|j: int, s: int|
                    0 <= j < order@.len() && 0 <= s < stack@.len() ==> #[trigger] order@[j]
                        != #[trigger] stack@[s],
                // Every element after the start records a parent already
                // listed in the visit order.
                forall|j: int|
                    0 < j < order@.len() ==> self.rel_of(#[trigger] order@[j]).parent is Some
                        && exists|j2: int|
                        0 <= j2 < j && order@[j2] == self.rel_of(order@[j]).parent->0,
                forall|s: int|
                    0 <= s < stack@.len() && stack@[s] != from ==> self.rel_of(
                        #[trigger] stack@[s],
                    ).parent is Some && exists|j2: int|
                        0 <= j2 < order@.len() && order@[j2] == self.rel_of(stack@[s]).parent->0,
                // Children of visited nodes are visited or pending.
                forall|j: int, c: NodeId|
                    0 <= j < order@.len() && #[trigger] self.has(c) && self.rel_of(c).parent
                        == Some(#[trigger] order@[j]) ==> order@.contains(c) || stack@.contains(c),
                // Depth-first shape: each visited node's first child either
                // directly follows it or waits on top of the stack.
                forall|j: int|
                    0 <= j < order@.len() - 1 && self.rel_of(#[trigger] order@[j]).first_child
                        is Some ==> order@[j + 1] == self.rel_of(order@[j]).first_child->0,
                order@.len() > 0 && self.rel_of(order@[order@.len() - 1]).first_child is Some
                    ==> stack@.len() > 0 && stack@[stack@.len() - 1] == self.rel_of(
                    order@[order@.len() - 1],
                ).first_child->0,
            decreases self.core_tree.slab.spec_len() - order@.len(),
        {
            let ghost entry_stack = stack@;
            let n = match stack.pop() {
                Some(x) => x,
                None => unreached(),
            };
            let ghost popped_stack = stack@;
            let ghost entry_order = order@;
            proof {
                assert(popped_stack == entry_stack.subrange(0, entry_stack.len() - 1));
                assert(n == entry_stack[entry_stack.len() - 1]);
                // The popped node is new to the visit order.
                if order@.len() > 0 && n == from {
                    assert(order@[0] == from);
                }
            }
            order.push(n);
            proof {
                assert(order@ == entry_order.push(n));
                assert(order@.no_duplicates());
                self.lemma_live_ids_bounded(order@);
                // The newly visited node is the first child its predecessor
                // was waiting for, so the depth-first shape extends.
                assert forall|j: int|
                    0 <= j < order@.len() - 1 && self.rel_of(
                        #[trigger] order@[j],
                    ).first_child is Some implies order@[j + 1] == self.rel_of(
                    order@[j],
                ).first_child->0 by {
                    if j < entry_order.len() - 1 {
                        assert(order@[j] == entry_order[j]);
                        assert(order@[j + 1] == entry_order[j + 1]);
                    } else {
                        assert(j == entry_order.len() - 1);
                        assert(order@[j] == entry_order[j]);
                        assert(n == entry_stack[entry_stack.len() - 1]);
                        assert(order@[j + 1] == n);
                    }
                }
                // The freshly visited node, like all before it, records a
                // parent already in the visit order.
                assert forall|j: int|
                    0 < j < order@.len() implies self.rel_of(#[trigger] order@[j]).parent is Some
                    && exists|j2: int|
                    0 <= j2 < j && order@[j2] == self.rel_of(order@[j]).parent->0 by {
                    if j < order@.len() - 1 {
                        assert(order@[j] == entry_order[j]);
                        let j2 = choose|j2: int|
                            0 <= j2 < j && entry_order[j2] == self.rel_of(entry_order[j]).parent->0;
                        assert(order@[j2] == self.rel_of(order@[j]).parent->0);
                    } else {
                        assert(order@[j] == n);
                        assert(entry_order[0] == from);
                        assert(n != from);
                        let j2 = choose|j2: int|
                            0 <= j2 < entry_order.len() && entry_order[j2] == self.rel_of(
                                n,
                            ).parent->0;
                        assert(order@[j2] == self.rel_of(n).parent->0);
                    }
                }
            }
            let kids = self.children(n);
            let ghost base = stack@;
            let klen = kids.len();
            let mut t = klen;
            while t > 0
                invariant
                    self.wf(),
                    self.has(from),
                    0 <= t <= klen,
                    klen == kids@.len(),
                    forall|j: int|
                        0 <= j < kids@.len() ==> self.has(#[trigger] kids@[j]) && self.rel_of(
                            kids@[j],
                        ).parent == Some(n),
                    kids@.no_duplicates(),
                    stack@.len() == base.len() + (klen - t),
                    forall|j: int| 0 <= j < base.len() ==> #[trigger] stack@[j] == base[j],
                    forall|s2: int|
                        base.len() <= s2 < stack@.len() ==> #[trigger] stack@[s2] == kids@[
                            klen - 1 - (s2 - base.len())],
                decreases t,
            {
                t = t - 1;
                stack.push(kids[t]);
            }
            proof {
                let fin_stack = stack@;
                let fin_order = order@;
                let k_n = choose|k_n: nat| self.chain_to(n, from, k_n);
                // Each pushed child is live, inside the subtree, and new.
                assert forall|s: int|
                    0 <= s < fin_stack.len() implies self.has(#[trigger] fin_stack[s])
                    && self.in_subtree(fin_stack[s], from) by {
                    if s >= base.len() {
                        assert(fin_stack[s] == kids@[klen - 1 - (s - base.len())]);
                        assert(self.chain_to(fin_stack[s], from, (k_n + 1) as nat));
                    } else {
                        assert(fin_stack[s] == base[s]);
                        assert(base[s] == popped_stack[s]);
                    }
                }
                assert forall|s: int|
                    0 <= s < fin_stack.len() && fin_stack[s] != from implies self.rel_of(
                    #[trigger] fin_stack[s],
                ).parent is Some && exists|j2: int|
                    0 <= j2 < fin_order.len() && fin_order[j2] == self.rel_of(
                        fin_stack[s],
                    ).parent->0 by {
                    if s < base.len() {
                        assert(fin_stack[s] == popped_stack[s]);
                        let j2 = choose|j2: int|
                            0 <= j2 < entry_order.len() && entry_order[j2] == self.rel_of(
                                base[s],
                            ).parent->0;
                        assert(fin_order[j2] == self.rel_of(fin_stack[s]).parent->0);
                    } else {
                        assert(self.rel_of(fin_stack[s]).parent == Some(n));
                        assert(fin_order[fin_order.len() - 1] == n);
                    }
                }
                // A pushed child repeats nothing: not the start, not a
                // visited node, not a pending one.
                assert forall|a: int, b: int|
                    0 <= a < fin_stack.len() && 0 <= b < fin_stack.len() && a != b implies
                    fin_stack[a] != fin_stack[b] by {
                    if a >= base.len() && b >= base.len() {
                        assert(fin_stack[a] == kids@[klen - 1 - (a - base.len())]);
                        assert(fin_stack[b] == kids@[klen - 1 - (b - base.len())]);
                    } else if a >= base.len() || b >= base.len() {
                        let sb = if a < base.len() { a } else { b };
                        let kb = if a < base.len() { b } else { a };
                        let c = fin_stack[kb];
                        assert(c == kids@[klen - 1 - (kb - base.len())]);
                        assert(fin_stack[sb] == popped_stack[sb]);
                        if fin_stack[sb] == c {
                            assert(self.rel_of(c).parent == Some(n));
                            if base[sb] == from {
                                assert(self.rel_of(from).parent == Some(n));
                                self.lemma_no_parent_in_subtree(from, n);
                            } else {
                                let j2 = choose|j2: int|
                                    0 <= j2 < entry_order.len() && entry_order[j2] == self.rel_of(
                                        base[sb],
                                    ).parent->0;
                                assert(entry_order[j2] == n);
                                assert(fin_order[j2] == n);
                                assert(fin_order[fin_order.len() - 1] == n);
                            }
                        }
                    }
                }
                assert forall|j: int, s: int|
                    0 <= j < fin_order.len() && 0 <= s < fin_stack.len() implies #[trigger]
                fin_order[j] != #[trigger] fin_stack[s] by {
                    if s >= base.len() {
                        let c = fin_stack[s];
                        assert(c == kids@[klen - 1 - (s - base.len())]);
                        if fin_order[j] == c {
                            assert(self.rel_of(c).parent == Some(n));
                            if j == 0 {
                                assert(fin_order[0] == from);
                                assert(self.rel_of(from).parent == Some(n));
                                self.lemma_no_parent_in_subtree(from, n);
                            } else if j < fin_order.len() - 1 {
                                let j2 = choose|j2: int|
                                    0 <= j2 < j && fin_order[j2] == self.rel_of(
                                        fin_order[j],
                                    ).parent->0;
                                assert(fin_order[j2] == n);
                                assert(fin_order[fin_order.len() - 1] == n);
                            } else {
                                assert(fin_order[j] == n);
                                assert(self.rel_of(c).parent == Some(n));
                                self.lemma_wf_at(c);
                            }
                        }
                    } else {
                        assert(fin_stack[s] == base[s]);
                        assert(base[s] == popped_stack[s]);
                        if j < fin_order.len() - 1 {
                            assert(fin_order[j] == entry_order[j]);
                            assert(entry_order[j] != popped_stack[s]);
                        } else {
                            assert(fin_order[j] == n);
                            assert(n != popped_stack[s]);
                        }
                    }
                }
                // If the just-visited node has children, its first child
                // now tops the stack.
                if self.rel_of(n).first_child is Some {
                    assert(klen > 0);
                    assert(fin_stack[base.len() + (klen - 1)] == kids@[0]);
                    assert(kids@[0] == self.rel_of(n).first_child->0);
                }
                // Children of visited nodes stay covered.
                assert forall|j: int, c: NodeId|
                    0 <= j < fin_order.len() && #[trigger] self.has(c) && self.rel_of(c).parent
                        == Some(#[trigger] fin_order[j]) implies fin_order.contains(c)
                    || fin_stack.contains(c) by {
                    if j < fin_order.len() - 1 {
                        if entry_order.contains(c) {
                            let j3 = choose|j3: int|
                                0 <= j3 < entry_order.len() && entry_order[j3] == c;
                            assert(fin_order[j3] == c);
                        } else {
                            assert(entry_order.contains(c) || entry_stack.contains(c));
                            assert(popped_stack.contains(c) || c == n) by {
                                let s4 = choose|s4: int|
                                    0 <= s4 < entry_stack.len() && entry_stack[s4] == c;
                                if s4 < entry_stack.len() - 1 {
                                    assert(popped_stack[s4] == c);
                                }
                            }
                            if c == n {
                                assert(fin_order[fin_order.len() - 1] == c);
                            } else {
                                let s3 = choose|s3: int|
                                    0 <= s3 < popped_stack.len() && popped_stack[s3] == c;
                                assert(fin_stack[s3] == c);
                            }
                        }
                    } else {
                        assert(fin_order[j] == n);
                        assert(kids@.contains(c));
                        let j4 = choose|j4: int| 0 <= j4 < kids@.len() && kids@[j4] == c;
                        assert(fin_stack[base.len() + (klen - 1 - j4)] == c);
                    }
                }
            }
        }
        proof {
            assert forall|x: NodeId|
                self.has(x) && self.in_subtree(x, from) implies order@.contains(x) by {
                let k = choose|k: nat| self.chain_to(x, from, k);
                self.lemma_traversal_complete(from, order@, x, k);
            }
        }
        order
    }

    /// Makes `root` the new root of the tree.  If a root already existed, it
    /// is shifted down: the prior root becomes the sole child of the new
    /// one.
    #[verifier::rlimit(100)]
    pub fn set_root(&mut self, root: T) -> (r: NodeId)
        requires
            old(self).wf(),
            old(self).core_tree.slab.spec_len() < usize::MAX,
        ensures
            final(self).wf(),
            final(self).core_tree.id == old(self).core_tree.id,
            final(self).root_id == Some(r),
            r.tree_id == old(self).core_tree.id,
            !old(self).has(r),
            final(self).has(r),
            final(self).spec_count() == old(self).spec_count() + 1,
            final(self).core_tree.slab.spec_len() <= old(self).core_tree.slab.spec_len() + 1,
            final(self).node_of(r) == (Node {
                data: root,
                relatives: Relatives {
                    parent: None,
                    prev_sibling: None,
                    next_sibling: None,
                    first_child: old(self).root_id,
                    last_child: old(self).root_id,
                },
            }),
            (old(self).root_id matches Some(o) ==> final(self).node_of(o) == (Node {
                data: old(self).data_of(o),
                relatives: Relatives { parent: Some(r), ..old(self).rel_of(o) },
            })),
            forall|id: NodeId| old(self).has(id) ==> final(self).has(id),
            forall|id: NodeId| !old(self).has(id) && id != r ==> !final(self).has(id),
            forall|id: NodeId|
                old(self).has(id) && Some(id) != old(self).root_id ==> final(self).node_of(id)
                    == old(self).node_of(id),
    {
        let old_root_id = self.root_id;
        let new_root_id = self.core_tree.insert(root);
        let ghost mid = *self;
        self.root_id = Some(new_root_id);

        self.set_relatives(
            new_root_id,
            Relatives {
                parent: None,
                prev_sibling: None,
                next_sibling: None,
                first_child: old_root_id,
                last_child: old_root_id,
            },
        );
        proof {
            assert(forall|id: NodeId| self.has(id) <==> mid.has(id));
            assert(forall|id: NodeId|
                id != new_root_id && self.has(id) ==> self.node_of(id) == mid.node_of(id));
            assert(forall|id: NodeId| mid.has(id) <==> old(self).has(id) || id == new_root_id);
            assert(forall|id: NodeId|
                id != new_root_id && mid.has(id) ==> mid.node_of(id) == old(self).node_of(id));
        }

        if let Some(node_id) = old_root_id {
            let rel = self.get_node_relatives(node_id);
            let ghost mid2 = *self;
            self.set_relatives(node_id, Relatives { parent: Some(new_root_id), ..rel });
            proof {
                assert(forall|id: NodeId| self.has(id) <==> mid2.has(id));
                assert(forall|id: NodeId|
                    id != node_id && self.has(id) ==> self.node_of(id) == mid2.node_of(id));
                assert(forall|id: NodeId| self.has(id) <==> old(self).has(id) || id
                    == new_root_id);
                assert(forall|id: NodeId|
                    id != node_id && id != new_root_id && self.has(id) ==> self.node_of(id) == old(self).node_of(id));
                // Every old node sinks one level; the new root takes the old
                // root's former depth, so the shifted-down root again lies
                // one level below its parent.
                let d = self.depth@;
                let o = node_id;
                self.depth@ = Map::total(
                    |k: NodeId|
                        if k == new_root_id {
                            d[o]
                        } else {
                            (d[k] + 1) as nat
                        },
                );
                assert(forall|id: NodeId|
                    id != new_root_id ==> self.depth@[id] == old(self).depth@[id] + 1);
                assert(self.depth@[new_root_id] == old(self).depth@[o]);
            }
        } else {
            proof {
                assert(forall|id: NodeId| self.has(id) <==> old(self).has(id) || id
                    == new_root_id);
                assert(forall|id: NodeId|
                    id != new_root_id && self.has(id) ==> self.node_of(id) == old(self).node_of(
                        id,
                    ));
            }
        }
        proof {
            let fin = *self;
            let pre = *old(self);
            assert(forall|id: NodeId| fin.has(id) <==> pre.has(id) || id == new_root_id);
            assert(fin.node_of(new_root_id) == (Node {
                data: root,
                relatives: Relatives {
                    parent: None,
                    prev_sibling: None,
                    next_sibling: None,
                    first_child: old_root_id,
                    last_child: old_root_id,
                },
            }));
            if let Some(o) = old_root_id {
                assert(o != new_root_id);
                assert(fin.node_of(o) == (Node {
                    data: pre.data_of(o),
                    relatives: Relatives { parent: Some(new_root_id), ..pre.rel_of(o) },
                }));
                assert(forall|id: NodeId|
                    id != new_root_id && id != o && fin.has(id) ==> fin.node_of(id)
                        == pre.node_of(id));
                assert(forall|id: NodeId|
                    id != new_root_id ==> fin.depth@[id] == pre.depth@[id] + 1);
                assert(fin.depth@[new_root_id] == pre.depth@[o]);
            } else {
                assert(forall|id: NodeId|
                    id != new_root_id && fin.has(id) ==> fin.node_of(id) == pre.node_of(id));
            }
            assert(forall|id: NodeId| fin.pos@[id] == pre.pos@[id]);
            assert forall|n: NodeId| #[trigger] fin.has(n) implies fin.wf_at(n) by {
                if n == new_root_id {
                } else {
                    assert(pre.has(n));
                    pre.lemma_wf_at(n);
                    if Some(n) == pre.root_id {
                    } else {
                        if pre.rel_of(n).parent == pre.root_id && pre.rel_of(n).parent is Some {
                            pre.lemma_wf_at(pre.rel_of(n).parent->0);
                        }
                    }
                }
                if let Some(o) = old_root_id {
                    pre.lemma_wf_at(o);
                }
                fin.lemma_wf_at_intro(n);
            }
        }
        new_root_id
    }

    /// Inserts `data` as the new last child of `parent_id`, linking it at
    /// the tail of the sibling chain; returns the fresh child handle, or
    /// absent (with the tree untouched) if `parent_id` does not resolve.
    ///
    /// One entry point serves both construction styles: the caller keeps
    /// the parent handle to add further siblings, and descends through the
    /// returned child handle.
    #[verifier::rlimit(100)]
    pub fn append_child(&mut self, parent_id: NodeId, data: T) -> (r: Option<NodeId>)
        requires
            old(self).wf(),
            old(self).core_tree.slab.spec_len() < usize::MAX,
        ensures
            final(self).wf(),
            final(self).core_tree.id == old(self).core_tree.id,
            final(self).root_id == old(self).root_id,
            match r {
                Some(c) => {
                    &&& old(self).has(parent_id)
                    &&& !old(self).has(c)
                    &&& c != parent_id
                    &&& c.tree_id == old(self).core_tree.id
                    &&& final(self).has(c)
                    &&& final(self).spec_count() == old(self).spec_count() + 1
                    &&& final(self).core_tree.slab.spec_len() <= old(self).core_tree.slab.spec_len() + 1
                    &&& final(self).node_of(c) == (Node {
                        data,
                        relatives: Relatives {
                            parent: Some(parent_id),
                            prev_sibling: old(self).rel_of(parent_id).last_child,
                            next_sibling: None,
                            first_child: None,
                            last_child: None,
                        },
                    })
                    &&& final(self).node_of(parent_id) == (Node {
                        data: old(self).data_of(parent_id),
                        relatives: Relatives {
                            first_child: (if old(self).rel_of(parent_id).first_child is None {
                                Some(c)
                            } else {
                                old(self).rel_of(parent_id).first_child
                            }),
                            last_child: Some(c),
                            ..old(self).rel_of(parent_id)
                        },
                    })
                    &&& (old(self).rel_of(parent_id).last_child matches Some(l) ==> l != parent_id
                        && final(self).node_of(l) == (Node {
                        data: old(self).data_of(l),
                        relatives: Relatives { next_sibling: Some(c), ..old(self).rel_of(l) },
                    }))
                    &&& forall|id: NodeId| old(self).has(id) ==> final(self).has(id)
                    &&& forall|id: NodeId| !old(self).has(id) && id != c ==> !final(self).has(id)
                    &&& forall|id: NodeId|
                        old(self).has(id) && id != parent_id && Some(id) != old(self).rel_of(
                            parent_id,
                        ).last_child ==> final(self).node_of(id) == old(self).node_of(id)
                },
                None => !old(self).has(parent_id) && *final(self) == *old(self),
            },
    {
        if self.get_node(parent_id).is_none() {
            return None;
        }
        let rel = self.get_node_relatives(parent_id);
        let old_last = rel.last_child;
        let new_id = self.core_tree.insert(data);
        let ghost mid = *self;
        proof {
            old(self).lemma_wf_at(parent_id);
            if let Some(l) = old_last {
                old(self).lemma_wf_at(l);
            }
        }
        self.set_relatives(
            new_id,
            Relatives {
                parent: Some(parent_id),
                prev_sibling: old_last,
                next_sibling: None,
                first_child: None,
                last_child: None,
            },
        );
        proof {
            assert(forall|id: NodeId| self.has(id) <==> mid.has(id));
            assert(forall|id: NodeId|
                id != new_id && self.has(id) ==> self.node_of(id) == mid.node_of(id));
        }
        let ghost mid2 = *self;
        self.set_relatives(
            parent_id,
            Relatives {
                first_child: (match rel.first_child {
                    Some(f) => Some(f),
                    None => Some(new_id),
                }),
                last_child: Some(new_id),
                ..rel
            },
        );
        proof {
            assert(forall|id: NodeId| self.has(id) <==> mid2.has(id));
            assert(forall|id: NodeId|
                id != parent_id && self.has(id) ==> self.node_of(id) == mid2.node_of(id));
        }
        let ghost mid3 = *self;
        if let Some(l) = old_last {
            self.set_next_sibling(l, Some(new_id));
            proof {
                assert(forall|id: NodeId| self.has(id) <==> mid3.has(id));
                assert(forall|id: NodeId|
                    id != l && self.has(id) ==> self.node_of(id) == mid3.node_of(id));
            }
        }
        proof {
            let pre = *old(self);
            assert(forall|id: NodeId| mid.has(id) <==> pre.has(id) || id == new_id);
            assert(forall|id: NodeId| self.has(id) <==> mid.has(id));
            assert(forall|id: NodeId|
                id != new_id && mid.has(id) ==> mid.node_of(id) == pre.node_of(id));
            assert forall|id: NodeId|
                id != new_id && id != parent_id && Some(id) != old_last && self.has(id)
                implies self.node_of(id) == pre.node_of(id) by {
                }
            assert(self.node_of(new_id) == (Node {
                data,
                relatives: Relatives {
                    parent: Some(parent_id),
                    prev_sibling: old_last,
                    next_sibling: None,
                    first_child: None,
                    last_child: None,
                },
            }));
            if let Some(l) = old_last {
                pre.lemma_wf_at(l);
                pre.lemma_wf_at(parent_id);
                assert(l != parent_id && l != new_id);
                assert(self.node_of(l) == (Node {
                    data: pre.data_of(l),
                    relatives: Relatives { next_sibling: Some(new_id), ..pre.rel_of(l) },
                }));
            }
            assert(self.node_of(parent_id) == (Node {
                data: pre.data_of(parent_id),
                relatives: Relatives {
                    first_child: (if pre.rel_of(parent_id).first_child is None {
                        Some(new_id)
                    } else {
                        pre.rel_of(parent_id).first_child
                    }),
                    last_child: Some(new_id),
                    ..pre.rel_of(parent_id)
                },
            }));
            self.depth@ = self.depth@.insert(new_id, (self.depth@[parent_id] + 1) as nat);
            self.pos@ = self.pos@.insert(
                new_id,
                match old_last {
                    Some(l) => (self.pos@[l] + 1) as nat,
                    None => 0,
                },
            );
            let fin = *self;
            assert(forall|id: NodeId| fin.has(id) <==> pre.has(id) || id == new_id);
            assert(forall|id: NodeId|
                id != new_id ==> fin.depth@[id] == pre.depth@[id] && fin.pos@[id] == pre.pos@[id]);
            assert forall|n: NodeId| #[trigger] fin.has(n) implies fin.wf_at(n) by {
                if n != new_id {
                    assert(pre.has(n));
                    pre.lemma_wf_at(n);
                }
                if let Some(l) = old_last {
                    pre.lemma_wf_at(l);
                }
                pre.lemma_wf_at(parent_id);
                fin.lemma_wf_at_intro(n);
            }
        }
        Some(new_id)
    }

    /// Inserts `data` as the new first child of `parent_id`, linking it at
    /// the head of the sibling chain; returns the fresh child handle, or
    /// absent (with the tree untouched) if `parent_id` does not resolve.
    #[verifier::rlimit(100)]
    pub fn prepend_child(&mut self, parent_id: NodeId, data: T) -> (r: Option<NodeId>)
        requires
            old(self).wf(),
            old(self).core_tree.slab.spec_len() < usize::MAX,
        ensures
            final(self).wf(),
            final(self).core_tree.id == old(self).core_tree.id,
            final(self).root_id == old(self).root_id,
            match r {
                Some(c) => {
                    &&& old(self).has(parent_id)
                    &&& !old(self).has(c)
                    &&& c != parent_id
                    &&& c.tree_id == old(self).core_tree.id
                    &&& final(self).has(c)
                    &&& final(self).spec_count() == old(self).spec_count() + 1
                    &&& final(self).core_tree.slab.spec_len() <= old(self).core_tree.slab.spec_len() + 1
                    &&& final(self).node_of(c) == (Node {
                        data,
                        relatives: Relatives {
                            parent: Some(parent_id),
                            prev_sibling: None,
                            next_sibling: old(self).rel_of(parent_id).first_child,
                            first_child: None,
                            last_child: None,
                        },
                    })
                    &&& final(self).node_of(parent_id) == (Node {
                        data: old(self).data_of(parent_id),
                        relatives: Relatives {
                            first_child: Some(c),
                            last_child: (if old(self).rel_of(parent_id).last_child is None {
                                Some(c)
                            } else {
                                old(self).rel_of(parent_id).last_child
                            }),
                            ..old(self).rel_of(parent_id)
                        },
                    })
                    &&& (old(self).rel_of(parent_id).first_child matches Some(f) ==> f != parent_id
                        && final(self).node_of(f) == (Node {
                        data: old(self).data_of(f),
                        relatives: Relatives { prev_sibling: Some(c), ..old(self).rel_of(f) },
                    }))
                    &&& forall|id: NodeId| old(self).has(id) ==> final(self).has(id)
                    &&& forall|id: NodeId| !old(self).has(id) && id != c ==> !final(self).has(id)
                    &&& forall|id: NodeId|
                        old(self).has(id) && id != parent_id && Some(id) != old(self).rel_of(
                            parent_id,
                        ).first_child ==> final(self).node_of(id) == old(self).node_of(id)
                },
                None => !old(self).has(parent_id) && *final(self) == *old(self),
            },
    {
        if self.get_node(parent_id).is_none() {
            return None;
        }
        let rel = self.get_node_relatives(parent_id);
        let old_first = rel.first_child;
        let new_id = self.core_tree.insert(data);
        let ghost mid = *self;
        proof {
            old(self).lemma_wf_at(parent_id);
            if let Some(f) = old_first {
                old(self).lemma_wf_at(f);
            }
        }
        self.set_relatives(
            new_id,
            Relatives {
                parent: Some(parent_id),
                prev_sibling: None,
                next_sibling: old_first,
                first_child: None,
                last_child: None,
            },
        );
        proof {
            assert(forall|id: NodeId| self.has(id) <==> mid.has(id));
            assert(forall|id: NodeId|
                id != new_id && self.has(id) ==> self.node_of(id) == mid.node_of(id));
        }
        let ghost mid2 = *self;
        self.set_relatives(
            parent_id,
            Relatives {
                first_child: Some(new_id),
                last_child: (match rel.last_child {
                    Some(l) => Some(l),
                    None => Some(new_id),
                }),
                ..rel
            },
        );
        proof {
            assert(forall|id: NodeId| self.has(id) <==> mid2.has(id));
            assert(forall|id: NodeId|
                id != parent_id && self.has(id) ==> self.node_of(id) == mid2.node_of(id));
        }
        let ghost mid3 = *self;
        if let Some(f) = old_first {
            self.set_prev_sibling(f, Some(new_id));
            proof {
                assert(forall|id: NodeId| self.has(id) <==> mid3.has(id));
                assert(forall|id: NodeId|
                    id != f && self.has(id) ==> self.node_of(id) == mid3.node_of(id));
            }
        }
        proof {
            let pre = *old(self);
            assert(forall|id: NodeId| mid.has(id) <==> pre.has(id) || id == new_id);
            assert(forall|id: NodeId| self.has(id) <==> mid.has(id));
            assert(forall|id: NodeId|
                id != new_id && mid.has(id) ==> mid.node_of(id) == pre.node_of(id));
            assert forall|id: NodeId|
                id != new_id && id != parent_id && Some(id) != old_first && self.has(id)
                implies self.node_of(id) == pre.node_of(id) by {
                }
            assert(self.node_of(new_id) == (Node {
                data,
                relatives: Relatives {
                    parent: Some(parent_id),
                    prev_sibling: None,
                    next_sibling: old_first,
                    first_child: None,
                    last_child: None,
                },
            }));
            if let Some(f) = old_first {
                pre.lemma_wf_at(f);
                pre.lemma_wf_at(parent_id);
                assert(f != parent_id && f != new_id);
                assert(self.node_of(f) == (Node {
                    data: pre.data_of(f),
                    relatives: Relatives { prev_sibling: Some(new_id), ..pre.rel_of(f) },
                }));
            }
            assert(self.node_of(parent_id) == (Node {
                data: pre.data_of(parent_id),
                relatives: Relatives {
                    first_child: Some(new_id),
                    last_child: (if pre.rel_of(parent_id).last_child is None {
                        Some(new_id)
                    } else {
                        pre.rel_of(parent_id).last_child
                    }),
                    ..pre.rel_of(parent_id)
                },
            }));
            self.depth@ = self.depth@.insert(new_id, (self.depth@[parent_id] + 1) as nat);
            // Give the new head rank 0 and push every other rank up by one,
            // so the chain stays strictly increasing.
            let p = self.pos@;
            self.pos@ = Map::total(
                |k: NodeId|
                    if k == new_id {
                        0
                    } else {
                        (p[k] + 1) as nat
                    },
            );
            let fin = *self;
            assert(forall|id: NodeId| fin.has(id) <==> pre.has(id) || id == new_id);
            assert(forall|id: NodeId|
                id != new_id ==> fin.depth@[id] == pre.depth@[id] && fin.pos@[id] == pre.pos@[id]
                    + 1);
            assert forall|n: NodeId| #[trigger] fin.has(n) implies fin.wf_at(n) by {
                if n != new_id {
                    assert(pre.has(n));
                    pre.lemma_wf_at(n);
                }
                if let Some(f) = old_first {
                    pre.lemma_wf_at(f);
                }
                pre.lemma_wf_at(parent_id);
                fin.lemma_wf_at_intro(n);
            }
        }
        Some(new_id)
    }
}

impl<T> Tree<T> {
    /// In an order where every later element records its parent earlier,
    /// a node never precedes one of its proper ancestors.
    proof fn lemma_order_respects_ancestry(
        self,
        order: Seq<NodeId>,
        x: NodeId,
        y: NodeId,
        ix: int,
        iy: int,
        k: nat,
    )
        requires
            order.no_duplicates(),
            forall|j: int|
                0 < j < order.len() ==> self.rel_of(#[trigger] order[j]).parent is Some && exists|
                    j2: int,
                |
                    0 <= j2 < j && order[j2] == self.rel_of(order[j]).parent->0,
            self.rel_of(order[0]).parent is None,
            0 <= ix < order.len(),
            0 <= iy < order.len(),
            order[ix] == x,
            order[iy] == y,
            self.chain_to(x, y, k),
        ensures
            iy <= ix,
            k > 0 ==> iy < ix,
        decreases k,
    {
        if k == 0 {
            assert(x == y);
            if ix != iy {
                assert(order[ix] != order[iy]);
            }
        } else {
            match self.rel_of(x).parent {
                Some(p) => {
                    assert(ix > 0) by {
                        if ix == 0 {
                            assert(self.rel_of(order[0]).parent is None);
                        }
                    }
                    let jp = choose|j2: int|
                        0 <= j2 < ix && order[j2] == self.rel_of(order[ix]).parent->0;
                    self.lemma_order_respects_ancestry(order, p, y, jp, iy, (k - 1) as nat);
                },
                None => {},
            }
        }
    }
}

impl<T: PartialEq> Tree<T> {
    /// Handles of every node reachable from the root whose payload compares
    /// equal to `data`, in level order; absent when the tree is empty or
    /// nothing matches.  The returned handles follow the normal staleness
    /// rules if the tree is mutated afterwards.
    #[verifier::rlimit(60)]
    pub fn find(&self, data: &T) -> (r: Option<Vec<NodeId>>)
        requires
            self.wf(),
        ensures
            self.root_id is None ==> r is None,
            T::obeys_eq_spec() ==> match r {
                Some(v) => {
                    &&& v@.len() > 0
                    &&& self.root_id is Some
                    &&& forall|j: int|
                        0 <= j < v@.len() ==> self.has(#[trigger] v@[j]) && self.in_subtree(
                            v@[j],
                            self.root_id->0,
                        ) && self.data_of(v@[j]).eq_spec(data)
                    &&& forall|x: NodeId|
                        self.has(x) && self.in_subtree(x, self.root_id->0) && self.data_of(
                            x,
                        ).eq_spec(data) ==> v@.contains(x)
                    &&& v@.no_duplicates()
                    // Matches come in visit order: a node never precedes
                    // one of its own ancestors.
                    &&& forall|a: int, b: int|
                        0 <= a < b < v@.len() ==> !self.in_subtree(#[trigger] v@[a], #[trigger] v@[b])
                },
                None => (self.root_id matches Some(rt) ==> forall|x: NodeId|
                    self.has(x) && self.in_subtree(x, rt) ==> !self.data_of(x).eq_spec(data)),
            },
    {
        let root_id = match self.root_id {
            Some(rt) => rt,
            None => {
                return None;
            },
        };
        let order = self.traverse_level_order(root_id);
        let mut found: Vec<NodeId> = Vec::new();
        let ghost mut srcidx: Seq<int> = Seq::empty();
        let mut idx: usize = 0;
        while idx < order.len()
            invariant
                self.wf(),
                self.root_id == Some(root_id),
                self.has(root_id),
                0 <= idx <= order@.len(),
                srcidx.len() == found@.len(),
                forall|t: int|
                    0 <= t < srcidx.len() ==> 0 <= #[trigger] srcidx[t] < idx && order@[srcidx[t]]
                        == found@[t],
                forall|a: int, b: int| 0 <= a < b < srcidx.len() ==> srcidx[a] < srcidx[b],
                forall|j: int|
                    0 < j < order@.len() ==> self.rel_of(#[trigger] order@[j]).parent is Some
                        && exists|j2: int|
                        0 <= j2 < j && order@[j2] == self.rel_of(order@[j]).parent->0,
                forall|j: int|
                    0 <= j < order@.len() ==> self.has(#[trigger] order@[j]) && self.in_subtree(
                        order@[j],
                        root_id,
                    ),
                forall|x: NodeId| self.has(x) && self.in_subtree(x, root_id) ==> order@.contains(x),
                order@.no_duplicates(),
                found@.no_duplicates(),
                forall|j: int|
                    0 <= j < found@.len() ==> exists|j2: int|
                        0 <= j2 < idx && order@[j2] == #[trigger] found@[j],
                T::obeys_eq_spec() ==> forall|j: int|
                    0 <= j < found@.len() ==> self.has(#[trigger] found@[j]) && self.in_subtree(
                        found@[j],
                        root_id,
                    ) && self.data_of(found@[j]).eq_spec(data),
                T::obeys_eq_spec() ==> forall|j: int|
                    0 <= j < idx ==> (self.data_of(#[trigger] order@[j]).eq_spec(data)
                        <==> found@.contains(order@[j])),
            decreases order@.len() - idx,
        {
            let nid = order[idx];
            let node = match self.get_node(nid) {
                Some(n) => n,
                None => unreached(),
            };
            let ghost old_found = found@;
            let is_match = node.data().eq(data);
            if is_match {
                proof {
                    assert forall|j: int| 0 <= j < old_found.len() implies old_found[j] != nid by {
                        let j2 = choose|j2: int|
                            0 <= j2 < idx && order@[j2] == old_found[j];
                        if order@[j2] == nid {
                            assert(order@[j2] == order@[idx as int]);
                            assert(j2 == idx);
                        }
                    }
                }
                found.push(nid);
                proof {
                    srcidx = srcidx.push(idx as int);
                }
            }
            idx = idx + 1;
            proof {
                if T::obeys_eq_spec() {
                    assert forall|j: int|
                        0 <= j < idx implies (self.data_of(#[trigger] order@[j]).eq_spec(data)
                            <==> found@.contains(order@[j])) by {
                        if j < idx - 1 {
                            if old_found.contains(order@[j]) {
                                let t = choose|t: int|
                                    0 <= t < old_found.len() && old_found[t] == order@[j];
                                assert(found@[t] == order@[j]);
                            }
                            if found@.contains(order@[j]) {
                                let t = choose|t: int|
                                    0 <= t < found@.len() && found@[t] == order@[j];
                                if t == found@.len() - 1 && is_match && found@.len()
                                    == old_found.len() + 1 {
                                    assert(order@[j] == nid);
                                    assert(j == idx - 1);
                                } else {
                                    assert(old_found[t] == order@[j]);
                                }
                            }
                        } else {
                            assert(order@[j] == nid);
                            if is_match {
                                assert(found@[found@.len() - 1] == nid);
                            } else {
                                if found@.contains(nid) {
                                    let t = choose|t: int|
                                        0 <= t < found@.len() && found@[t] == nid;
                                    let j2 = choose|j2: int|
                                        0 <= j2 < idx - 1 && order@[j2] == found@[t];
                                    assert(order@[j2] == order@[idx - 1]);
                                    assert(j2 == idx - 1);
                                }
                            }
                        }
                    }
                }
            }
        }
        if found.len() == 0 {
            proof {
                if T::obeys_eq_spec() {
                    assert forall|x: NodeId|
                        self.has(x) && self.in_subtree(x, root_id) implies !self.data_of(
                        x,
                    ).eq_spec(data) by {
                        let j = choose|j: int| 0 <= j < order@.len() && order@[j] == x;
                        if self.data_of(x).eq_spec(data) {
                            assert(found@.contains(order@[j]));
                        }
                    }
                }
            }
            None
        } else {
            proof {
                if T::obeys_eq_spec() {
                    assert forall|x: NodeId|
                        self.has(x) && self.in_subtree(x, self.root_id->0) && self.data_of(
                        x,
                    ).eq_spec(data) implies found@.contains(x) by {
                        let j = choose|j: int| 0 <= j < order@.len() && order@[j] == x;
                        assert(found@.contains(order@[j]));
                    }
                }
                assert forall|a: int, b: int|
                    0 <= a < b < found@.len() implies !self.in_subtree(
                    #[trigger] found@[a],
                    #[trigger] found@[b],
                ) by {
                    if self.in_subtree(found@[a], found@[b]) {
                        let k = choose|k: nat| self.chain_to(found@[a], found@[b], k);
                        assert(self.rel_of(order@[0]).parent is None) by {
                            assert(order@[0] == root_id);
                        }
                        if k == 0 {
                            assert(order@[srcidx[a]] != order@[srcidx[b]]);
                        } else {
                            self.lemma_order_respects_ancestry(
                                order@,
                                found@[a],
                                found@[b],
                                srcidx[a],
                                srcidx[b],
                                k,
                            );
                        }
                    }
                }
            }
            Some(found)
        }
    }
}

/// One row of a render plan: a node together with the prefix of its own
/// line and the prefix its children's lines start with.
pub open spec fn spec_row_id(row: (NodeId, String, String)) -> NodeId {
    row.0
}

impl<T> Tree<T> {
    /// The connector a node's line carries: a corner before a last sibling,
    /// a tee otherwise.
    pub open spec fn connector_of(self, id: NodeId) -> Seq<char> {
        if self.rel_of(id).next_sibling is None {
            "\u{2514}\u{2500}\u{2500} "@
        } else {
            "\u{251c}\u{2500}\u{2500} "@
        }
    }

    /// The continuation column a node contributes below itself: blank under
    /// a last sibling, a bar otherwise.
    pub open spec fn continuation_of(self, id: NodeId) -> Seq<char> {
        if self.rel_of(id).next_sibling is None {
            "    "@
        } else {
            "\u{2502}   "@
        }
    }

    /// The rows describe this tree's rendering: the root first with empty
    /// prefixes; every node reachable from the root exactly once, each
    /// first child directly after its parent; and every later row's
    /// prefixes are its parent's child-prefix extended by the connector and
    /// continuation chosen by its last-sibling position.
    pub open spec fn valid_render_plan(self, rows: Seq<(NodeId, String, String)>) -> bool {
        &&& rows.len() > 0
        &&& self.root_id == Some(rows[0].0)
        &&& rows[0].1@ == Seq::<char>::empty()
        &&& rows[0].2@ == Seq::<char>::empty()
        &&& forall|j: int|
            0 <= j < rows.len() ==> self.has((#[trigger] rows[j]).0) && self.in_subtree(
                rows[j].0,
                rows[0].0,
            )
        &&& forall|x: NodeId|
            self.has(x) && self.in_subtree(x, rows[0].0) ==> exists|j: int|
                0 <= j < rows.len() && (#[trigger] rows[j]).0 == x
        &&& forall|i: int, j: int|
            0 <= i < rows.len() && 0 <= j < rows.len() && i != j ==> (#[trigger] rows[i]).0 != (
            #[trigger] rows[j]).0
        &&& forall|j: int|
            0 < j < rows.len() ==> self.rel_of((#[trigger] rows[j]).0).parent is Some && exists|
                jp: int,
            |
                0 <= jp < j && rows[jp].0 == self.rel_of(rows[j].0).parent->0 && rows[j].1@
                    == rows[jp].2@ + self.connector_of(rows[j].0) && rows[j].2@ == rows[jp].2@
                    + self.continuation_of(rows[j].0)
        &&& forall|j: int|
            0 <= j < rows.len() && self.rel_of((#[trigger] rows[j]).0).first_child is Some ==> j
                + 1 < rows.len() && rows[j + 1].0 == self.rel_of(rows[j].0).first_child->0
    }
}

/// The text of a sequence of rendered lines: each line's prefix, then its
/// label, then a newline, in order.
pub open spec fn spec_render_lines(lines: Seq<(Seq<char>, Seq<char>)>) -> Seq<char>
    decreases lines.len(),
{
    if lines.len() == 0 {
        Seq::<char>::empty()
    } else {
        lines[0].0 + lines[0].1 + "\n"@ + spec_render_lines(lines.drop_first())
    }
}

/// Appending a line appends its text.
proof fn lemma_render_lines_push(lines: Seq<(Seq<char>, Seq<char>)>, p: Seq<char>, l: Seq<char>)
    ensures
        spec_render_lines(lines.push((p, l))) == spec_render_lines(lines) + p + l + "\n"@,
    decreases lines.len(),
{
    let whole = lines.push((p, l));
    if lines.len() == 0 {
        assert(whole[0] == (p, l));
        assert(whole.drop_first() =~= Seq::<(Seq<char>, Seq<char>)>::empty());
        assert(spec_render_lines(whole.drop_first()) == Seq::<char>::empty());
        assert(spec_render_lines(whole) == p + l + "\n"@ + Seq::<char>::empty());
        assert(spec_render_lines(lines) == Seq::<char>::empty());
        assert(p + l + "\n"@ + Seq::<char>::empty() =~= Seq::<char>::empty() + p + l + "\n"@);
        assert(Seq::<char>::empty() + p + l + "\n"@ =~= spec_render_lines(lines) + p + l
            + "\n"@);
    } else {
        assert(whole.drop_first() =~= lines.drop_first().push((p, l)));
        lemma_render_lines_push(lines.drop_first(), p, l);
        assert(whole[0] == lines[0]);
        assert(spec_render_lines(whole) == lines[0].0 + lines[0].1 + "\n"@ + (spec_render_lines(
            lines.drop_first(),
        ) + p + l + "\n"@));
        assert(lines[0].0 + lines[0].1 + "\n"@ + (spec_render_lines(lines.drop_first()) + p + l
            + "\n"@) =~= (lines[0].0 + lines[0].1 + "\n"@ + spec_render_lines(lines.drop_first()))
            + p + l + "\n"@);
    }
}

/// Every line contributes at least its newline, so the text is at least as
/// long as the line count.
proof fn lemma_render_lines_len(lines: Seq<(Seq<char>, Seq<char>)>)
    ensures
        spec_render_lines(lines).len() >= lines.len(),
    decreases lines.len(),
{
    reveal_strlit("\n");
    if lines.len() > 0 {
        lemma_render_lines_len(lines.drop_first());
    }
}

/// Renders one payload as text.
///
/// Relies on std's `Display` formatting for `T`: `format!` writes the
/// value's textual form.  Nothing is promised of the result.  Where a
/// payload's `Display` implementation reports an error, `format!` aborts
/// instead of handing the error on.
#[verifier::external_body]
fn fmt_value<T: std::fmt::Display>(value: &T) -> String {
    format!("{}", value)
}

impl<T: std::fmt::Display> Tree<T> {
    /// Lays the tree out for rendering: one row per reachable node in
    /// depth-first order, each carrying the prefix of its own line and the
    /// prefix of its children's lines.
    fn render_plan(&self) -> (r: Vec<(NodeId, String, String)>)
        requires
            self.wf(),
            self.root_id is Some,
        ensures
            self.valid_render_plan(r@),
    {
        let root_id = match self.root_id {
            Some(rt) => rt,
            None => unreached(),
        };
        let order = self.traverse_pre_order(root_id);
        let mut rows: Vec<(NodeId, String, String)> = Vec::new();
        let mut j: usize = 0;
        while j < order.len()
            invariant
                self.wf(),
                self.root_id == Some(root_id),
                self.has(root_id),
                0 <= j <= order@.len(),
                rows@.len() == j,
                order@.len() > 0 && order@[0] == root_id,
                forall|t: int|
                    0 <= t < order@.len() ==> self.has(#[trigger] order@[t]) && self.in_subtree(
                        order@[t],
                        root_id,
                    ),
                order@.no_duplicates(),
                forall|t: int|
                    0 < t < order@.len() ==> self.rel_of(#[trigger] order@[t]).parent is Some
                        && exists|t2: int|
                        0 <= t2 < t && order@[t2] == self.rel_of(order@[t]).parent->0,
                forall|t: int| 0 <= t < j ==> (#[trigger] rows@[t]).0 == order@[t],
                j > 0 ==> rows@[0].1@ == Seq::<char>::empty() && rows@[0].2@
                    == Seq::<char>::empty(),
                forall|t: int|
                    0 < t < j ==> exists|tp: int|
                        0 <= tp < t && (#[trigger] rows@[t]).0 == rows@[t].0 && rows@[tp].0
                            == self.rel_of(rows@[t].0).parent->0 && rows@[t].1@ == rows@[tp].2@
                            + self.connector_of(rows@[t].0) && rows@[t].2@ == rows@[tp].2@
                            + self.continuation_of(rows@[t].0),
            decreases order@.len() - j,
        {
            let nid = order[j];
            if j == 0 {
                rows.push((nid, String::new(), String::new()));
            } else {
                let rel = self.get_node_relatives(nid);
                let parent_id = match rel.parent {
                    Some(p) => p,
                    None => unreached(),
                };
                // The parent was visited earlier; find its row.
                let ghost tp0 = choose|t2: int|
                    0 <= t2 < j && order@[t2] == self.rel_of(order@[j as int]).parent->0;
                let mut t: usize = 0;
                while rows[t].0 != parent_id
                    invariant
                        0 <= t <= tp0,
                        tp0 < j,
                        j <= rows@.len(),
                        rows@[tp0].0 == parent_id,
                        forall|u: int| 0 <= u < t ==> (#[trigger] rows@[u]).0 != parent_id,
                    decreases tp0 - t,
                {
                    t = t + 1;
                    proof {
                        if t > tp0 {
                            assert(rows@[tp0].0 != parent_id);
                            assert(false);
                        }
                    }
                }
                let parent_row_child = String::from_str(rows[t].2.as_str());
                let mut line = String::from_str(parent_row_child.as_str());
                let mut below = String::from_str(parent_row_child.as_str());
                let is_last = match rel.next_sibling {
                    None => true,
                    Some(_) => false,
                };
                if is_last {
                    line.append("\u{2514}\u{2500}\u{2500} ");
                    below.append("    ");
                } else {
                    line.append("\u{251c}\u{2500}\u{2500} ");
                    below.append("\u{2502}   ");
                }
                let ghost old_rows = rows@;
                rows.push((nid, line, below));
                proof {
                    assert(forall|u: int| 0 <= u < old_rows.len() ==> rows@[u] == old_rows[u]);
                    assert(rows@[j as int].0 == nid);
                    assert(rows@[t as int].0 == parent_id);
                    assert(rows@[j as int].1@ == rows@[t as int].2@ + self.connector_of(nid));
                    assert(rows@[j as int].2@ == rows@[t as int].2@ + self.continuation_of(nid));
                }
            }
            j = j + 1;
        }
        proof {
            let fin = rows@;
            assert(fin.len() == order@.len());
            assert(forall|t: int| 0 <= t < fin.len() ==> (#[trigger] fin[t]).0 == order@[t]);
            assert forall|x: NodeId|
                self.has(x) && self.in_subtree(x, fin[0].0) implies exists|t: int|
                0 <= t < fin.len() && (#[trigger] fin[t]).0 == x by {
                assert(order@.contains(x));
                let t = choose|t: int| 0 <= t < order@.len() && order@[t] == x;
                assert(fin[t].0 == x);
            }
            assert forall|t: int|
                0 <= t < fin.len() && self.rel_of((#[trigger] fin[t]).0).first_child
                    is Some implies t + 1 < fin.len() && fin[t + 1].0 == self.rel_of(
                fin[t].0,
            ).first_child->0 by {
                assert(order@[t] == fin[t].0);
            }
        }
        rows
    }

    /// Concatenates the plan's lines: each row's prefix, then the payload's
    /// text, then a newline.  The prefixes and the line count are fixed by
    /// the plan; the labels are whatever the payloads render to.
    fn render_lines(&self, plan: &Vec<(NodeId, String, String)>) -> (r: String)
        requires
            self.wf(),
            forall|j: int| 0 <= j < plan@.len() ==> self.has((#[trigger] plan@[j]).0),
        ensures
            exists|labels: Seq<Seq<char>>|
                #![trigger labels.len()]
                labels.len() == plan@.len() && r@ == spec_render_lines(
                    Seq::new(plan@.len(), |j: int| (plan@[j].1@, labels[j])),
                ),
    {
        let mut out = String::new();
        let ghost mut labels: Seq<Seq<char>> = Seq::empty();
        let mut j: usize = 0;
        while j < plan.len()
            invariant
                self.wf(),
                forall|t: int| 0 <= t < plan@.len() ==> self.has((#[trigger] plan@[t]).0),
                0 <= j <= plan@.len(),
                labels.len() == j,
                out@ == spec_render_lines(
                    Seq::new(j as nat, |t: int| (plan@[t].1@, labels[t])),
                ),
            decreases plan@.len() - j,
        {
            let row = &plan[j];
            let node = match self.get_node(row.0) {
                Some(n) => n,
                None => unreached(),
            };
            out.append(row.1.as_str());
            let text = fmt_value(node.data());
            out.append(text.as_str());
            out.append("\n");
            proof {
                let prev = Seq::new(j as nat, |t: int| (plan@[t].1@, labels[t]));
                lemma_render_lines_push(prev, plan@[j as int].1@, text@);
                labels = labels.push(text@);
                assert(Seq::new((j + 1) as nat, |t: int| (plan@[t].1@, labels[t])) =~= prev.push(
                    (plan@[j as int].1@, text@),
                ));
            }
            j = j + 1;
        }
        out
    }

    /// The indentation-and-connector text form of the tree: one line per
    /// node, depth first, the root bare, every other line prefixed by its
    /// parent's continuation columns and a corner connector before a last
    /// sibling or a tee otherwise.  An empty tree renders to the empty
    /// string.  The per-node text itself comes from the payloads' own
    /// formatting and is not pinned here; everything around it is.
    pub fn write_formatted(&self) -> (r: String)
        requires
            self.wf(),
        ensures
            self.root_id is None ==> r@ == Seq::<char>::empty(),
            self.root_id is Some ==> r@.len() > 0 && exists|
                rows: Seq<(NodeId, String, String)>,
                labels: Seq<Seq<char>>,
            |
                #![trigger rows.len(), labels.len()]
                self.valid_render_plan(rows) && labels.len() == rows.len() && r@
                    == spec_render_lines(Seq::new(rows.len(), |j: int| (rows[j].1@, labels[j]))),
    {
        match self.root_id {
            None => String::new(),
            Some(_) => {
                let plan = self.render_plan();
                let r = self.render_lines(&plan);
                proof {
                    let rows = plan@;
                    let labels = choose|labels: Seq<Seq<char>>|
                        #![trigger labels.len()]
                        labels.len() == plan@.len() && r@ == spec_render_lines(
                            Seq::new(plan@.len(), |j: int| (plan@[j].1@, labels[j])),
                        );
                    lemma_render_lines_len(Seq::new(rows.len(), |j: int| (rows[j].1@, labels[j])));
                }
                r
            },
        }
    }
}

/// A read-only cursor: a borrow of the tree bound to one live node.
/// Navigation returns further cursors of the same kind, or absent when the
/// relative does not exist.
pub struct NodeRef<'a, T> {
    pub tree: &'a Tree<T>,
    pub node_id: NodeId,
}

impl<'a, T> NodeRef<'a, T> {
    /// The cursor points at a live node of a well-formed tree.
    pub open spec fn wf(self) -> bool {
        self.tree.wf() && self.tree.has(self.node_id)
    }

    /// The handle of the node the cursor points at.
    pub fn node_id(&self) -> (r: NodeId)
        ensures
            r == self.node_id,
    {
        self.node_id
    }

    /// The payload of the node the cursor points at.
    pub fn data(&self) -> (r: &T)
        requires
            self.wf(),
        ensures
            *r == self.tree.data_of(self.node_id),
    {
        match self.tree.get_node(self.node_id) {
            Some(n) => n.data(),
            None => unreached(),
        }
    }

    /// A cursor at the parent, if the node has one.
    pub fn parent(&self) -> (r: Option<NodeRef<'a, T>>)
        requires
            self.wf(),
        ensures
            match r {
                Some(c) => c.tree == self.tree && Some(c.node_id) == self.tree.rel_of(
                    self.node_id,
                ).parent && c.wf(),
                None => self.tree.rel_of(self.node_id).parent is None,
            },
    {
        let rel = self.tree.get_node_relatives(self.node_id);
        proof {
            self.tree.lemma_wf_at(self.node_id);
        }
        match rel.parent {
            Some(id) => Some(NodeRef { tree: self.tree, node_id: id }),
            None => None,
        }
    }

    /// A cursor at the first child, if the node has children.
    pub fn first_child(&self) -> (r: Option<NodeRef<'a, T>>)
        requires
            self.wf(),
        ensures
            match r {
                Some(c) => c.tree == self.tree && Some(c.node_id) == self.tree.rel_of(
                    self.node_id,
                ).first_child && c.wf(),
                None => self.tree.rel_of(self.node_id).first_child is None,
            },
    {
        let rel = self.tree.get_node_relatives(self.node_id);
        proof {
            self.tree.lemma_wf_at(self.node_id);
        }
        match rel.first_child {
            Some(id) => Some(NodeRef { tree: self.tree, node_id: id }),
            None => None,
        }
    }

    /// A cursor at the last child, if the node has children.
    pub fn last_child(&self) -> (r: Option<NodeRef<'a, T>>)
        requires
            self.wf(),
        ensures
            match r {
                Some(c) => c.tree == self.tree && Some(c.node_id) == self.tree.rel_of(
                    self.node_id,
                ).last_child && c.wf(),
                None => self.tree.rel_of(self.node_id).last_child is None,
            },
    {
        let rel = self.tree.get_node_relatives(self.node_id);
        proof {
            self.tree.lemma_wf_at(self.node_id);
        }
        match rel.last_child {
            Some(id) => Some(NodeRef { tree: self.tree, node_id: id }),
            None => None,
        }
    }

    /// A cursor at the next sibling, if there is one.
    pub fn next_sibling(&self) -> (r: Option<NodeRef<'a, T>>)
        requires
            self.wf(),
        ensures
            match r {
                Some(c) => c.tree == self.tree && Some(c.node_id) == self.tree.rel_of(
                    self.node_id,
                ).next_sibling && c.wf(),
                None => self.tree.rel_of(self.node_id).next_sibling is None,
            },
    {
        let rel = self.tree.get_node_relatives(self.node_id);
        proof {
            self.tree.lemma_wf_at(self.node_id);
        }
        match rel.next_sibling {
            Some(id) => Some(NodeRef { tree: self.tree, node_id: id }),
            None => None,
        }
    }

    /// A cursor at the previous sibling, if there is one.
    pub fn prev_sibling(&self) -> (r: Option<NodeRef<'a, T>>)
        requires
            self.wf(),
        ensures
            match r {
                Some(c) => c.tree == self.tree && Some(c.node_id) == self.tree.rel_of(
                    self.node_id,
                ).prev_sibling && c.wf(),
                None => self.tree.rel_of(self.node_id).prev_sibling is None,
            },
    {
        let rel = self.tree.get_node_relatives(self.node_id);
        proof {
            self.tree.lemma_wf_at(self.node_id);
        }
        match rel.prev_sibling {
            Some(id) => Some(NodeRef { tree: self.tree, node_id: id }),
            None => None,
        }
    }
}

impl<T> Tree<T> {
    /// A read cursor at the root node, if the tree has one.
    pub fn root(&self) -> (r: Option<NodeRef<T>>)
        requires
            self.wf(),
        ensures
            match r {
                Some(c) => self.root_id == Some(c.node_id) && c.tree == self && c.wf(),
                None => self.root_id is None,
            },
    {
        match self.root_id {
            Some(id) => Some(NodeRef { tree: self, node_id: id }),
            None => None,
        }
    }

    /// A read cursor at the node the handle resolves to; absent for a stale
    /// handle or one from another tree.
    pub fn get(&self, node_id: NodeId) -> (r: Option<NodeRef<T>>)
        requires
            self.wf(),
        ensures
            match r {
                Some(c) => self.has(node_id) && c.node_id == node_id && c.tree == self && c.wf(),
                None => !self.has(node_id),
            },
    {
        match self.get_node(node_id) {
            Some(_) => Some(NodeRef { tree: self, node_id }),
            None => None,
        }
    }
}

impl<T> TreeBuilder<T> {
    /// Creates a builder with no root value and no pre-reserved capacity.
    pub fn new() -> (r: TreeBuilder<T>)
        ensures
            r.root is None,
            r.capacity is None,
    {
        TreeBuilder { root: None, capacity: None }
    }

    /// Sets the root value the built tree will start with.
    pub fn with_root(self, root: T) -> (r: TreeBuilder<T>)
        ensures
            r.root == Some(root),
            r.capacity == self.capacity,
    {
        TreeBuilder { root: Some(root), capacity: self.capacity }
    }

    /// Sets the capacity the built tree will pre-reserve.
    pub fn with_capacity(self, capacity: usize) -> (r: TreeBuilder<T>)
        ensures
            r.root == self.root,
            r.capacity == Some(capacity),
    {
        TreeBuilder { root: self.root, capacity: Some(capacity) }
    }

    /// Builds the tree: an arena of the chosen capacity, holding the chosen
    /// root value (if any) as an unattached root node.
    pub fn build(self) -> (r: Tree<T>)
        ensures
            r.wf(),
            r.core_tree.slab.cap == (match (self.capacity, self.root) {
                (Some(c), Some(_)) => if c == 0 { 1 } else { c },
                (Some(c), None) => c,
                (None, Some(_)) => 1,
                (None, None) => 0,
            }),
            match self.root {
                Some(data) => {
                    &&& r.root_id matches Some(rid)
                    &&& r.has(rid)
                    &&& r.node_of(rid) == Node::spec_new(data)
                    &&& r.spec_count() == 1
                },
                None => r.root_id is None && r.spec_count() == 0 && (forall|id: NodeId|
                    !r.has(id)),
            },
    {
        let capacity = match self.capacity {
            Some(c) => c,
            None => 0,
        };
        let mut core_tree: CoreTree<T> = CoreTree::new(capacity);
        let root_id = match self.root {
            Some(val) => Some(core_tree.insert(val)),
            None => None,
        };
        let tree = Tree {
            root_id,
            core_tree,
            pos: Ghost(Map::empty()),
            depth: Ghost(Map::empty()),
        };
        proof {
            assert forall|n: NodeId| #[trigger] tree.has(n) implies tree.wf_at(n) by {
                assert(tree.rel_of(n) == Relatives::spec_none());
                tree.lemma_wf_at_intro(n);
            }
        }
        tree
    }
}

impl<T> Default for TreeBuilder<T> {
    /// The default builder: no root value, no pre-reserved capacity.
    fn default() -> (r: Self)
        ensures
            r.root is None,
            r.capacity is None,
    {
        TreeBuilder::new()
    }
}

impl<T> Default for Tree<T> {
    /// The default tree: empty, with a capacity of 0.
    fn default() -> (r: Self)
        ensures
            r.wf(),
            r.root_id is None,
            r.spec_count() == 0,
    {
        TreeBuilder::new().build()
    }
}

} // verus!
