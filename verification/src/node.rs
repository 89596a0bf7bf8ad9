use crate::NodeId;
use vstd::prelude::*;

verus! {

/// The five optional handles that place a node in the tree: its parent, its
/// two neighbours in the sibling chain, and the two ends of its own child
/// chain.
#[derive(Clone, Copy, Debug)]
pub struct Relatives {
    pub parent: Option<NodeId>,
    pub prev_sibling: Option<NodeId>,
    pub next_sibling: Option<NodeId>,
    pub first_child: Option<NodeId>,
    pub last_child: Option<NodeId>,
}

impl Relatives {
    /// Relatives of a node that is attached to nothing.
    pub open spec fn spec_none() -> Relatives {
        Relatives {
            parent: None,
            prev_sibling: None,
            next_sibling: None,
            first_child: None,
            last_child: None,
        }
    }

    /// Creates relatives with every handle absent.
    pub fn none() -> (r: Relatives)
        ensures
            r == Relatives::spec_none(),
    {
        Relatives {
            parent: None,
            prev_sibling: None,
            next_sibling: None,
            first_child: None,
            last_child: None,
        }
    }
}

/// One stored record: the payload plus the relatives that maintain the tree
/// topology around it.
#[derive(Clone, Copy, Debug)]
pub struct Node<T> {
    pub data: T,
    pub relatives: Relatives,
}

impl<T> Node<T> {
    /// A fresh, unattached node holding `data`.
    pub open spec fn spec_new(data: T) -> Node<T> {
        Node { data, relatives: Relatives::spec_none() }
    }

    /// Creates a node holding `data` with no relatives.
    pub fn new(data: T) -> (r: Node<T>)
        ensures
            r == Node::spec_new(data),
    {
        Node { data, relatives: Relatives::none() }
    }

    /// The payload.
    pub fn data(&self) -> (r: &T)
        ensures
            *r == self.data,
    {
        &self.data
    }

    /// The payload, exclusively borrowed for mutation in place.
    pub fn data_mut(&mut self) -> (r: &mut T)
        ensures
            *r == old(self).data,
            final(self).data == *final(r),
            final(self).relatives == old(self).relatives,
    {
        &mut self.data
    }

    /// Swaps `data` into the node and hands the old payload back.
    pub fn replace_data(&mut self, data: T) -> (r: T)
        ensures
            r == old(self).data,
            final(self).data == data,
            final(self).relatives == old(self).relatives,
    {
        let mut data = data;
        core::mem::swap(&mut data, &mut self.data);
        data
    }

    /// The parent's handle, if the node has a parent.
    pub fn parent(&self) -> (r: Option<&NodeId>)
        ensures
            match r {
                Some(id) => self.relatives.parent == Some(*id),
                None => self.relatives.parent is None,
            },
    {
        self.relatives.parent.as_ref()
    }

    /// The previous sibling's handle, if there is one.
    pub fn prev_sibling(&self) -> (r: Option<&NodeId>)
        ensures
            match r {
                Some(id) => self.relatives.prev_sibling == Some(*id),
                None => self.relatives.prev_sibling is None,
            },
    {
        self.relatives.prev_sibling.as_ref()
    }

    /// The next sibling's handle, if there is one.
    pub fn next_sibling(&self) -> (r: Option<&NodeId>)
        ensures
            match r {
                Some(id) => self.relatives.next_sibling == Some(*id),
                None => self.relatives.next_sibling is None,
            },
    {
        self.relatives.next_sibling.as_ref()
    }

    /// The first child's handle, if the node has children.
    pub fn first_child(&self) -> (r: Option<&NodeId>)
        ensures
            match r {
                Some(id) => self.relatives.first_child == Some(*id),
                None => self.relatives.first_child is None,
            },
    {
        self.relatives.first_child.as_ref()
    }

    /// The last child's handle, if the node has children.
    pub fn last_child(&self) -> (r: Option<&NodeId>)
        ensures
            match r {
                Some(id) => self.relatives.last_child == Some(*id),
                None => self.relatives.last_child is None,
            },
    {
        self.relatives.last_child.as_ref()
    }
}

} // verus!
