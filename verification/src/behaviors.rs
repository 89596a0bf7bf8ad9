use vstd::prelude::*;

verus! {

/// What happens to a removed node's children.
#[derive(Clone, Copy, Debug, PartialEq, Eq, Structural)]
pub enum RemoveBehavior {
    /// Delete the entire subtree rooted at the removed node: every
    /// descendant handle becomes permanently invalid.
    DropChildren,
    /// Keep the children alive in storage: their mutual sibling order is
    /// preserved, their parent becomes absent, and they are reachable only
    /// through handles the caller already holds.
    OrphanChildren,
}

} // verus!
