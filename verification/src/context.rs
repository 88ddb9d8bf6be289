//! The context of a visit: which node is being rendered.

use vstd::prelude::*;

verus! {

/// The node that a predicate or a render routine is running for. It is a
/// plain value: an event handler that is registered during a render keeps
/// it, and resolves it against the tree when the event arrives.
#[derive(Clone, Copy, Debug, PartialEq, Eq, Structural)]
pub struct CurrentWidget {
    pub entity: u64,
}

/// The node that a list of children is finalized for.
#[derive(Clone, Copy, Debug, PartialEq, Eq, Structural)]
pub struct ParentWidget {
    pub entity: u64,
}

impl CurrentWidget {
    /// The identity of the current node.
    pub fn entity(&self) -> (id: u64)
        ensures
            id == self.entity,
    {
        self.entity
    }

    /// The current node in its role as the owner of a list of children.
    pub fn as_parent(&self) -> (parent: ParentWidget)
        ensures
            parent.entity == self.entity,
    {
        ParentWidget { entity: self.entity }
    }
}

} // verus!
