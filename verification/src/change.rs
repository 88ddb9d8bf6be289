//! Change events: what a widget tells listeners outside the tree.

use vstd::prelude::*;

verus! {

/// An event that a widget emits when one of its values changes. It is
/// apart from the change flags that drive rendering.
#[derive(Clone, Debug)]
pub struct Change<T> {
    /// The widget node that emits the event.
    pub target: u64,
    /// What has changed.
    pub data: T,
}

} // verus!
