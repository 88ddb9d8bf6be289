//! The hook registry of one widget node: persistent state that outlives a
//! render. The states are found again by the order in which a render asks
//! for them.

use crate::store::NodeStore;
use vstd::prelude::*;

verus! {

/// A persistent record behind one hook call site of one widget node.
pub struct StateNode<S> {
    /// The entity that stands for this state.
    pub id: u64,
    /// The record itself.
    pub value: S,
    /// Whether the record was written since its owner's predicate last ran.
    pub changed: bool,
}

/// The states of one owning node, by call ordinal, and the ordinal of the
/// next call in the render that is under way.
pub struct HookHelper<S> {
    pub states: Vec<StateNode<S>>,
    pub cursor: usize,
}

impl<S> HookHelper<S> {
    /// The state identities by call ordinal.
    pub open spec fn ids(self) -> Seq<u64> {
        Seq::new(self.states@.len(), |k: int| self.states@[k].id)
    }

    /// The records of the states by call ordinal.
    pub open spec fn values(self) -> Seq<S> {
        Seq::new(self.states@.len(), |k: int| self.states@[k].value)
    }

    /// Whether `x` is the identity of one of the states.
    pub open spec fn owns(self, x: u64) -> bool {
        exists|k: int| 0 <= k < self.states@.len() && (#[trigger] self.states@[k]).id == x
    }

    /// No identity stands for two states, and the next ordinal is at most
    /// one past the last state.
    pub open spec fn wf(self) -> bool {
        &&& self.cursor <= self.states@.len()
        &&& forall|a: int, b: int|
            0 <= a < b < self.states@.len() ==> (#[trigger] self.states@[a]).id != (
            #[trigger] self.states@[b]).id
    }

    /// Every state is an entity of `store`.
    pub open spec fn alive_in(self, store: NodeStore) -> bool {
        forall|k: int|
            0 <= k < self.states@.len() ==> store.live().contains(
                (#[trigger] self.states@[k]).id,
            )
    }

    /// Whether one of the states was written since the flags were last cleared.
    pub open spec fn has_changed(self) -> bool {
        exists|k: int| 0 <= k < self.states@.len() && (#[trigger] self.states@[k]).changed
    }

    /// A registry without states.
    pub fn new() -> (hooks: HookHelper<S>)
        ensures
            hooks.states@.len() == 0,
            hooks.cursor == 0,
    {
        HookHelper { states: Vec::new(), cursor: 0 }
    }

    /// Starts a render: the next call of `use_state` has ordinal zero.
    pub fn reset(&mut self)
        ensures
            final(self).states == old(self).states,
            final(self).cursor == 0,
    {
        self.cursor = 0;
    }

    /// The state of the next call site. The first render that reaches an
    /// ordinal creates the state, with `initial` as its record; every later
    /// one gets the same state back and `initial` is dropped. Where a state
    /// is to be created and the store is full, nothing changes and nothing
    /// is handed back.
    pub fn use_state(&mut self, store: &mut NodeStore, initial: S) -> (id: Option<u64>)
        requires
            old(self).wf(),
            old(self).alive_in(*old(store)),
        ensures
            final(self).wf(),
            final(self).alive_in(*final(store)),
            old(self).cursor < old(self).states@.len() ==> {
                &&& id == Some(old(self).states@[old(self).cursor as int].id)
                &&& final(self).states@ == old(self).states@
                &&& final(self).cursor == old(self).cursor + 1
                &&& *final(store) == *old(store)
            },
            old(self).cursor == old(self).states@.len() && old(store).has_room(1) ==> {
                &&& id is Some
                &&& !old(store).live().contains(id->0)
                &&& final(store).live() == old(store).live().insert(id->0)
                &&& final(store).live().len() == old(store).live().len() + 1
                &&& final(self).states@ == old(self).states@.push(
                    StateNode { id: id->0, value: initial, changed: false },
                )
                &&& final(self).cursor == old(self).cursor + 1
            },
            old(self).cursor == old(self).states@.len() && !old(store).has_room(1) ==> {
                &&& id is None
                &&& *final(self) == *old(self)
                &&& *final(store) == *old(store)
            },
    {
        let k: usize = self.cursor;
        if k < self.states.len() {
            self.cursor = k + 1;
            Some(self.states[k].id)
        } else {
            match store.create_node() {
                Some(id) => {
                    self.states.push(StateNode { id, value: initial, changed: false });
                    self.cursor = self.states.len();
                    Some(id)
                },
                None => None,
            }
        }
    }

    /// The ordinal of the state with identity `id`, if there is one.
    pub fn position(&self, id: u64) -> (at: Option<usize>)
        ensures
            match at {
                Some(k) => k < self.states@.len() && self.states@[k as int].id == id && forall|
                    j: int,
                | 0 <= j < k ==> (#[trigger] self.states@[j]).id != id,
                None => !self.owns(id),
            },
    {
        let mut k: usize = 0;
        while k < self.states.len()
            invariant
                k <= self.states@.len(),
                forall|j: int| 0 <= j < k ==> (#[trigger] self.states@[j]).id != id,
            decreases self.states@.len() - k,
        {
            if self.states[k].id == id {
                return Some(k);
            }
            k += 1;
        }
        None
    }

    /// Clears the change flag of every state.
    pub fn clear_changed(&mut self)
        ensures
            final(self).cursor == old(self).cursor,
            final(self).states@.len() == old(self).states@.len(),
            forall|k: int|
                0 <= k < old(self).states@.len() ==> (#[trigger] final(self).states@[k]) == (
                StateNode { changed: false, ..old(self).states@[k] }),
    {
        let mut k: usize = 0;
        while k < self.states.len()
            invariant
                k <= self.states@.len(),
                self.cursor == old(self).cursor,
                self.states@.len() == old(self).states@.len(),
                forall|j: int|
                    0 <= j < k ==> (#[trigger] self.states@[j]) == (StateNode {
                        changed: false,
                        ..old(self).states@[j]
                    }),
                forall|j: int|
                    k <= j < self.states@.len() ==> (#[trigger] self.states@[j]) == old(
                        self,
                    ).states@[j],
            decreases self.states@.len() - k,
        {
            self.states[k].changed = false;
            k += 1;
        }
    }

    /// Despawns every state.
    pub fn destroy(self, store: &mut NodeStore)
        ensures
            forall|x: u64|
                #![trigger final(store).live().contains(x)]
                final(store).live().contains(x) <==> old(store).live().contains(
                    x,
                ) && !self.owns(x),
    {
        let HookHelper { states, cursor: _ } = self;
        let mut states = states;
        let ghost all = states@;
        while states.len() > 0
            invariant
                states@ == all.subrange(0, states@.len() as int),
                states@.len() <= all.len(),
                forall|x: u64|
                    #![trigger store.live().contains(x)]
                    store.live().contains(x) <==> old(store).live().contains(x)
                        && !(exists|k: int|
                        states@.len() <= k < all.len() && (#[trigger] all[k]).id == x),
            decreases states@.len(),
        {
            let ghost n = states@.len() - 1;
            let state = states.pop().unwrap();
            assert(state == all[n]);
            let _gone: bool = store.destroy_node(state.id);
        }
    }
}

} // verus!
