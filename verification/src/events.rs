//! Writing to hook states from outside a pass. An event handler keeps the
//! identity of a state and resolves it against the tree when the event
//! arrives; by then the state may be gone.

use crate::hooks::StateNode;
use crate::node::WidgetNode;
use vstd::prelude::*;

verus! {

impl<P, S> WidgetNode<P, S> {
    /// Whether a state with identity `id` is held by this node or below it.
    pub open spec fn has_state(self, id: u64) -> bool
        decreases self,
    {
        ||| self.hooks.owns(id)
        ||| exists|i: int|
            0 <= i < self.children@.len() && (#[trigger] self.children@[i]).has_state(id)
    }

    /// Whether a state with identity `id` and record `value` is held by
    /// this node or below it.
    pub open spec fn holds_state(self, id: u64, value: S) -> bool
        decreases self,
    {
        ||| exists|k: int|
            0 <= k < self.hooks.states@.len() && (#[trigger] self.hooks.states@[k]).id == id
                && self.hooks.states@[k].value == value
        ||| exists|i: int|
            0 <= i < self.children@.len() && (#[trigger] self.children@[i]).holds_state(id, value)
    }

    /// `next` is this tree with `value` written to every state with
    /// identity `id`, each flagged as changed, and nothing else touched.
    pub open spec fn state_written(self, next: WidgetNode<P, S>, id: u64, value: S) -> bool
        decreases self,
    {
        &&& next == (WidgetNode { hooks: next.hooks, children: next.children, ..self })
        &&& next.hooks.cursor == self.hooks.cursor
        &&& next.hooks.states@.len() == self.hooks.states@.len()
        &&& forall|k: int|
            0 <= k < self.hooks.states@.len() ==> (#[trigger] next.hooks.states@[k]) == (if self.hooks.states@[k].id
                == id {
                StateNode { id, value, changed: true }
            } else {
                self.hooks.states@[k]
            })
        &&& next.children@.len() == self.children@.len()
        &&& forall|i: int|
            0 <= i < self.children@.len() ==> self.children@[i].state_written(
                #[trigger] next.children@[i],
                id,
                value,
            )
    }

    /// A state that the tree holds is owned by the tree.
    pub proof fn lemma_has_state_owns(self, id: u64)
        requires
            self.has_state(id),
        ensures
            self.owns(id),
        decreases self,
    {
        if !self.hooks.owns(id) {
            let i = choose|i: int|
                0 <= i < self.children@.len() && (#[trigger] self.children@[i]).has_state(id);
            self.children@[i].lemma_has_state_owns(id);
        }
    }

    /// Writing to a state that the tree does not hold leaves the tree as it is.
    pub proof fn lemma_state_written_absent(self, id: u64, value: S)
        requires
            !self.has_state(id),
        ensures
            self.state_written(self, id, value),
        decreases self,
    {
        assert forall|k: int| 0 <= k < self.hooks.states@.len() implies (
        #[trigger] self.hooks.states@[k]).id != id by {
            if self.hooks.states@[k].id == id {
                assert(self.hooks.owns(id));
            }
        }
        assert forall|i: int| 0 <= i < self.children@.len() implies self.children@[i].state_written(
            #[trigger] self.children@[i],
            id,
            value,
        ) by {
            self.children@[i].lemma_state_written_absent(id, value);
        }
    }

    /// Writing to a state changes neither what the tree owns nor whether
    /// it is well formed, and leaves the store alone.
    pub proof fn lemma_state_written_shape(self, next: WidgetNode<P, S>, id: u64, value: S)
        requires
            self.state_written(next, id, value),
        ensures
            forall|x: u64| #[trigger] next.owns(x) == self.owns(x),
            next.wf() == self.wf(),
            next.hooks.ids() == self.hooks.ids(),
        decreases self,
    {
        assert forall|k: int| 0 <= k < self.hooks.states@.len() implies (
        #[trigger] next.hooks.states@[k]).id == self.hooks.states@[k].id by {}
        assert(next.hooks.ids() =~= self.hooks.ids());
        assert forall|x: u64| next.hooks.owns(x) == self.hooks.owns(x) by {
            if self.hooks.owns(x) {
                let k = choose|k: int|
                    0 <= k < self.hooks.states@.len() && (#[trigger] self.hooks.states@[k]).id == x;
                assert(next.hooks.states@[k].id == x);
            }
            if next.hooks.owns(x) {
                let k = choose|k: int|
                    0 <= k < next.hooks.states@.len() && (#[trigger] next.hooks.states@[k]).id == x;
                assert(self.hooks.states@[k].id == x);
            }
        }
        assert forall|i: int| 0 <= i < self.children@.len() implies (forall|x: u64|
            (#[trigger] next.children@[i]).owns(x) == self.children@[i].owns(x))
            && next.children@[i].wf() == self.children@[i].wf() by {
            self.children@[i].lemma_state_written_shape(next.children@[i], id, value);
        }
        self.lemma_children_alike(next);
        if self.wf() {
            assert(next.hooks.wf()) by {
                assert forall|a: int, b: int| 0 <= a < b < next.hooks.states@.len() implies (
                #[trigger] next.hooks.states@[a]).id != (#[trigger] next.hooks.states@[b]).id by {
                    assert(self.hooks.states@[a].id != self.hooks.states@[b].id);
                }
            }
            assert forall|i: int| 0 <= i < next.children@.len() implies (
            #[trigger] next.children@[i]).wf() && !next.children@[i].owns(next.id) by {
                assert(self.children@[i].wf());
            }
            assert forall|i: int, x: u64| 0 <= i < next.children@.len() && (
            #[trigger] next.children@[i].owns(x)) implies !next.hooks.owns(x) by {
                assert(self.children@[i].owns(x));
            }
            assert forall|i: int, j: int, x: u64|
                0 <= i < j < next.children@.len() && (#[trigger] next.children@[i].owns(
                    x,
                )) implies !(#[trigger] next.children@[j].owns(x)) by {
                assert(self.children@[i].owns(x));
                assert(!self.children@[j].owns(x));
            }
            assert(next.wf());
        }
        if next.wf() {
            assert(self.hooks.wf()) by {
                assert forall|a: int, b: int| 0 <= a < b < self.hooks.states@.len() implies (
                #[trigger] self.hooks.states@[a]).id != (#[trigger] self.hooks.states@[b]).id by {
                    assert(next.hooks.states@[a].id != next.hooks.states@[b].id);
                }
            }
            assert forall|i: int| 0 <= i < self.children@.len() implies (
            #[trigger] self.children@[i]).wf() && !self.children@[i].owns(self.id) by {
                assert(next.children@[i].wf());
            }
            assert forall|i: int, x: u64| 0 <= i < self.children@.len() && (
            #[trigger] self.children@[i].owns(x)) implies !self.hooks.owns(x) by {
                assert(next.children@[i].owns(x));
            }
            assert forall|i: int, j: int, x: u64|
                0 <= i < j < self.children@.len() && (#[trigger] self.children@[i].owns(
                    x,
                )) implies !(#[trigger] self.children@[j].owns(x)) by {
                assert(next.children@[i].owns(x));
                assert(!next.children@[j].owns(x));
            }
            assert(self.wf());
        }
    }

    /// Whether a state with identity `id` is held by this node or below it.
    pub fn contains_state(&self, id: u64) -> (held: bool)
        ensures
            held == self.has_state(id),
        decreases self,
    {
        if self.hooks.position(id).is_some() {
            return true;
        }
        let mut i: usize = 0;
        while i < self.children.len()
            invariant
                i <= self.children@.len(),
                !self.hooks.owns(id),
                forall|j: int| 0 <= j < i ==> !(#[trigger] self.children@[j]).has_state(id),
            decreases self.children@.len() - i,
        {
            if self.children[i].contains_state(id) {
                return true;
            }
            i += 1;
        }
        false
    }

    /// The record of the state with identity `id`, if the tree holds it.
    pub fn get_state(&self, id: u64) -> (state: Option<&S>)
        ensures
            match state {
                Some(value) => self.holds_state(id, *value),
                None => !self.has_state(id),
            },
        decreases self,
    {
        match self.hooks.position(id) {
            Some(k) => {
                return Some(&self.hooks.states[k].value);
            },
            None => {},
        }
        let mut i: usize = 0;
        while i < self.children.len()
            invariant
                i <= self.children@.len(),
                !self.hooks.owns(id),
                forall|j: int| 0 <= j < i ==> !(#[trigger] self.children@[j]).has_state(id),
            decreases self.children@.len() - i,
        {
            match self.children[i].get_state(id) {
                Some(value) => {
                    return Some(value);
                },
                None => {},
            }
            i += 1;
        }
        None
    }

    /// Writes `value` to the state with identity `id` and flags it as
    /// changed, so that the next pass renders its owner. A state that the
    /// tree no longer holds is answered with `false`, and nothing changes.
    pub fn set_state(&mut self, id: u64, value: S) -> (found: bool)
        requires
            old(self).wf(),
        ensures
            found == old(self).has_state(id),
            found ==> old(self).state_written(*final(self), id, value),
            !found ==> *final(self) == *old(self),
            final(self).wf(),
            forall|x: u64| #[trigger] final(self).owns(x) == old(self).owns(x),
        decreases *old(self),
    {
        match self.hooks.position(id) {
            Some(k) => {
                self.hooks.states[k].value = value;
                self.hooks.states[k].changed = true;
                proof {
                    assert forall|i: int|
                        0 <= i < old(self).children@.len() implies old(self).children@[i].state_written(
                        #[trigger] self.children@[i],
                        id,
                        value,
                    ) by {
                        let c = old(self).children@[i];
                        if c.has_state(id) {
                            c.lemma_has_state_owns(id);
                            assert(old(self).children@[i].owns(id));
                            assert(old(self).hooks.owns(id));
                        }
                        c.lemma_state_written_absent(id, value);
                    }
                    assert(old(self).state_written(*self, id, value));
                    old(self).lemma_state_written_shape(*self, id, value);
                }
                return true;
            },
            None => {},
        }
        let mut i: usize = 0;
        while i < self.children.len()
            invariant
                i <= self.children@.len(),
                *self == *old(self),
                self.wf(),
                !self.hooks.owns(id),
                forall|j: int| 0 <= j < i ==> !(#[trigger] self.children@[j]).has_state(id),
            decreases self.children@.len() - i,
        {
            if self.children[i].contains_state(id) {
                let found: bool = self.children[i].set_state(id, value);
                proof {
                    let c = old(self).children@[i as int];
                    c.lemma_has_state_owns(id);
                    assert forall|j: int|
                        0 <= j < old(self).children@.len() implies old(self).children@[j].state_written(
                        #[trigger] self.children@[j],
                        id,
                        value,
                    ) by {
                        if j != i {
                            let d = old(self).children@[j];
                            if d.has_state(id) {
                                d.lemma_has_state_owns(id);
                                assert(old(self).children@[j].owns(id));
                                assert(old(self).children@[i as int].owns(id));
                            }
                            d.lemma_state_written_absent(id, value);
                        }
                    }
                    assert forall|k: int| 0 <= k < self.hooks.states@.len() implies (
                    #[trigger] self.hooks.states@[k]).id != id by {
                        if self.hooks.states@[k].id == id {
                            assert(self.hooks.owns(id));
                        }
                    }
                    assert(old(self).state_written(*self, id, value));
                    old(self).lemma_state_written_shape(*self, id, value);
                }
                return found;
            }
            i += 1;
        }
        false
    }
}

} // verus!
