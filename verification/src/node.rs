//! Widget nodes. A node owns its hook states and its children, so the
//! tree below a node is the node's own value, and destroying a node
//! destroys all that it owns.

use crate::context::CurrentWidget;
use crate::hooks::{HookHelper, StateNode};
use crate::render::WidgetRender;
use crate::styles::WoodpeckerStyle;
use crate::store::NodeStore;
use vstd::prelude::*;

verus! {

/// A node of the widget tree.
pub struct WidgetNode<P, S> {
    /// The entity that stands for this node.
    pub id: u64,
    /// The tag of the node's widget type.
    pub widget: u64,
    /// The key that the parent's render gave this child, if it gave one.
    pub key: Option<u64>,
    /// The record that the parent's render handed down.
    pub props: P,
    /// Whether `props` was written since this node's predicate last ran.
    pub changed: bool,
    /// Whether this node was rendered before.
    pub rendered: bool,
    /// The style record.
    pub styles: WoodpeckerStyle,
    /// What is drawn for the node, if anything.
    pub render: Option<WidgetRender>,
    /// The hook states of this node.
    pub hooks: HookHelper<S>,
    /// The children, in the order of the last reconciled render.
    pub children: Vec<WidgetNode<P, S>>,
}

/// Every node of `nodes` is well formed, and no identity occurs in two of them.
pub open spec fn siblings_wf<P, S>(nodes: Seq<WidgetNode<P, S>>) -> bool {
    &&& forall|i: int| 0 <= i < nodes.len() ==> (#[trigger] nodes[i]).wf()
    &&& forall|i: int, j: int, x: u64|
        0 <= i < j < nodes.len() && (#[trigger] nodes[i].owns(x)) ==> !(#[trigger] nodes[j].owns(
            x,
        ))
}

/// Everything that the nodes of `nodes` own is an entity of `store`.
pub open spec fn siblings_alive<P, S>(nodes: Seq<WidgetNode<P, S>>, store: NodeStore) -> bool {
    forall|i: int, x: u64|
        0 <= i < nodes.len() && (#[trigger] nodes[i].owns(x)) ==> store.live().contains(x)
}

impl<P, S> WidgetNode<P, S> {
    /// What a child is matched by: its widget type and its key.
    pub open spec fn tag(self) -> (u64, Option<u64>) {
        (self.widget, self.key)
    }

    /// Whether `x` is the identity of this node, of one of its states, or
    /// of a node or a state anywhere below it.
    pub open spec fn owns(self, x: u64) -> bool
        decreases self,
    {
        ||| self.id == x
        ||| self.hooks.owns(x)
        ||| exists|i: int| 0 <= i < self.children@.len() && (#[trigger] self.children@[i]).owns(x)
    }

    /// No identity occurs twice in the tree below and including this node.
    pub open spec fn wf(self) -> bool
        decreases self,
    {
        &&& self.hooks.wf()
        &&& !self.hooks.owns(self.id)
        &&& forall|i: int|
            0 <= i < self.children@.len() ==> (#[trigger] self.children@[i]).wf()
        &&& forall|i: int|
            0 <= i < self.children@.len() ==> !(#[trigger] self.children@[i]).owns(self.id)
        &&& forall|i: int, x: u64|
            0 <= i < self.children@.len() && (#[trigger] self.children@[i].owns(x))
                ==> !self.hooks.owns(x)
        &&& forall|i: int, j: int, x: u64|
            0 <= i < j < self.children@.len() && (#[trigger] self.children@[i].owns(x)) ==> !(
            #[trigger] self.children@[j].owns(x))
    }

    /// Everything that this node owns is an entity of `store`.
    pub open spec fn alive_in(self, store: NodeStore) -> bool {
        forall|x: u64| #[trigger] self.owns(x) ==> store.live().contains(x)
    }

    /// How a node and the store may change together while the rest of the
    /// tree stands by: the node keeps its identity, its widget type, its key
    /// and the states it has, and stays rendered once it was; what it comes
    /// to own besides was not in the store before; and afterwards the store
    /// holds all that the node owns, nothing that the node has given up, and
    /// otherwise what it held before.
    pub open spec fn evolves_to(self, next: WidgetNode<P, S>, before: NodeStore, after: NodeStore) -> bool {
        &&& next.id == self.id
        &&& next.widget == self.widget
        &&& next.key == self.key
        &&& self.rendered ==> next.rendered
        &&& self.hooks.ids().is_prefix_of(next.hooks.ids())
        &&& forall|x: u64|
            #![trigger after.live().contains(x)]
            after.live().contains(x) <==> next.owns(x) || (!self.owns(x)
                && before.live().contains(x))
        &&& forall|x: u64|
            #[trigger] next.owns(x) && !self.owns(x) ==> !before.live().contains(x)
    }

    /// A node as it is created: not rendered yet, flagged as changed,
    /// without states or children, with the default style and nothing to draw.
    pub open spec fn is_fresh(self, widget: u64, key: Option<u64>, props: P) -> bool {
        &&& self.widget == widget
        &&& self.key == key
        &&& self.props == props
        &&& self.changed
        &&& !self.rendered
        &&& self.styles == WoodpeckerStyle::default_spec()
        &&& self.render is None
        &&& self.hooks.states@.len() == 0
        &&& self.hooks.cursor == 0
        &&& self.children@.len() == 0
    }

    /// This node with its props overwritten, and flagged as changed.
    pub open spec fn with_props(self, props: P) -> WidgetNode<P, S> {
        WidgetNode { props, changed: true, ..self }
    }

    /// What the canonical update predicate says: whether the node's props
    /// or one of its states was written since the flags were last cleared.
    pub open spec fn should_update_spec(self) -> bool {
        self.changed || self.hooks.has_changed()
    }

    /// This node once its predicate has run: the change flag of the props
    /// and of every state is cleared, and nothing else differs.
    pub open spec fn observed_as(self, next: WidgetNode<P, S>) -> bool {
        &&& next == (WidgetNode { changed: false, hooks: next.hooks, ..self })
        &&& next.hooks.cursor == self.hooks.cursor
        &&& next.hooks.states@.len() == self.hooks.states@.len()
        &&& forall|k: int|
            0 <= k < self.hooks.states@.len() ==> (#[trigger] next.hooks.states@[k]) == (
            StateNode { changed: false, ..self.hooks.states@[k] })
    }

    /// Whether one of the children owns `x`.
    pub open spec fn child_owns(self, x: u64) -> bool {
        exists|i: int| 0 <= i < self.children@.len() && (#[trigger] self.children@[i]).owns(x)
    }

    /// Two nodes whose children own the same, child by child, own the same
    /// through their children.
    pub proof fn lemma_children_alike(self, next: WidgetNode<P, S>)
        requires
            next.children@.len() == self.children@.len(),
            forall|i: int, x: u64|
                0 <= i < self.children@.len() ==> (#[trigger] next.children@[i].owns(x))
                    == self.children@[i].owns(x),
        ensures
            forall|x: u64|
                #[trigger] self.owns(x) == (self.id == x || self.hooks.owns(x) || self.child_owns(x)),
            forall|x: u64|
                #[trigger] next.owns(x) == (next.id == x || next.hooks.owns(x) || self.child_owns(x)),
    {
        assert forall|x: u64| next.child_owns(x) == self.child_owns(x) by {
            if self.child_owns(x) {
                let i = choose|i: int|
                    0 <= i < self.children@.len() && (#[trigger] self.children@[i]).owns(x);
                assert(next.children@[i].owns(x));
            }
            if next.child_owns(x) {
                let i = choose|i: int|
                    0 <= i < next.children@.len() && (#[trigger] next.children@[i]).owns(x);
                assert(self.children@[i].owns(x));
            }
        }
        assert forall|x: u64|
            #[trigger] next.owns(x) == (next.id == x || next.hooks.owns(x) || self.child_owns(x)) by {
            assert(next.child_owns(x) == self.child_owns(x));
        }
    }

    /// A node evolves to itself in a store in which it lives.
    pub proof fn lemma_evolves_refl(self, store: NodeStore)
        requires
            self.alive_in(store),
        ensures
            self.evolves_to(self, store, store),
    {
        assert(self.hooks.ids() =~= self.hooks.ids().subrange(0, self.hooks.ids().len() as int));
    }

    /// Two steps of a node make one.
    pub proof fn lemma_evolves_trans(
        self,
        mid: WidgetNode<P, S>,
        next: WidgetNode<P, S>,
        before: NodeStore,
        between: NodeStore,
        after: NodeStore,
    )
        requires
            self.evolves_to(mid, before, between),
            mid.evolves_to(next, between, after),
        ensures
            self.evolves_to(next, before, after),
    {
        let a = self.hooks.ids();
        let b = mid.hooks.ids();
        let c = next.hooks.ids();
        assert(a =~= c.subrange(0, a.len() as int)) by {
            assert(a == b.subrange(0, a.len() as int));
            assert(b == c.subrange(0, b.len() as int));
            assert forall|k: int| 0 <= k < a.len() implies a[k] == c[k] by {
                assert(a[k] == b.subrange(0, a.len() as int)[k]);
                assert(b[k] == c.subrange(0, b.len() as int)[k]);
            }
        }
        assert forall|x: u64|
            #![trigger after.live().contains(x)]
            after.live().contains(x) <==> next.owns(x) || (!self.owns(x) && before.live().contains(x)) by {
            assert(between.live().contains(x) <==> mid.owns(x) || (!self.owns(x)
                && before.live().contains(x)));
        }
        assert forall|x: u64| #[trigger] next.owns(x) && !self.owns(x) implies !before.live().contains(x) by {
            assert(between.live().contains(x) <==> mid.owns(x) || (!self.owns(x)
                && before.live().contains(x)));
        }
    }

    /// A change that touches neither the identity, the tag, the states'
    /// identities nor the children leaves the node well formed and in place.
    pub proof fn lemma_same_shape(self, next: WidgetNode<P, S>, store: NodeStore)
        requires
            self.wf(),
            self.alive_in(store),
            next.id == self.id,
            next.widget == self.widget,
            next.key == self.key,
            self.rendered ==> next.rendered,
            next.children == self.children,
            next.hooks.ids() == self.hooks.ids(),
            next.hooks.cursor <= next.hooks.states@.len(),
        ensures
            next.wf(),
            next.alive_in(store),
            self.evolves_to(next, store, store),
            forall|x: u64| #[trigger] next.owns(x) == self.owns(x),
    {
        let a = self.hooks.ids();
        let b = next.hooks.ids();
        assert(self.hooks.states@.len() == next.hooks.states@.len()) by {
            assert(a.len() == b.len());
        }
        assert forall|k: int| 0 <= k < self.hooks.states@.len() implies (
        #[trigger] next.hooks.states@[k]).id == self.hooks.states@[k].id by {
            assert(a[k] == b[k]);
        }
        assert forall|x: u64| next.hooks.owns(x) == self.hooks.owns(x) by {
            if self.hooks.owns(x) {
                let k = choose|k: int|
                    0 <= k < self.hooks.states@.len() && (#[trigger] self.hooks.states@[k]).id == x;
                assert(next.hooks.states@[k].id == x);
            }
            if next.hooks.owns(x) {
                let k = choose|k: int|
                    0 <= k < next.hooks.states@.len() && (#[trigger] next.hooks.states@[k]).id == x;
                assert(self.hooks.states@[k].id == x);
            }
        }
        self.lemma_children_alike(next);
        assert forall|x: u64| #[trigger] next.owns(x) == self.owns(x) by {
            assert(next.hooks.owns(x) == self.hooks.owns(x));
        }
        assert(next.hooks.wf()) by {
            assert forall|a: int, b: int| 0 <= a < b < next.hooks.states@.len() implies (
            #[trigger] next.hooks.states@[a]).id != (#[trigger] next.hooks.states@[b]).id by {
                assert(self.hooks.states@[a].id != self.hooks.states@[b].id);
            }
        }
        assert(next.wf());
        assert(a =~= b.subrange(0, a.len() as int));
    }

    /// Visiting a child keeps its parent well formed and in place: the
    /// parent evolves as the child does.
    pub proof fn lemma_child_evolved(self, next: WidgetNode<P, S>, i: int, before: NodeStore, after: NodeStore)
        requires
            self.wf(),
            self.alive_in(before),
            0 <= i < self.children@.len(),
            next == (WidgetNode { children: next.children, ..self }),
            next.children@ == self.children@.update(i, next.children@[i]),
            self.children@[i].evolves_to(next.children@[i], before, after),
            next.children@[i].wf(),
            next.children@[i].alive_in(after),
        ensures
            next.wf(),
            next.alive_in(after),
            self.evolves_to(next, before, after),
    {
        let c = self.children@[i];
        let d = next.children@[i];
        assert(self.owns(self.id));
        // What the parent owns afterwards, it owned before or the child has gained.
        assert forall|x: u64| #[trigger] next.owns(x) implies self.owns(x) || (d.owns(x) && !c.owns(
            x,
        )) by {
            if next.id != x && !next.hooks.owns(x) {
                let k = choose|k: int|
                    0 <= k < next.children@.len() && (#[trigger] next.children@[k]).owns(x);
                if k != i {
                    assert(self.children@[k].owns(x));
                }
            }
        }
        // What the parent owned before, it owns afterwards or the child has given up.
        assert forall|x: u64| #[trigger] self.owns(x) implies next.owns(x) || (c.owns(x) && !d.owns(
            x,
        )) by {
            if self.id != x && !self.hooks.owns(x) {
                let k = choose|k: int|
                    0 <= k < self.children@.len() && (#[trigger] self.children@[k]).owns(x);
                if k != i {
                    assert(next.children@[k] == self.children@[k]);
                    assert(next.children@[k].owns(x));
                } else if d.owns(x) {
                    assert(next.children@[i].owns(x));
                }
            }
        }
        assert forall|x: u64| c.owns(x) implies self.owns(x) by {}
        assert forall|x: u64| d.owns(x) implies next.owns(x) by {
            assert(next.children@[i].owns(x));
        }
        assert forall|x: u64| c.owns(x) && !d.owns(x) implies !next.owns(x) by {
            assert(x != self.id);
            assert(!self.hooks.owns(x));
            if next.owns(x) {
                let k = choose|k: int|
                    0 <= k < next.children@.len() && (#[trigger] next.children@[k]).owns(x);
                assert(k != i);
                assert(self.children@[k].owns(x));
                if k < i {
                    assert(!self.children@[i].owns(x));
                } else {
                    assert(!self.children@[k].owns(x));
                }
            }
        }
        assert forall|x: u64| #[trigger] next.owns(x) implies after.live().contains(x) by {
            if !d.owns(x) {
                assert(self.owns(x));
            }
        }
        assert(next.wf()) by {
            assert forall|k: int| 0 <= k < next.children@.len() implies (
            #[trigger] next.children@[k]).wf() && !next.children@[k].owns(next.id) by {
                if k != i {
                    assert(next.children@[k] == self.children@[k]);
                } else if d.owns(next.id) {
                    assert(!c.owns(self.id));
                }
            }
            assert forall|k: int, x: u64| 0 <= k < next.children@.len() && (
            #[trigger] next.children@[k].owns(x)) implies !next.hooks.owns(x) by {
                if next.hooks.owns(x) {
                    assert(self.owns(x));
                    if k != i {
                        assert(self.children@[k].owns(x));
                    } else {
                        assert(!c.owns(x));
                    }
                }
            }
            assert forall|j: int, k: int, x: u64|
                0 <= j < k < next.children@.len() && (#[trigger] next.children@[j].owns(
                    x,
                )) implies !(#[trigger] next.children@[k].owns(x)) by {
                if next.children@[k].owns(x) {
                    if j != i && k != i {
                        assert(self.children@[j].owns(x));
                        assert(self.children@[k].owns(x));
                    } else if j == i {
                        assert(self.children@[k].owns(x));
                        assert(self.owns(x));
                        assert(!c.owns(x));
                    } else {
                        assert(self.children@[j].owns(x));
                        assert(self.owns(x));
                        assert(!c.owns(x));
                    }
                }
            }
        }
        assert(self.hooks.ids() =~= next.hooks.ids().subrange(0, self.hooks.ids().len() as int));
    }

    /// Creates a node in `store`, with the given widget type, key and
    /// props. A store that is full stays as it is, and no node is made.
    pub fn new(store: &mut NodeStore, widget: u64, key: Option<u64>, props: P) -> (made: Option<
        WidgetNode<P, S>,
    >)
        ensures
            match made {
                Some(node) => {
                    &&& old(store).has_room(1)
                    &&& node.is_fresh(widget, key, props)
                    &&& !old(store).live().contains(node.id)
                    &&& final(store).live() == old(store).live().insert(node.id)
                    &&& final(store).live().len() == old(store).live().len() + 1
                    &&& node.wf()
                    &&& node.alive_in(*final(store))
                    &&& forall|x: u64| node.owns(x) <==> x == node.id
                },
                None => !old(store).has_room(1) && *final(store) == *old(store),
            },
    {
        let id: u64 = match store.create_node() {
            Some(id) => id,
            None => {
                return None;
            },
        };
        let node = WidgetNode {
            id,
            widget,
            key,
            props,
            changed: true,
            rendered: false,
            styles: WoodpeckerStyle::default(),
            render: None,
            hooks: HookHelper::new(),
            children: Vec::new(),
        };
        assert(node.wf());
        Some(node)
    }

    /// This node as a descriptor's match: it takes the descriptor's key
    /// and props, and is flagged as changed.
    pub open spec fn adopted(self, key: Option<u64>, props: P) -> WidgetNode<P, S> {
        WidgetNode { key, props, changed: true, ..self }
    }

    /// Taking a descriptor's key and props changes neither what a node
    /// owns nor whether it is well formed.
    pub proof fn lemma_adopted(self, key: Option<u64>, props: P)
        ensures
            self.adopted(key, props).wf() == self.wf(),
            forall|x: u64| #[trigger] self.adopted(key, props).owns(x) == self.owns(x),
    {
        let next = self.adopted(key, props);
        assert(next.children@ == self.children@);
        assert(next.hooks == self.hooks);
        self.lemma_children_alike(next);
    }

    /// Makes the node the match of a descriptor with the given key and
    /// props: both are overwritten, and the node is flagged as changed,
    /// whether or not the new props equal the old ones.
    pub fn adopt(&mut self, key: Option<u64>, props: P)
        ensures
            *final(self) == old(self).adopted(key, props),
    {
        self.key = key;
        self.props = props;
        self.changed = true;
    }

    /// Overwrites the props record and flags the node as changed, whether
    /// or not the new record equals the old one.
    pub fn set_props(&mut self, props: P)
        ensures
            *final(self) == old(self).with_props(props),
    {
        self.props = props;
        self.changed = true;
    }

    /// The context of a visit of this node.
    pub fn current(&self) -> (current: CurrentWidget)
        ensures
            current.entity == self.id,
    {
        CurrentWidget { entity: self.id }
    }

    /// Whether the props record was written since the node's predicate
    /// last ran.
    pub fn has_changed(&self) -> (changed: bool)
        ensures
            changed == self.changed,
    {
        self.changed
    }

    /// Clears the change flags, as the runner does once the node's
    /// predicate has run.
    pub fn clear_changed(&mut self)
        ensures
            old(self).observed_as(*final(self)),
    {
        self.changed = false;
        self.hooks.clear_changed();
    }

    /// Starts a render of this node: the node counts as rendered, and the
    /// next call of `use_state` has ordinal zero.
    pub fn begin_render(&mut self)
        ensures
            *final(self) == (WidgetNode { rendered: true, hooks: final(self).hooks, ..*old(self) }),
            final(self).hooks.states == old(self).hooks.states,
            final(self).hooks.cursor == 0,
    {
        self.rendered = true;
        self.hooks.reset();
    }

    /// The state of the next hook call site of this node: created with
    /// `initial` by the first render that reaches the call site, and the
    /// same state, with the record it holds by then, in every later one.
    /// Where a state is to be created and the store is full, nothing changes
    /// and nothing is handed back.
    pub fn use_state(&mut self, store: &mut NodeStore, initial: S) -> (id: Option<u64>)
        requires
            old(self).wf(),
            old(self).alive_in(*old(store)),
        ensures
            *final(self) == (WidgetNode { hooks: final(self).hooks, ..*old(self) }),
            old(self).hooks.cursor < old(self).hooks.states@.len() ==> {
                &&& id == Some(old(self).hooks.states@[old(self).hooks.cursor as int].id)
                &&& final(self).hooks.states@ == old(self).hooks.states@
                &&& final(self).hooks.cursor == old(self).hooks.cursor + 1
                &&& *final(store) == *old(store)
            },
            old(self).hooks.cursor == old(self).hooks.states@.len() && old(store).has_room(1) ==> {
                &&& id is Some
                &&& !old(store).live().contains(id->0)
                &&& final(store).live() == old(store).live().insert(id->0)
                &&& final(store).live().len() == old(store).live().len() + 1
                &&& final(self).hooks.states@ == old(self).hooks.states@.push(
                    StateNode { id: id->0, value: initial, changed: false },
                )
                &&& final(self).hooks.cursor == old(self).hooks.cursor + 1
            },
            old(self).hooks.cursor == old(self).hooks.states@.len() && !old(store).has_room(1) ==> {
                &&& id is None
                &&& *final(self) == *old(self)
                &&& *final(store) == *old(store)
            },
            final(self).wf(),
            final(self).alive_in(*final(store)),
            old(self).evolves_to(*final(self), *old(store), *final(store)),
    {
        proof {
            assert(old(self).hooks.alive_in(*old(store))) by {
                assert forall|k: int| 0 <= k < old(self).hooks.states@.len() implies old(
                    store,
                ).live().contains((#[trigger] old(self).hooks.states@[k]).id) by {
                    assert(old(self).hooks.owns(old(self).hooks.states@[k].id));
                    assert(old(self).owns(old(self).hooks.states@[k].id));
                }
            }
            assert(old(self).owns(old(self).id));
            old(self).lemma_evolves_refl(*old(store));
        }
        let id: Option<u64> = self.hooks.use_state(store, initial);
        proof {
            let before = *old(self);
            let after = *self;
            let n = before.hooks.states@.len() as int;
            let created = id is Some && before.hooks.cursor == n;
            assert(before.hooks.ids() =~= after.hooks.ids().subrange(
                0,
                before.hooks.ids().len() as int,
            ));
            assert forall|x: u64| #[trigger] after.hooks.owns(x) == (before.hooks.owns(x) || (
            created && x == id->0)) by {
                if before.hooks.owns(x) {
                    let k = choose|k: int|
                        0 <= k < before.hooks.states@.len() && (
                        #[trigger] before.hooks.states@[k]).id == x;
                    assert(after.hooks.states@[k].id == x);
                }
                if after.hooks.owns(x) {
                    let k = choose|k: int|
                        0 <= k < after.hooks.states@.len() && (
                        #[trigger] after.hooks.states@[k]).id == x;
                    if k < n {
                        assert(before.hooks.states@[k].id == x);
                    }
                }
                if created && x == id->0 {
                    assert(after.hooks.states@[n].id == x);
                }
            }
            before.lemma_children_alike(after);
            assert forall|x: u64| #[trigger] after.owns(x) == (before.owns(x) || (created && x
                == id->0)) by {
                assert(after.hooks.owns(x) == (before.hooks.owns(x) || (created && x == id->0)));
            }
            assert(after.wf()) by {
                assert forall|i: int, x: u64| 0 <= i < after.children@.len() && (
                #[trigger] after.children@[i].owns(x)) implies !after.hooks.owns(x) by {
                    assert(before.children@[i].owns(x));
                    assert(before.owns(x));
                }
            }
        }
        id
    }

    /// The canonical update predicate: whether the node's props or one of
    /// its states was written since the node's predicate last ran.
    pub fn should_update(&self) -> (changed: bool)
        ensures
            changed == self.should_update_spec(),
    {
        if self.changed {
            return true;
        }
        let mut k: usize = 0;
        while k < self.hooks.states.len()
            invariant
                k <= self.hooks.states@.len(),
                forall|j: int| 0 <= j < k ==> !(#[trigger] self.hooks.states@[j]).changed,
            decreases self.hooks.states@.len() - k,
        {
            if self.hooks.states[k].changed {
                return true;
            }
            k += 1;
        }
        false
    }

    /// Destroys the node with all that it owns: its states, its children
    /// and what they own in turn.
    pub fn destroy(self, store: &mut NodeStore)
        ensures
            forall|x: u64|
                #![trigger final(store).live().contains(x)]
                final(store).live().contains(x) <==> old(store).live().contains(
                    x,
                ) && !self.owns(x),
        decreases self,
    {
        let WidgetNode { id, hooks, children, .. } = self;
        let _gone: bool = store.destroy_node(id);
        hooks.destroy(store);
        let mut children = children;
        let ghost all = children@;
        while children.len() > 0
            invariant
                all == self.children@,
                children@.len() <= all.len(),
                children@ == all.subrange(0, children@.len() as int),
                forall|x: u64|
                    #![trigger store.live().contains(x)]
                    store.live().contains(x) <==> old(store).live().contains(x)
                        && x != self.id && !self.hooks.owns(x) && !(exists|k: int|
                        children@.len() <= k < all.len() && (#[trigger] all[k]).owns(x)),
            decreases children@.len(),
        {
            let ghost n = children@.len() - 1;
            let child = children.pop().unwrap();
            assert(child == all[n]);
            child.destroy(store);
        }
    }
}

} // verus!
