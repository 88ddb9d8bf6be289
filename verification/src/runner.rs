//! The runner: one pass over the tree, parent before child. At each node
//! the widget's update predicate decides whether its render routine runs;
//! what the render asks for is reconciled before the children are visited.

use crate::children::{descriptor_tags, node_tags, WidgetChildren};
use crate::context::{CurrentWidget, ParentWidget};
use crate::guarantees::lemma_reconciled_tags;
use crate::matching::{lemma_matched, matched};
use crate::node::WidgetNode;
use crate::store::NodeStore;
use vstd::prelude::*;

verus! {

/// The widgets of an application: for each widget type an update
/// predicate and a render routine. An implementation tells the types apart
/// by the tag of the node that it is handed.
pub trait WidgetSystems<P, S> {
    /// What the update predicate says of a node, as far as the widgets
    /// say so beforehand. `None` leaves it to the predicate.
    open spec fn due(&self, node: WidgetNode<P, S>) -> Option<bool> {
        None
    }

    /// The children that the render of a node asks for, as far as the
    /// widgets say so beforehand: the tags of the list, in order, for a node
    /// with the given widget type, props and state records, in a store with
    /// room for `room` more nodes. `None` leaves it to the render, which may
    /// then also hand back a list that is finalized for no node.
    open spec fn asks(&self, widget: u64, props: P, states: Seq<S>, room: int) -> Option<
        Seq<(u64, Option<u64>)>,
    > {
        None
    }

    /// Whether the node needs to be rendered in this pass. The canonical
    /// predicate is `WidgetNode::should_update`.
    fn update(&self, current: CurrentWidget, node: &WidgetNode<P, S>) -> (due: bool)
        requires
            current.entity == node.id,
        ensures
            self.due(*node) matches Some(said) ==> due == said,
    ;

    /// Renders the node: it may take hook states, write the node's own
    /// records, and hands back the children that it asks for, finalized for
    /// the node. A routine that misses a record hands back a list that is
    /// finalized for no node, and the node keeps its children.
    ///
    /// The routine touches the store only through the node, and adds to
    /// it no more than the states that it creates. It leaves the node's
    /// props, its children and the change flags as they are.
    fn render(
        &mut self,
        current: CurrentWidget,
        node: &mut WidgetNode<P, S>,
        store: &mut NodeStore,
    ) -> (children: WidgetChildren<P>)
        requires
            old(node).wf(),
            old(node).alive_in(*old(store)),
            current.entity == old(node).id,
            old(node).rendered,
            !old(node).should_update_spec(),
            old(node).hooks.cursor == 0,
        ensures
            final(node).wf(),
            final(node).alive_in(*final(store)),
            old(node).evolves_to(*final(node), *old(store), *final(store)),
            final(node).changed == old(node).changed,
            final(node).props == old(node).props,
            final(node).children == old(node).children,
            !final(node).hooks.has_changed(),
            final(store).live().len() + old(node).hooks.states@.len() <= old(store).live().len()
                + final(node).hooks.states@.len(),
            match old(self).asks(
                old(node).widget,
                old(node).props,
                old(node).hooks.values(),
                u32::MAX - old(store).live().len(),
            ) {
                Some(tags) => children.parent == Some(ParentWidget { entity: current.entity })
                    && descriptor_tags(children.queue@) == tags,
                None => true,
            },
    ;
}

/// What a visit that renders `node` leaves of its children where the
/// widgets have said what the render asks for: the children carry the tags
/// asked for, in order, and each one that is matched with a previous child
/// is that child.
pub open spec fn reconciled_as<P, S>(
    node: WidgetNode<P, S>,
    next: WidgetNode<P, S>,
    tags: Seq<(u64, Option<u64>)>,
) -> bool {
    &&& node_tags(next.children@) == tags
    &&& forall|i: int|
        0 <= i < tags.len() ==> match matched(node_tags(node.children@), tags, i) {
            Some(j) => 0 <= j < node.children@.len() && (#[trigger] next.children@[i]).id
                == node.children@[j].id,
            None => true,
        }
}

/// What a visit makes of the records of the node it visits: the props
/// stay, and the change flags of the props and of every state are down, so
/// that the canonical predicate does not hold of the node.
pub open spec fn after_visit<P, S>(node: WidgetNode<P, S>, next: WidgetNode<P, S>) -> bool {
    &&& !next.changed
    &&& !next.hooks.has_changed()
    &&& next.props == node.props
}

/// What a visit that renders `node` leaves of its children where the
/// widgets have said what the render asks for: unless the store lacks the
/// room for the states that the render has created and for one node for
/// each child asked for, the children are the ones asked for.
pub open spec fn rendered_as_asked<P, S, W: WidgetSystems<P, S>>(
    systems: W,
    node: WidgetNode<P, S>,
    next: WidgetNode<P, S>,
    store: NodeStore,
) -> bool {
    match systems.asks(
        node.widget,
        node.props,
        node.hooks.values(),
        u32::MAX - store.live().len(),
    ) {
        Some(tags) => reconciled_as(node, next, tags) || !store.has_room(
            next.hooks.states@.len() - node.hooks.states@.len() + tags.len(),
        ),
        None => true,
    }
}

/// Whether a pass has gone through `node` and `depth` levels below it:
/// the node is rendered and the change flag of its props is down, and the
/// same holds of every node that stands at most `depth` levels below it.
pub open spec fn walked<P, S>(node: WidgetNode<P, S>, depth: nat) -> bool
    decreases depth,
{
    &&& node.rendered
    &&& !node.changed
    &&& depth > 0 ==> forall|i: int|
        0 <= i < node.children@.len() ==> walked(#[trigger] node.children@[i], (depth - 1) as nat)
}

/// Whether a pass has gone through the children of `node` and what is
/// below them, `depth` levels below `node` in all.
pub open spec fn walked_below<P, S>(node: WidgetNode<P, S>, depth: nat) -> bool {
    depth > 0 ==> forall|i: int|
        0 <= i < node.children@.len() ==> walked(#[trigger] node.children@[i], (depth - 1) as nat)
}

/// What a visit that does not render `node` leaves of it: the change
/// flags are cleared, the children are the same nodes in the same order,
/// each with the states it had, and the node's own records are untouched.
pub open spec fn skipped<P, S>(node: WidgetNode<P, S>, next: WidgetNode<P, S>) -> bool {
    &&& node.observed_as(WidgetNode { children: node.children, ..next })
    &&& next.children@.len() == node.children@.len()
    &&& forall|i: int|
        0 <= i < node.children@.len() ==> {
            &&& (#[trigger] next.children@[i]).id == node.children@[i].id
            &&& next.children@[i].tag() == node.children@[i].tag()
            &&& node.children@[i].hooks.ids().is_prefix_of(next.children@[i].hooks.ids())
        }
}

/// Visits `node` and then, as far as `depth` allows, what is below it.
///
/// A node that was never rendered is rendered without asking its
/// predicate; any other node is rendered if its predicate says so. What
/// follows is `visit_as`.
pub fn visit<P, S, W: WidgetSystems<P, S>>(
    systems: &mut W,
    node: &mut WidgetNode<P, S>,
    store: &mut NodeStore,
    depth: usize,
)
    requires
        old(node).wf(),
        old(node).alive_in(*old(store)),
    ensures
        final(node).wf(),
        final(node).alive_in(*final(store)),
        old(node).evolves_to(*final(node), *old(store), *final(store)),
        walked(*final(node), depth as nat),
        after_visit(*old(node), *final(node)),
        old(node).rendered && old(systems).due(*old(node)) == Some(false) ==> skipped(
            *old(node),
            *final(node),
        ),
        !old(node).rendered || old(systems).due(*old(node)) == Some(true) ==> rendered_as_asked(
            *old(systems),
            *old(node),
            *final(node),
            *old(store),
        ),
    decreases depth, 1int,
{
    let current = node.current();
    let due: bool = if node.rendered {
        systems.update(current, node)
    } else {
        true
    };
    visit_as(systems, node, store, depth, due);
}

/// Visits a node of which it is known whether it is due for a render.
///
/// The change flags are cleared, since the predicate has run. A node that
/// is due is rendered, and what its render asks for is reconciled. Then the
/// children are visited, whether or not the node was rendered: `depth`
/// levels below `node`, and no further.
pub fn visit_as<P, S, W: WidgetSystems<P, S>>(
    systems: &mut W,
    node: &mut WidgetNode<P, S>,
    store: &mut NodeStore,
    depth: usize,
    due: bool,
)
    requires
        old(node).wf(),
        old(node).alive_in(*old(store)),
    ensures
        final(node).wf(),
        final(node).alive_in(*final(store)),
        old(node).evolves_to(*final(node), *old(store), *final(store)),
        !due ==> skipped(*old(node), *final(node)),
        due ==> final(node).rendered,
        due ==> rendered_as_asked(*old(systems), *old(node), *final(node), *old(store)),
        walked_below(*final(node), depth as nat),
        after_visit(*old(node), *final(node)),
    decreases depth, 0int,
{
    let current = node.current();
    node.clear_changed();
    proof {
        assert(old(node).hooks.ids() =~= node.hooks.ids());
        old(node).lemma_same_shape(*node, *store);
    }
    if due {
        let ghost cleared = *node;
        node.begin_render();
        proof {
            assert(cleared.hooks.ids() =~= node.hooks.ids());
            cleared.lemma_same_shape(*node, *store);
            old(node).lemma_evolves_trans(cleared, *node, *store, *store, *store);
        }
        let ghost begun = *node;
        proof {
            assert(begun.hooks.values() =~= old(node).hooks.values());
        }
        let children = systems.render(current, node, store);
        let ghost rendered = *node;
        let ghost store_rendered = *store;
        proof {
            old(node).lemma_evolves_trans(begun, rendered, *old(store), *old(store), store_rendered);
        }
        let ghost asked = children.queue@;
        let _done: bool = children.process(node, store);
        proof {
            old(node).lemma_evolves_trans(rendered, *node, *old(store), store_rendered, *store);
            let asks = old(systems).asks(
                old(node).widget,
                old(node).props,
                old(node).hooks.values(),
                u32::MAX - old(store).live().len(),
            );
            if asks is Some && old(store).has_room(
                rendered.hooks.states@.len() - old(node).hooks.states@.len() + asks->0.len(),
            ) {
                let tags = descriptor_tags(asked);
                let prior = old(node).children@;
                lemma_reconciled_tags(prior, asked, node.children@, store_rendered, *store);
                assert forall|i: int| 0 <= i < tags.len() implies match matched(
                    node_tags(prior),
                    tags,
                    i,
                ) {
                    Some(j) => 0 <= j < prior.len() && (#[trigger] node.children@[i]).id
                        == prior[j].id,
                    None => true,
                } by {
                    lemma_matched(node_tags(prior), tags, i);
                }
            }
        }
    }
    let ghost entered = *node;
    let ghost asks = old(systems).asks(
        old(node).widget,
        old(node).props,
        old(node).hooks.values(),
        u32::MAX - old(store).live().len(),
    );
    let ghost roomy = asks is Some && old(store).has_room(
        entered.hooks.states@.len() - old(node).hooks.states@.len() + asks->0.len(),
    );
    proof {
        assert forall|i: int| 0 <= i < entered.children@.len() implies entered.children@[i].hooks.ids().is_prefix_of(
            (#[trigger] entered.children@[i]).hooks.ids(),
        ) by {
            let ids = entered.children@[i].hooks.ids();
            assert(ids =~= ids.subrange(0, ids.len() as int));
        }
    }
    proof {
        if due && roomy {
            assert(reconciled_as(*old(node), entered, asks->0));
        }
    }
    if depth > 0 {
        let mut i: usize = 0;
        while i < node.children.len()
            invariant
                node.wf(),
                node.alive_in(*store),
                old(node).evolves_to(*node, *old(store), *store),
                depth > 0,
                *node == (WidgetNode { children: node.children, ..entered }),
                node.children@.len() == entered.children@.len(),
                forall|j: int|
                    0 <= j < entered.children@.len() ==> {
                        &&& (#[trigger] node.children@[j]).id == entered.children@[j].id
                        &&& node.children@[j].tag() == entered.children@[j].tag()
                        &&& entered.children@[j].hooks.ids().is_prefix_of(
                            node.children@[j].hooks.ids(),
                        )
                    },
                forall|j: int|
                    i <= j < entered.children@.len() ==> (#[trigger] node.children@[j])
                        == entered.children@[j],
                forall|j: int|
                    0 <= j < i ==> walked(#[trigger] node.children@[j], (depth - 1) as nat),
            decreases node.children@.len() - i,
        {
            let ghost parent = *node;
            let ghost store_before = *store;
            proof {
                assert forall|x: u64| #[trigger] parent.children@[i as int].owns(x) implies store_before.live().contains(x) by {
                    assert(parent.owns(x));
                }
            }
            visit(systems, &mut node.children[i], store, depth - 1);
            proof {
                parent.lemma_child_evolved(*node, i as int, store_before, *store);
                old(node).lemma_evolves_trans(parent, *node, *old(store), store_before, *store);
            }
            i += 1;
        }
    }
    proof {
        if due && roomy {
            let tags = asks->0;
            assert(node_tags(node.children@) =~= node_tags(entered.children@));
            assert forall|i: int| 0 <= i < tags.len() implies match matched(
                node_tags(old(node).children@),
                tags,
                i,
            ) {
                Some(j) => 0 <= j < old(node).children@.len() && (#[trigger] node.children@[i]).id
                    == old(node).children@[j].id,
                None => true,
            } by {
                assert(node.children@[i].id == entered.children@[i].id);
            }
        }
    }
}

/// The tree of an application: its root node, and how many levels below
/// the root a pass goes.
pub struct WoodpeckerContext<P, S> {
    pub root_widget: Option<WidgetNode<P, S>>,
    pub max_depth: usize,
}

impl<P, S> WoodpeckerContext<P, S> {
    /// The tree is well formed and lives in `store`.
    pub open spec fn wf(self, store: NodeStore) -> bool {
        match self.root_widget {
            Some(root) => root.wf() && root.alive_in(store),
            None => true,
        }
    }

    /// A context without a root.
    pub fn new(max_depth: usize) -> (context: WoodpeckerContext<P, S>)
        ensures
            context.root_widget is None,
            context.max_depth == max_depth,
    {
        WoodpeckerContext { root_widget: None, max_depth }
    }

    /// Sets the root of the tree and hands back the root that was set
    /// before, if there was one.
    pub fn set_root_widget(&mut self, root: WidgetNode<P, S>) -> (previous: Option<WidgetNode<P, S>>)
        ensures
            final(self).root_widget == Some(root),
            final(self).max_depth == old(self).max_depth,
            previous == old(self).root_widget,
    {
        let mut slot = Some(root);
        core::mem::swap(&mut self.root_widget, &mut slot);
        slot
    }

    /// The identity of the root, if one is set.
    pub fn get_root_widget(&self) -> (root: Option<u64>)
        ensures
            root == match self.root_widget {
                Some(node) => Some(node.id),
                None => None,
            },
    {
        match &self.root_widget {
            Some(node) => Some(node.id),
            None => None,
        }
    }

    /// Runs one pass from the root. Without a root nothing happens.
    pub fn run<W: WidgetSystems<P, S>>(&mut self, systems: &mut W, store: &mut NodeStore) -> (ran: bool)
        requires
            old(self).wf(*old(store)),
        ensures
            final(self).wf(*final(store)),
            final(self).max_depth == old(self).max_depth,
            ran == old(self).root_widget is Some,
            match old(self).root_widget {
                Some(root) => {
                    &&& final(self).root_widget is Some
                    &&& root.evolves_to(final(self).root_widget->0, *old(store), *final(store))
                    &&& walked(final(self).root_widget->0, old(self).max_depth as nat)
                    &&& after_visit(root, final(self).root_widget->0)
                    &&& root.rendered && old(systems).due(root) == Some(false) ==> skipped(
                        root,
                        final(self).root_widget->0,
                    )
                    &&& !root.rendered || old(systems).due(root) == Some(true)
                        ==> rendered_as_asked(
                        *old(systems),
                        root,
                        final(self).root_widget->0,
                        *old(store),
                    )
                },
                None => final(self).root_widget is None && *final(store) == *old(store),
            },
    {
        let mut slot: Option<WidgetNode<P, S>> = None;
        core::mem::swap(&mut self.root_widget, &mut slot);
        match slot {
            Some(root) => {
                let mut root = root;
                visit(systems, &mut root, store, self.max_depth);
                self.root_widget = Some(root);
                true
            },
            None => false,
        }
    }
}

} // verus!
