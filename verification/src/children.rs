//! The children builder and the reconciler. A render collects the
//! descriptors of its children in order; reconciling that list against the
//! children of the last render keeps the nodes that match, creates the
//! ones that are new and destroys the ones that are left over.

use crate::context::ParentWidget;
use crate::matching::{
    candidate, claimed, claimed_before, first_candidate, lemma_claimed_has_match,
    lemma_first_candidate, lemma_matched, lemma_matched_injective, lemma_taken, matched, taken,
};
use crate::node::{siblings_alive, siblings_wf, WidgetNode};
use crate::store::NodeStore;
use vstd::prelude::*;

verus! {

/// What a render says of one child: its widget type, an optional key and
/// the props to hand down.
#[derive(Clone)]
pub struct ChildDescriptor<P> {
    pub widget: u64,
    pub key: Option<u64>,
    pub props: P,
}

impl<P> ChildDescriptor<P> {
    /// What the child is matched by: its widget type and its key.
    pub open spec fn tag(self) -> (u64, Option<u64>) {
        (self.widget, self.key)
    }
}

/// The tags of a list of nodes, in order.
pub open spec fn node_tags<P, S>(nodes: Seq<WidgetNode<P, S>>) -> Seq<(u64, Option<u64>)> {
    Seq::new(nodes.len(), |i: int| nodes[i].tag())
}

/// The tags of a list of descriptors, in order.
pub open spec fn descriptor_tags<P>(descs: Seq<ChildDescriptor<P>>) -> Seq<(u64, Option<u64>)> {
    Seq::new(descs.len(), |i: int| descs[i].tag())
}

/// Whether `x` is owned by a previous child that no descriptor has taken.
pub open spec fn dropped<P, S>(
    prior: Seq<WidgetNode<P, S>>,
    new_tags: Seq<(u64, Option<u64>)>,
    x: u64,
) -> bool {
    exists|j: int|
        0 <= j < prior.len() && !taken(node_tags(prior), new_tags, j) && (#[trigger] prior[j]).owns(x)
}

/// Whether `x` is the identity of a child that was created for a
/// descriptor without a match.
pub open spec fn created<P, S>(
    prior_tags: Seq<(u64, Option<u64>)>,
    new_tags: Seq<(u64, Option<u64>)>,
    new: Seq<WidgetNode<P, S>>,
    x: u64,
) -> bool {
    exists|i: int|
        0 <= i < new.len() && matched(prior_tags, new_tags, i) is None && (#[trigger] new[i]).id == x
}

/// What reconciling the descriptors `descs` against the previous children
/// `prior` gives: the children `new`, one for each descriptor and in the
/// descriptors' order, and the store `after`.
///
/// A matched child is the previous child with the descriptor's key and
/// props, flagged as changed. A child without a match is new: its entity was not in
/// the store before, and no other new child has it. The store afterwards
/// holds the new children, and of what it held before all but what the
/// previous children owned that no descriptor has taken.
pub open spec fn reconciled<P, S>(
    prior: Seq<WidgetNode<P, S>>,
    descs: Seq<ChildDescriptor<P>>,
    new: Seq<WidgetNode<P, S>>,
    before: NodeStore,
    after: NodeStore,
) -> bool {
    let prior_tags = node_tags(prior);
    let new_tags = descriptor_tags(descs);
    &&& new.len() == descs.len()
    &&& forall|i: int|
        0 <= i < descs.len() ==> match matched(prior_tags, new_tags, i) {
            Some(j) => (#[trigger] new[i]) == prior[j].adopted(descs[i].key, descs[i].props),
            None => new[i].is_fresh(descs[i].widget, descs[i].key, descs[i].props)
                && !before.live().contains(new[i].id),
        }
    &&& forall|a: int, b: int|
        0 <= a < b < new.len() && matched(prior_tags, new_tags, a) is None && matched(
            prior_tags,
            new_tags,
            b,
        ) is None ==> (#[trigger] new[a]).id != (#[trigger] new[b]).id
    &&& forall|x: u64|
        #![trigger after.live().contains(x)]
        after.live().contains(x) <==> created(prior_tags, new_tags, new, x) || (
        before.live().contains(x) && !dropped(prior, new_tags, x))
}

/// Reconciling well-formed children that live in the store gives
/// well-formed children that live in the store.
pub proof fn lemma_reconciled_siblings<P, S>(
    prior: Seq<WidgetNode<P, S>>,
    descs: Seq<ChildDescriptor<P>>,
    new: Seq<WidgetNode<P, S>>,
    before: NodeStore,
    after: NodeStore,
)
    requires
        reconciled(prior, descs, new, before, after),
        siblings_wf(prior),
        siblings_alive(prior, before),
    ensures
        siblings_wf(new),
        siblings_alive(new, after),
{
    let prior_tags = node_tags(prior);
    let new_tags = descriptor_tags(descs);
    let count = descs.len() as int;
    assert forall|i: int|
        #![trigger matched(prior_tags, new_tags, i)]
        0 <= i < new.len() implies match matched(
        prior_tags,
        new_tags,
        i,
    ) {
        Some(j) => 0 <= j < prior.len() && taken(prior_tags, new_tags, j)
            && new[i].wf() && forall|x: u64| #[trigger] new[i].owns(x) == prior[j].owns(x),
        None => new[i].wf() && forall|x: u64| #[trigger] new[i].owns(x) == (x == new[i].id),
    } by {
        lemma_matched(prior_tags, new_tags, i);
        match matched(prior_tags, new_tags, i) {
            Some(j) => {
                prior[j].lemma_adopted(descs[i].key, descs[i].props);
                assert forall|x: u64| new[i].owns(x) == prior[j].owns(x) by {
                    assert(prior[j].adopted(descs[i].key, descs[i].props).owns(x) == prior[j].owns(x));
                }
            },
            None => {},
        }
    }
    assert forall|a: int, b: int, x: u64|
        0 <= a < b < new.len() && (#[trigger] new[a].owns(x)) implies !(#[trigger] new[b].owns(
        x,
    )) by {
        lemma_matched_injective(prior_tags, new_tags, a, b);
        let ma = matched(prior_tags, new_tags, a);
        let mb = matched(prior_tags, new_tags, b);
        if ma is Some && mb is Some {
            let ja = ma->0;
            let jb = mb->0;
            assert(prior[ja].owns(x));
            if ja < jb {
                assert(!prior[jb].owns(x));
            } else {
                assert(!prior[jb].owns(x));
            }
        } else if ma is Some {
            assert(prior[ma->0].owns(x));
        } else if mb is Some {
            if new[b].owns(x) {
                assert(prior[mb->0].owns(x));
            }
        }
    }
    assert forall|i: int, x: u64|
        0 <= i < new.len() && (#[trigger] new[i].owns(x)) implies after.live().contains(
        x,
    ) by {
        match matched(prior_tags, new_tags, i) {
            Some(j) => {
                assert(prior[j].owns(x));
                if dropped(prior, new_tags, x) {
                    let d = choose|d: int|
                        0 <= d < prior.len() && !taken(node_tags(prior), new_tags, d) && (#[trigger] prior[d]).owns(x);
                    if d < j {
                        assert(!prior[j].owns(x));
                    } else {
                        assert(!prior[d].owns(x));
                    }
                }
            },
            None => {
                assert(new[i].id == x);
                assert(created(prior_tags, new_tags, new, x));
            },
        }
    }
}

/// The elements of `v` in reverse order.
fn reversed<T>(v: Vec<T>) -> (r: Vec<T>)
    ensures
        r@.len() == v@.len(),
        forall|k: int| 0 <= k < v@.len() ==> r@[k] == v@[v@.len() - 1 - k],
{
    let mut v = v;
    let mut r: Vec<T> = Vec::new();
    let ghost all = v@;
    while v.len() > 0
        invariant
            v@.len() <= all.len(),
            v@ == all.subrange(0, v@.len() as int),
            r@.len() == all.len() - v@.len(),
            forall|k: int| 0 <= k < r@.len() ==> r@[k] == all[all.len() - 1 - k],
        decreases v@.len(),
    {
        let x = v.pop().unwrap();
        r.push(x);
    }
    r
}

/// Whether two optional keys are the same.
fn same_key(a: Option<u64>, b: Option<u64>) -> (same: bool)
    ensures
        same == (a == b),
{
    match a {
        Some(x) => match b {
            Some(y) => x == y,
            None => false,
        },
        None => b.is_none(),
    }
}

/// The slots of the previous children while descriptors are matched: a
/// child that is gone from its slot was taken.
spec fn slots_hold<P, S>(
    slots: Seq<Option<WidgetNode<P, S>>>,
    prior: Seq<WidgetNode<P, S>>,
    gone: Set<int>,
) -> bool {
    &&& slots.len() == prior.len()
    &&& forall|j: int|
        0 <= j < prior.len() ==> (#[trigger] slots[j]) == (if gone.contains(j) {
            None
        } else {
            Some(prior[j])
        })
}

/// What a descriptor with a key has found among the previous children.
spec fn found_for<P, S>(
    prior: Seq<WidgetNode<P, S>>,
    new_tags: Seq<(u64, Option<u64>)>,
    i: int,
) -> Option<WidgetNode<P, S>> {
    if new_tags[i].1 is Some {
        match matched(node_tags(prior), new_tags, i) {
            Some(j) => Some(prior[j]),
            None => None,
        }
    } else {
        None
    }
}

/// The previous children that are gone from their slots once the
/// descriptors with a key and the first `i` descriptors without one are
/// served.
spec fn gone_before<P, S>(
    prior: Seq<WidgetNode<P, S>>,
    new_tags: Seq<(u64, Option<u64>)>,
    i: int,
) -> Set<int> {
    Set::new(
        |j: int|
            claimed(node_tags(prior), new_tags).contains(j) || (0 <= j < i && j < new_tags.len()
                && new_tags[j].1 is None && matched(node_tags(prior), new_tags, j) == Some(j)),
    )
}

/// Finds the first previous child that is left for a descriptor with the
/// given widget type and key.
fn find_keyed<P, S>(
    slots: &Vec<Option<WidgetNode<P, S>>>,
    widget: u64,
    key: Option<u64>,
    Ghost(prior): Ghost<Seq<WidgetNode<P, S>>>,
    Ghost(gone): Ghost<Set<int>>,
) -> (at: Option<usize>)
    requires
        slots_hold(slots@, prior, gone),
    ensures
        match at {
            Some(j) => first_candidate(node_tags(prior), gone, (widget, key), 0) == Some(j as int),
            None => first_candidate(node_tags(prior), gone, (widget, key), 0) is None,
        },
{
    proof {
        lemma_first_candidate(node_tags(prior), gone, (widget, key), 0);
    }
    let mut j: usize = 0;
    while j < slots.len()
        invariant
            j <= slots@.len(),
            slots_hold(slots@, prior, gone),
            forall|k: int| 0 <= k < j ==> !candidate(node_tags(prior), gone, (widget, key), k),
        decreases slots@.len() - j,
    {
        match &slots[j] {
            Some(node) => {
                if node.widget == widget && same_key(node.key, key) {
                    assert(node_tags(prior)[j as int] == (widget, key));
                    assert(candidate(node_tags(prior), gone, (widget, key), j as int));
                    proof {
                        lemma_first_candidate(node_tags(prior), gone, (widget, key), 0);
                    }
                    return Some(j);
                }
            },
            None => {},
        }
        j += 1;
    }
    None
}

/// Reconciles the descriptors of a render against the children of the
/// render before it, and gives the new children in the descriptors' order.
/// The store must have room for as many nodes as there are descriptors.
pub fn reconcile<P, S>(
    prior: Vec<WidgetNode<P, S>>,
    descs: Vec<ChildDescriptor<P>>,
    store: &mut NodeStore,
) -> (new: Vec<WidgetNode<P, S>>)
    requires
        siblings_wf(prior@),
        siblings_alive(prior@, *old(store)),
        old(store).has_room(descs@.len() as int),
    ensures
        reconciled(prior@, descs@, new@, *old(store), *final(store)),
        siblings_wf(new@),
        siblings_alive(new@, *final(store)),
{
    let ghost prior_tags = node_tags(prior@);
    let ghost new_tags = descriptor_tags(descs@);
    let ghost count = descs@.len() as int;
    let ghost prior_len = prior@.len() as int;

    // The previous children, each in a slot of its own.
    let mut stack = reversed(prior);
    let mut slots: Vec<Option<WidgetNode<P, S>>> = Vec::new();
    while stack.len() > 0
        invariant
            stack@.len() + slots@.len() == prior_len,
            prior_len == prior@.len(),
            forall|k: int| 0 <= k < stack@.len() ==> stack@[k] == prior@[prior_len - 1 - k],
            forall|j: int| 0 <= j < slots@.len() ==> slots@[j] == Some(prior@[j]),
        decreases stack@.len(),
    {
        let node = stack.pop().unwrap();
        slots.push(Some(node));
    }
    assert(slots_hold(slots@, prior@, claimed_before(prior_tags, new_tags, 0)));

    // Keys first: each descriptor with a key claims its child.
    let mut found: Vec<Option<WidgetNode<P, S>>> = Vec::new();
    let mut k: usize = 0;
    while k < descs.len()
        invariant
            k <= descs@.len(),
            prior_tags == node_tags(prior@),
            new_tags == descriptor_tags(descs@),
            found@.len() == k,
            slots_hold(slots@, prior@, claimed_before(prior_tags, new_tags, k as int)),
            forall|i: int| 0 <= i < k ==> (#[trigger] found@[i]) == found_for(prior@, new_tags, i),
        decreases descs@.len() - k,
    {
        let ghost before = claimed_before(prior_tags, new_tags, k as int);
        let desc = &descs[k];
        assert(new_tags[k as int] == (desc.widget, desc.key));
        if desc.key.is_some() {
            match find_keyed(&slots, desc.widget, desc.key, Ghost(prior@), Ghost(before)) {
                Some(j) => {
                    proof {
                        lemma_first_candidate(prior_tags, before, new_tags[k as int], 0);
                    }
                    let node = slots[j].take();
                    found.push(node);
                },
                None => {
                    found.push(None);
                },
            }
        } else {
            found.push(None);
        }
        k += 1;
    }
    proof {
        assert(claimed_before(prior_tags, new_tags, count) == claimed(prior_tags, new_tags));
        assert(gone_before(prior@, new_tags, 0) =~= claimed(prior_tags, new_tags));
    }

    // One child for each descriptor, in order.
    let mut queue = reversed(descs);
    let mut new: Vec<WidgetNode<P, S>> = Vec::new();
    while queue.len() > 0
        invariant
            prior_tags == node_tags(prior@),
            new_tags == descriptor_tags(descs@),
            count == descs@.len(),
            queue@.len() + new@.len() == count,
            found@.len() == count,
            forall|k: int| 0 <= k < queue@.len() ==> queue@[k] == descs@[count - 1 - k],
            forall|i: int|
                new@.len() <= i < count ==> (#[trigger] found@[i]) == found_for(prior@, new_tags, i),
            slots_hold(slots@, prior@, gone_before(prior@, new_tags, new@.len() as int)),
            store.live().len() <= old(store).live().len() + new@.len(),
            old(store).has_room(count),
            forall|i: int|
                0 <= i < new@.len() ==> match matched(prior_tags, new_tags, i) {
                    Some(j) => (#[trigger] new@[i]) == prior@[j].adopted(
                        descs@[i].key,
                        descs@[i].props,
                    ),
                    None => new@[i].is_fresh(descs@[i].widget, descs@[i].key, descs@[i].props)
                        && !old(store).live().contains(new@[i].id),
                },
            forall|a: int, b: int|
                0 <= a < b < new@.len() && matched(prior_tags, new_tags, a) is None && matched(
                    prior_tags,
                    new_tags,
                    b,
                ) is None ==> (#[trigger] new@[a]).id != (#[trigger] new@[b]).id,
            forall|x: u64|
                #![trigger store.live().contains(x)]
                store.live().contains(x) <==> created(prior_tags, new_tags, new@, x) || old(
                    store,
                ).live().contains(x),
        decreases queue@.len(),
    {
        let ghost i = new@.len() as int;
        let ghost so_far = new@;
        let ghost gone = gone_before(prior@, new_tags, i);
        let at: usize = new.len();
        let desc = queue.pop().unwrap();
        assert(desc == descs@[i]);
        assert(new_tags[i] == (desc.widget, desc.key));
        proof {
            lemma_matched(prior_tags, new_tags, i);
        }
        let reused: Option<WidgetNode<P, S>> = if desc.key.is_some() {
            proof {
                assert(gone_before(prior@, new_tags, i + 1) =~= gone);
            }
            found[at].take()
        } else if at < slots.len() {
            let fits: bool = match &slots[at] {
                Some(node) => node.widget == desc.widget,
                None => false,
            };
            proof {
                assert(prior_tags[i] == prior@[i].tag());
                assert(gone.contains(i) <==> claimed(prior_tags, new_tags).contains(i));
            }
            if fits {
                proof {
                    assert(gone_before(prior@, new_tags, i + 1) =~= gone.insert(i));
                }
                slots[at].take()
            } else {
                proof {
                    assert(gone_before(prior@, new_tags, i + 1) =~= gone);
                }
                None
            }
        } else {
            proof {
                assert(gone_before(prior@, new_tags, i + 1) =~= gone);
            }
            None
        };
        assert(reused == match matched(prior_tags, new_tags, i) {
            Some(j) => Some(prior@[j]),
            None => None,
        });
        match reused {
            Some(node) => {
                let mut node = node;
                node.adopt(desc.key, desc.props);
                new.push(node);
                assert forall|x: u64| created(prior_tags, new_tags, new@, x) <==> created(
                    prior_tags,
                    new_tags,
                    so_far,
                    x,
                ) by {
                    if created(prior_tags, new_tags, new@, x) {
                        let k = choose|k: int|
                            0 <= k < new@.len() && matched(prior_tags, new_tags, k) is None && (
                            #[trigger] new@[k]).id == x;
                        assert(so_far[k].id == x);
                    }
                    if created(prior_tags, new_tags, so_far, x) {
                        let k = choose|k: int|
                            0 <= k < so_far.len() && matched(prior_tags, new_tags, k) is None && (
                            #[trigger] so_far[k]).id == x;
                        assert(new@[k].id == x);
                    }
                }
            },
            None => {
                let node = match WidgetNode::new(store, desc.widget, desc.key, desc.props) {
                    Some(node) => node,
                    None => {
                        assert(false);
                        vstd::pervasive::unreached()
                    },
                };
                new.push(node);
                assert forall|x: u64|
                    #![trigger store.live().contains(x)]
                    store.live().contains(x) <==> created(prior_tags, new_tags, new@, x) || old(
                        store,
                    ).live().contains(x) by {
                    if created(prior_tags, new_tags, new@, x) {
                        let k = choose|k: int|
                            0 <= k < new@.len() && matched(prior_tags, new_tags, k) is None && (
                            #[trigger] new@[k]).id == x;
                        if k < i {
                            assert(so_far[k].id == x);
                        }
                    }
                    if created(prior_tags, new_tags, so_far, x) {
                        let k = choose|k: int|
                            0 <= k < so_far.len() && matched(prior_tags, new_tags, k) is None && (
                            #[trigger] so_far[k]).id == x;
                        assert(new@[k].id == x);
                    }
                    if x == node.id {
                        assert(new@[i].id == x);
                    }
                }
                assert forall|a: int, b: int|
                    0 <= a < b < new@.len() && matched(prior_tags, new_tags, a) is None && matched(
                        prior_tags,
                        new_tags,
                        b,
                    ) is None implies (#[trigger] new@[a]).id != (#[trigger] new@[b]).id by {
                    if b == i {
                        assert(so_far[a].id == new@[a].id);
                        assert(created(prior_tags, new_tags, so_far, so_far[a].id));
                    }
                }
            },
        }
    }

    // What no descriptor has taken is destroyed.
    let ghost gone = gone_before(prior@, new_tags, count);
    let ghost store_mid = *store;
    let ghost all = slots@;
    proof {
        assert forall|j: int| 0 <= j < prior@.len() implies (gone.contains(j) <==> taken(
            prior_tags,
            new_tags,
            j,
        )) by {
            if taken(prior_tags, new_tags, j) {
                lemma_taken(prior_tags, new_tags, j);
            }
            if claimed(prior_tags, new_tags).contains(j) {
                lemma_claimed_has_match(prior_tags, new_tags, count, j);
            }
        }
    }
    while slots.len() > 0
        invariant
            slots@.len() <= all.len(),
            slots@ == all.subrange(0, slots@.len() as int),
            slots_hold(all, prior@, gone),
            forall|j: int|
                0 <= j < prior@.len() ==> (gone.contains(j) <==> taken(prior_tags, new_tags, j)),
            forall|x: u64|
                #![trigger store.live().contains(x)]
                store.live().contains(x) <==> store_mid.live().contains(x) && !(exists|j: int|
                    slots@.len() <= j < prior@.len() && !taken(prior_tags, new_tags, j) && (
                    #[trigger] prior@[j]).owns(x)),
        decreases slots@.len(),
    {
        let ghost m = slots@.len() - 1;
        let slot = slots.pop().unwrap();
        assert(slot == all[m]);
        match slot {
            Some(node) => {
                assert(node == prior@[m]);
                node.destroy(store);
            },
            None => {},
        }
    }
    proof {
        assert forall|x: u64|
            #![trigger store.live().contains(x)]
            store.live().contains(x) <==> created(prior_tags, new_tags, new@, x) || (old(
                store,
            ).live().contains(x) && !dropped(prior@, new_tags, x)) by {
            if created(prior_tags, new_tags, new@, x) {
                let k = choose|k: int|
                    0 <= k < new@.len() && matched(prior_tags, new_tags, k) is None && (
                    #[trigger] new@[k]).id == x;
                assert(!old(store).live().contains(x));
            }
        }
        lemma_reconciled_siblings(prior@, descs@, new@, *old(store), *store);
    }
    new
}

/// The children that a render asks for, in order, and the node that the
/// list was finalized for.
#[derive(Clone)]
pub struct WidgetChildren<P> {
    pub queue: Vec<ChildDescriptor<P>>,
    pub parent: Option<ParentWidget>,
}

impl<P> WidgetChildren<P> {
    /// An empty list that is finalized for no node.
    pub fn new() -> (children: WidgetChildren<P>)
        ensures
            children.queue@.len() == 0,
            children.parent is None,
    {
        WidgetChildren { queue: Vec::new(), parent: None }
    }

    /// Adds a child without a key: it is matched by its position.
    pub fn add(&mut self, widget: u64, props: P)
        ensures
            final(self).queue@ == old(self).queue@.push(
                ChildDescriptor { widget, key: None, props },
            ),
            final(self).parent == old(self).parent,
    {
        self.queue.push(ChildDescriptor { widget, key: None, props });
    }

    /// Adds a child with a key: it is matched by its key, wherever it stands.
    pub fn add_with_key(&mut self, widget: u64, key: u64, props: P)
        ensures
            final(self).queue@ == old(self).queue@.push(
                ChildDescriptor { widget, key: Some(key), props },
            ),
            final(self).parent == old(self).parent,
    {
        self.queue.push(ChildDescriptor { widget, key: Some(key), props });
    }

    /// The list with one more child without a key.
    pub fn with_child(self, widget: u64, props: P) -> (children: WidgetChildren<P>)
        ensures
            children.queue@ == self.queue@.push(ChildDescriptor { widget, key: None, props }),
            children.parent == self.parent,
    {
        let mut children = self;
        children.add(widget, props);
        children
    }

    /// Finalizes the list as the children of `parent`.
    pub fn apply(&mut self, parent: ParentWidget)
        ensures
            final(self).queue == old(self).queue,
            final(self).parent == Some(parent),
    {
        self.parent = Some(parent);
    }

    /// Reconciles the list against the children of `node`, if the list was
    /// finalized for `node` and the store has room for as many nodes as the
    /// list is long. A list that was finalized for no node or for another
    /// one, or one that the store has no room for, leaves `node` with its
    /// last reconciled children and the store as it is.
    pub fn process<S>(self, node: &mut WidgetNode<P, S>, store: &mut NodeStore) -> (done: bool)
        requires
            old(node).wf(),
            old(node).alive_in(*old(store)),
        ensures
            done == (self.parent == Some(ParentWidget { entity: old(node).id }) && old(
                store,
            ).has_room(self.queue@.len() as int)),
            !done ==> *final(node) == *old(node) && *final(store) == *old(store),
            done ==> reconciled(
                old(node).children@,
                self.queue@,
                final(node).children@,
                *old(store),
                *final(store),
            ),
            *final(node) == (WidgetNode { children: final(node).children, ..*old(node) }),
            final(node).wf(),
            final(node).alive_in(*final(store)),
            old(node).evolves_to(*final(node), *old(store), *final(store)),
    {
        let WidgetChildren { queue, parent } = self;
        let applied: bool = match parent {
            Some(p) => p.entity == node.id,
            None => false,
        };
        if !applied || queue.len() > (u32::MAX - store.len()) as usize {
            return false;
        }
        let mut prior: Vec<WidgetNode<P, S>> = Vec::new();
        core::mem::swap(&mut node.children, &mut prior);
        proof {
            assert forall|i: int, x: u64| 0 <= i < prior@.len() && (#[trigger] prior@[i].owns(
                x,
            )) implies store.live().contains(x) by {
                assert(old(node).owns(x));
            }
        }
        let new = reconcile(prior, queue, store);
        node.children = new;
        proof {
            lemma_children_replaced(*old(node), *node, queue@, *old(store), *store);
        }
        true
    }
}

impl<P> Default for WidgetChildren<P> {
    fn default() -> (children: WidgetChildren<P>)
        ensures
            children.queue@.len() == 0,
            children.parent is None,
    {
        WidgetChildren::new()
    }
}

/// A well-formed node that lives in the store, with its children replaced
/// by what reconciling gives, is well formed, lives in the store afterwards
/// and has evolved from the node before.
pub proof fn lemma_children_replaced<P, S>(
    node: WidgetNode<P, S>,
    next: WidgetNode<P, S>,
    descs: Seq<ChildDescriptor<P>>,
    before: NodeStore,
    after: NodeStore,
)
    requires
        node.wf(),
        node.alive_in(before),
        next == (WidgetNode { children: next.children, ..node }),
        reconciled(node.children@, descs, next.children@, before, after),
    ensures
        next.wf(),
        next.alive_in(after),
        node.evolves_to(next, before, after),
{
    let prior = node.children@;
    let new = next.children@;
    let prior_tags = node_tags(prior);
    let new_tags = descriptor_tags(descs);
    let count = descs.len() as int;
    assert(siblings_wf(prior));
    assert(siblings_alive(prior, before)) by {
        assert forall|i: int, x: u64| 0 <= i < prior.len() && (#[trigger] prior[i].owns(
            x,
        )) implies before.live().contains(x) by {
            assert(node.owns(x));
        }
    }
    lemma_reconciled_siblings(prior, descs, new, before, after);
    // What a new child owns was owned by a previous child or is new to the store.
    assert forall|i: int, x: u64| 0 <= i < new.len() && (#[trigger] new[i].owns(x)) implies (
    exists|j: int| 0 <= j < prior.len() && (#[trigger] prior[j]).owns(x)) || (!before.live().contains(x) && created(prior_tags, new_tags, new, x)) by {
        lemma_matched(prior_tags, new_tags, i);
        match matched(prior_tags, new_tags, i) {
            Some(j) => {
                prior[j].lemma_adopted(descs[i].key, descs[i].props);
                assert(prior[j].adopted(descs[i].key, descs[i].props).owns(x) == prior[j].owns(x));
                assert(prior[j].owns(x));
            },
            None => {
                assert(new[i].id == x);
            },
        }
    }
    assert forall|x: u64| dropped(prior, new_tags, x) implies node.owns(x) && !next.owns(x) by {
        let d = choose|d: int|
            0 <= d < prior.len() && !taken(node_tags(prior), new_tags, d) && (#[trigger] prior[d]).owns(x);
        assert(node.owns(x));
        if next.owns(x) {
            assert(next.id != x);
            assert(!next.hooks.owns(x));
            let i = choose|i: int| 0 <= i < new.len() && (#[trigger] new[i]).owns(x);
            lemma_matched(prior_tags, new_tags, i);
            match matched(prior_tags, new_tags, i) {
                Some(j) => {
                    prior[j].lemma_adopted(descs[i].key, descs[i].props);
                    assert(prior[j].adopted(descs[i].key, descs[i].props).owns(x) == prior[j].owns(x));
                    assert(prior[j].owns(x));
                    if d < j {
                        assert(!prior[j].owns(x));
                    } else {
                        assert(!prior[d].owns(x));
                    }
                },
                None => {
                    assert(new[i].id == x);
                    assert(before.live().contains(x));
                },
            }
        }
    }
    assert forall|x: u64| #[trigger] node.owns(x) && !next.owns(x) implies dropped(
        prior,
        new_tags,
        x,
    ) by {
        let j = choose|j: int| 0 <= j < prior.len() && (#[trigger] prior[j]).owns(x);
        if taken(prior_tags, new_tags, j) {
            let i = choose|i: int|
                0 <= i < new_tags.len() && #[trigger] matched(prior_tags, new_tags, i) == Some(j);
            lemma_matched(prior_tags, new_tags, i);
            prior[j].lemma_adopted(descs[i].key, descs[i].props);
            assert(prior[j].adopted(descs[i].key, descs[i].props).owns(x) == prior[j].owns(x));
            assert(new[i].owns(x));
        }
    }
    assert forall|x: u64| #[trigger] next.owns(x) implies after.live().contains(x) by {
        if next.id == x || next.hooks.owns(x) {
            assert(node.owns(x));
        } else {
            let i = choose|i: int| 0 <= i < new.len() && (#[trigger] new[i]).owns(x);
        }
    }
    assert(next.wf()) by {
        assert forall|i: int| 0 <= i < new.len() implies !(#[trigger] new[i]).owns(next.id) by {
            if new[i].owns(next.id) {
                assert(node.owns(next.id));
            }
        }
        assert forall|i: int, x: u64| 0 <= i < new.len() && (#[trigger] new[i].owns(
            x,
        )) implies !next.hooks.owns(x) by {
            if next.hooks.owns(x) {
                assert(node.owns(x));
            }
        }
    }
    assert(node.hooks.ids().is_prefix_of(next.hooks.ids())) by {
        assert(node.hooks.ids() =~= next.hooks.ids().subrange(0, node.hooks.ids().len() as int));
    }
    assert forall|x: u64|
        #![trigger after.live().contains(x)]
        after.live().contains(x) <==> next.owns(x) || (!node.owns(x) && before.live().contains(x)) by {
        if created(prior_tags, new_tags, new, x) {
            let i = choose|i: int|
                0 <= i < new.len() && matched(prior_tags, new_tags, i) is None && (
                #[trigger] new[i]).id == x;
            assert(new[i].owns(x));
            assert(next.owns(x));
        }
        if node.owns(x) && !next.owns(x) {
            assert(dropped(prior, new_tags, x));
        }
    }
    assert forall|x: u64| #[trigger] next.owns(x) && !node.owns(x) implies !before.live().contains(x) by {
        let i = choose|i: int| 0 <= i < new.len() && (#[trigger] new[i]).owns(x);
        if exists|j: int| 0 <= j < prior.len() && (#[trigger] prior[j]).owns(x) {
            assert(node.owns(x));
        }
    }
}

} // verus!
