//! What the tree guarantees across renders and passes: which children
//! keep their identity, which are destroyed, that hook states persist,
//! and how long a change flag stands.

use crate::children::{created, descriptor_tags, dropped, node_tags, reconciled, ChildDescriptor};
use crate::matching::{
    candidate, claimed, claimed_before, lemma_claimed_has_match, lemma_first_candidate,
    lemma_matched, matched, taken,
};
use crate::node::{siblings_alive, WidgetNode};
use crate::runner::after_visit;
use crate::store::NodeStore;
use vstd::prelude::*;

verus! {

/// Against an identical list of tags, the descriptors with a key among
/// the first `i` have claimed the previous children with a key among the
/// first `i`.
pub proof fn lemma_identical_tags_claimed(tags: Seq<(u64, Option<u64>)>, i: int)
    requires
        0 <= i <= tags.len(),
    ensures
        forall|j: int|
            claimed_before(tags, tags, i).contains(j) <==> 0 <= j < i && tags[j].1 is Some,
        i < tags.len() && tags[i].1 is Some ==> matched(tags, tags, i) == Some(i),
    decreases i,
{
    if i > 0 {
        lemma_identical_tags_claimed(tags, i - 1);
    }
    if i < tags.len() && tags[i].1 is Some {
        let before = claimed_before(tags, tags, i);
        lemma_first_candidate(tags, before, tags[i], 0);
        assert(candidate(tags, before, tags[i], i));
    }
}

/// Against an identical list of tags, every descriptor is matched with the
/// previous child at its own position.
pub proof fn lemma_identical_tags_match_in_place(tags: Seq<(u64, Option<u64>)>, i: int)
    requires
        0 <= i < tags.len(),
    ensures
        matched(tags, tags, i) == Some(i),
        taken(tags, tags, i),
{
    lemma_identical_tags_claimed(tags, i);
    lemma_identical_tags_claimed(tags, tags.len() as int);
}

/// The children that reconciling gives carry the tags of the descriptors.
pub proof fn lemma_reconciled_tags<P, S>(
    prior: Seq<WidgetNode<P, S>>,
    descs: Seq<ChildDescriptor<P>>,
    new: Seq<WidgetNode<P, S>>,
    before: NodeStore,
    after: NodeStore,
)
    requires
        reconciled(prior, descs, new, before, after),
    ensures
        node_tags(new) == descriptor_tags(descs),
{
    let prior_tags = node_tags(prior);
    let new_tags = descriptor_tags(descs);
    assert forall|i: int| 0 <= i < new.len() implies new[i].tag() == descs[i].tag() by {
        lemma_matched(prior_tags, new_tags, i);
        match matched(prior_tags, new_tags, i) {
            Some(j) => {
                assert(prior_tags[j].0 == new_tags[i].0);
                assert(new[i] == prior[j].adopted(descs[i].key, descs[i].props));
            },
            None => {},
        }
    }
    assert(node_tags(new) =~= descriptor_tags(descs));
}

/// Identity stability: where the descriptors carry, position by position,
/// the widget types and keys of the previous children, every child is the
/// previous child at its position with the new props, and the store holds
/// the entities it held before.
pub proof fn lemma_identity_stability<P, S>(
    prior: Seq<WidgetNode<P, S>>,
    descs: Seq<ChildDescriptor<P>>,
    new: Seq<WidgetNode<P, S>>,
    before: NodeStore,
    after: NodeStore,
)
    requires
        reconciled(prior, descs, new, before, after),
        node_tags(prior) == descriptor_tags(descs),
    ensures
        new.len() == prior.len(),
        forall|i: int|
            0 <= i < prior.len() ==> (#[trigger] new[i]) == prior[i].with_props(descs[i].props),
        forall|i: int| 0 <= i < prior.len() ==> (#[trigger] new[i]).id == prior[i].id,
        after.live() == before.live(),
{
    let tags = node_tags(prior);
    let count = tags.len() as int;
    assert forall|i: int| 0 <= i < count implies matched(tags, tags, i) == Some(i) && taken(
        tags,
        tags,
        i,
    ) by {
        lemma_identical_tags_match_in_place(tags, i);
    }
    assert forall|i: int| 0 <= i < prior.len() implies (#[trigger] new[i]) == prior[i].with_props(
        descs[i].props,
    ) by {
        assert(matched(tags, tags, i) == Some(i));
        assert(descs[i].tag() == prior[i].tag());
        assert(new[i] == prior[i].adopted(descs[i].key, descs[i].props));
    }
    assert forall|x: u64| !created(tags, tags, new, x) by {}
    assert forall|x: u64| !dropped(prior, tags, x) by {}
    assert(after.live() =~= before.live());
}

/// Reordering by key: a descriptor with a key that no other descriptor
/// carries with its widget type is matched with the one previous child that
/// carries both, wherever the two stand. So keyed children that a render
/// lists in another order keep their identities and change their places.
pub proof fn lemma_key_follows_child(
    prior_tags: Seq<(u64, Option<u64>)>,
    new_tags: Seq<(u64, Option<u64>)>,
    i: int,
    j: int,
)
    requires
        0 <= i < new_tags.len(),
        0 <= j < prior_tags.len(),
        new_tags[i].1 is Some,
        prior_tags[j] == new_tags[i],
        forall|k: int| 0 <= k < prior_tags.len() && k != j ==> prior_tags[k] != new_tags[i],
        forall|k: int| 0 <= k < new_tags.len() && k != i ==> new_tags[k] != new_tags[i],
    ensures
        matched(prior_tags, new_tags, i) == Some(j),
{
    let before = claimed_before(prior_tags, new_tags, i);
    if before.contains(j) {
        lemma_claimed_has_match(prior_tags, new_tags, i, j);
        let k = choose|k: int|
            0 <= k < i && new_tags[k].1 is Some && #[trigger] matched(prior_tags, new_tags, k)
                == Some(j);
        lemma_matched(prior_tags, new_tags, k);
        assert(new_tags[k] == prior_tags[j]);
        assert(false);
    }
    lemma_first_candidate(prior_tags, before, new_tags[i], 0);
    assert(candidate(prior_tags, before, new_tags[i], j));
}

/// Matching by position: a descriptor without a key takes the previous
/// child at its position where the widget types agree and no descriptor
/// with a key claims that child, whatever key the child had; the child then
/// carries no key.
pub proof fn lemma_position_follows_type<P, S>(
    prior: Seq<WidgetNode<P, S>>,
    descs: Seq<ChildDescriptor<P>>,
    new: Seq<WidgetNode<P, S>>,
    before: NodeStore,
    after: NodeStore,
    i: int,
)
    requires
        reconciled(prior, descs, new, before, after),
        0 <= i < prior.len(),
        i < descs.len(),
        descs[i].key is None,
        descs[i].widget == prior[i].widget,
        forall|k: int| 0 <= k < descs.len() ==> (#[trigger] descs[k]).tag() != prior[i].tag(),
    ensures
        new[i] == prior[i].adopted(None, descs[i].props),
        new[i].id == prior[i].id,
        new[i].key is None,
{
    let prior_tags = node_tags(prior);
    let new_tags = descriptor_tags(descs);
    if claimed(prior_tags, new_tags).contains(i) {
        lemma_claimed_has_match(prior_tags, new_tags, new_tags.len() as int, i);
        let k = choose|k: int|
            0 <= k < new_tags.len() && new_tags[k].1 is Some && #[trigger] matched(
                prior_tags,
                new_tags,
                k,
            ) == Some(i);
        lemma_matched(prior_tags, new_tags, k);
        assert(descs[k].tag() == prior[i].tag());
        assert(false);
    }
    assert(prior_tags[i].0 == new_tags[i].0);
    assert(matched(prior_tags, new_tags, i) == Some(i));
}

/// Finalizing twice: reconciling a second list with the widget types and
/// keys of the first against what the first has given creates no node and
/// destroys none, and every child keeps its identity.
pub proof fn lemma_second_finalize_is_noop<P, S>(
    prior: Seq<WidgetNode<P, S>>,
    first: Seq<ChildDescriptor<P>>,
    mid: Seq<WidgetNode<P, S>>,
    second: Seq<ChildDescriptor<P>>,
    new: Seq<WidgetNode<P, S>>,
    before: NodeStore,
    between: NodeStore,
    after: NodeStore,
)
    requires
        reconciled(prior, first, mid, before, between),
        reconciled(mid, second, new, between, after),
        descriptor_tags(first) == descriptor_tags(second),
    ensures
        new.len() == mid.len(),
        forall|i: int| 0 <= i < mid.len() ==> (#[trigger] new[i]).id == mid[i].id,
        after.live() == between.live(),
{
    lemma_reconciled_tags(prior, first, mid, before, between);
    lemma_identity_stability(mid, second, new, between, after);
}

/// A previous child that no descriptor can be matched with is destroyed
/// with all that it owns: its states, and the nodes below it with theirs.
/// No descriptor can be matched with it where no descriptor with a key
/// carries its widget type and key, and the descriptor at its position, if
/// there is one, has a key or another widget type. This holds of every
/// previous child where the list of descriptors is empty.
pub proof fn lemma_unmatched_subtree_destroyed<P, S>(
    prior: Seq<WidgetNode<P, S>>,
    descs: Seq<ChildDescriptor<P>>,
    new: Seq<WidgetNode<P, S>>,
    before: NodeStore,
    after: NodeStore,
    j: int,
)
    requires
        reconciled(prior, descs, new, before, after),
        siblings_alive(prior, before),
        0 <= j < prior.len(),
        forall|i: int|
            0 <= i < descs.len() && (#[trigger] descs[i]).key is Some ==> descs[i].tag()
                != prior[j].tag(),
        j < descs.len() && descs[j].key is None ==> descs[j].widget != prior[j].widget,
    ensures
        forall|x: u64| #[trigger] prior[j].owns(x) ==> !after.live().contains(x),
{
    let prior_tags = node_tags(prior);
    let new_tags = descriptor_tags(descs);
    if taken(prior_tags, new_tags, j) {
        let i = choose|i: int|
            0 <= i < new_tags.len() && #[trigger] matched(prior_tags, new_tags, i) == Some(j);
        lemma_matched(prior_tags, new_tags, i);
        if descs[i].key is Some {
            assert(descs[i].tag() == prior[j].tag());
        } else {
            assert(prior_tags[j].0 == new_tags[j].0);
        }
        assert(false);
    }
    assert forall|x: u64| #[trigger] prior[j].owns(x) implies !after.live().contains(x) by {
        assert(dropped(prior, new_tags, x));
        assert(before.live().contains(x));
        if created(prior_tags, new_tags, new, x) {
            let i = choose|i: int|
                0 <= i < new.len() && matched(prior_tags, new_tags, i) is None && (
                #[trigger] new[i]).id == x;
            assert(!before.live().contains(new[i].id));
        }
    }
}

/// Replacement on a change of type: where the descriptor at a position
/// has no key and asks for another widget type than the previous child
/// there, which had no key either, the previous child is destroyed with all
/// that it owns, and the child at that position is a new node.
pub proof fn lemma_type_mismatch_replaces<P, S>(
    prior: Seq<WidgetNode<P, S>>,
    descs: Seq<ChildDescriptor<P>>,
    new: Seq<WidgetNode<P, S>>,
    before: NodeStore,
    after: NodeStore,
    i: int,
)
    requires
        reconciled(prior, descs, new, before, after),
        siblings_alive(prior, before),
        0 <= i < prior.len(),
        i < descs.len(),
        prior[i].key is None,
        descs[i].key is None,
        prior[i].widget != descs[i].widget,
    ensures
        forall|x: u64| #[trigger] prior[i].owns(x) ==> !after.live().contains(x),
        new[i].is_fresh(descs[i].widget, descs[i].key, descs[i].props),
        !before.live().contains(new[i].id),
        after.live().contains(new[i].id),
{
    let prior_tags = node_tags(prior);
    let new_tags = descriptor_tags(descs);
    lemma_unmatched_subtree_destroyed(prior, descs, new, before, after, i);
    assert(prior_tags[i].0 != new_tags[i].0);
    assert(matched(prior_tags, new_tags, i) is None);
    assert(created(prior_tags, new_tags, new, new[i].id));
}

/// A matched child keeps its identity, its states with their records,
/// and all that is below it.
pub proof fn lemma_matched_child_keeps_states<P, S>(
    prior: Seq<WidgetNode<P, S>>,
    descs: Seq<ChildDescriptor<P>>,
    new: Seq<WidgetNode<P, S>>,
    before: NodeStore,
    after: NodeStore,
    i: int,
)
    requires
        reconciled(prior, descs, new, before, after),
        0 <= i < descs.len(),
        matched(node_tags(prior), descriptor_tags(descs), i) is Some,
    ensures
        ({
            let j = matched(node_tags(prior), descriptor_tags(descs), i)->0;
            &&& 0 <= j < prior.len()
            &&& new[i].id == prior[j].id
            &&& new[i].hooks == prior[j].hooks
            &&& new[i].children == prior[j].children
            &&& new[i].rendered == prior[j].rendered
        }),
{
    let prior_tags = node_tags(prior);
    let new_tags = descriptor_tags(descs);
    lemma_matched(prior_tags, new_tags, i);
    let j = matched(prior_tags, new_tags, i)->0;
    assert(new[i] == prior[j].adopted(descs[i].key, descs[i].props));
}

/// Hook persistence: however a node evolves, by a render, by a pass that
/// renders it or by one that skips it, the state at each call ordinal keeps
/// its identity. `use_state` hands out the identity at the ordinal of the
/// call, so the same call site of the same node gets the same state in
/// every pass.
pub proof fn lemma_hook_persistence<P, S>(
    node: WidgetNode<P, S>,
    later: WidgetNode<P, S>,
    before: NodeStore,
    after: NodeStore,
    ordinal: int,
)
    requires
        node.evolves_to(later, before, after),
        0 <= ordinal < node.hooks.states@.len(),
    ensures
        ordinal < later.hooks.states@.len(),
        later.hooks.states@[ordinal].id == node.hooks.states@[ordinal].id,
{
    let a = node.hooks.ids();
    let b = later.hooks.ids();
    assert(a.len() <= b.len());
    assert(a[ordinal] == b.subrange(0, a.len() as int)[ordinal]);
}

/// Dirty propagation: overwriting the props raises the change flag; it
/// stands until the node's predicate has run once, and is down from then on
/// until the props are overwritten again. The props themselves stay.
pub proof fn lemma_change_flag_stands_once<P, S>(
    node: WidgetNode<P, S>,
    props: P,
    seen: WidgetNode<P, S>,
    again: WidgetNode<P, S>,
)
    requires
        node.with_props(props).observed_as(seen),
        seen.observed_as(again),
    ensures
        node.with_props(props).changed,
        node.with_props(props).should_update_spec(),
        !seen.changed,
        !seen.should_update_spec(),
        !again.changed,
        !again.should_update_spec(),
        seen.props == props,
        again.props == props,
{
}

/// Dirty propagation over any number of passes: once the props of a node
/// are overwritten, the node is flagged when it is next visited, and at
/// every visit after that one, however many follow, it is not, until the
/// props are overwritten again. `seen[0]` is the node as the first visit
/// finds it, `seen[k]` the node as visit `k` leaves it.
pub proof fn lemma_change_flag_over_passes<P, S>(
    node: WidgetNode<P, S>,
    props: P,
    seen: Seq<WidgetNode<P, S>>,
)
    requires
        seen.len() > 0,
        seen[0] == node.with_props(props),
        forall|k: int| 1 <= k < seen.len() ==> after_visit(seen[k - 1], #[trigger] seen[k]),
    ensures
        seen[0].changed,
        forall|k: int| 1 <= k < seen.len() ==> !(#[trigger] seen[k]).changed && seen[k].props == props,
{
    assert forall|k: int| 1 <= k < seen.len() implies !(#[trigger] seen[k]).changed && seen[k].props
        == props by {
        lemma_props_stay(seen, k);
    }
}

/// Visits leave the props as the first of them found them.
proof fn lemma_props_stay<P, S>(seen: Seq<WidgetNode<P, S>>, k: int)
    requires
        0 <= k < seen.len(),
        forall|j: int| 1 <= j < seen.len() ==> after_visit(seen[j - 1], #[trigger] seen[j]),
    ensures
        seen[k].props == seen[0].props,
        k >= 1 ==> !seen[k].changed,
    decreases k,
{
    if k >= 1 {
        lemma_props_stay(seen, k - 1);
        assert(after_visit(seen[k - 1], seen[k]));
    }
}

} // verus!
