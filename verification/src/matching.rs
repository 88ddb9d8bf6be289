//! The matching rule of the reconciler: which previous child, if any, a
//! descriptor is matched with. The rule speaks of tags only, that is of a
//! widget type and an optional key for each child.
//!
//! Keys come first. The descriptors with a key are served in order: each
//! takes the first previous child with its widget type and its key that no
//! earlier descriptor has claimed, wherever that child stands. A descriptor
//! without a key is matched by position: it takes the previous child at its
//! own position, if that child has its widget type and no descriptor with a
//! key has claimed it.

use vstd::prelude::*;

verus! {

/// Whether the previous child at index `j` can be claimed by a descriptor
/// with the tag `tag`, which holds a key: the child carries the same widget
/// type and the same key, and no earlier descriptor has claimed it.
pub open spec fn candidate(
    prior: Seq<(u64, Option<u64>)>,
    claimed: Set<int>,
    tag: (u64, Option<u64>),
    j: int,
) -> bool {
    &&& 0 <= j < prior.len()
    &&& prior[j] == tag
    &&& !claimed.contains(j)
}

/// The first candidate at or after `from`.
pub open spec fn first_candidate(
    prior: Seq<(u64, Option<u64>)>,
    claimed: Set<int>,
    tag: (u64, Option<u64>),
    from: int,
) -> Option<int>
    decreases prior.len() - from,
{
    if from >= prior.len() {
        None
    } else if candidate(prior, claimed, tag, from) {
        Some(from)
    } else {
        first_candidate(prior, claimed, tag, from + 1)
    }
}

/// The previous children that the descriptors with a key among the first
/// `i` have claimed.
pub open spec fn claimed_before(
    prior: Seq<(u64, Option<u64>)>,
    new: Seq<(u64, Option<u64>)>,
    i: int,
) -> Set<int>
    decreases i,
{
    if i <= 0 {
        Set::empty()
    } else {
        let before = claimed_before(prior, new, i - 1);
        if new[i - 1].1 is Some {
            match first_candidate(prior, before, new[i - 1], 0) {
                Some(j) => before.insert(j),
                None => before,
            }
        } else {
            before
        }
    }
}

/// The previous children that the descriptors with a key have claimed.
pub open spec fn claimed(prior: Seq<(u64, Option<u64>)>, new: Seq<(u64, Option<u64>)>) -> Set<int> {
    claimed_before(prior, new, new.len() as int)
}

/// The previous child that descriptor `i` is matched with, if any.
pub open spec fn matched(
    prior: Seq<(u64, Option<u64>)>,
    new: Seq<(u64, Option<u64>)>,
    i: int,
) -> Option<int> {
    if new[i].1 is Some {
        first_candidate(prior, claimed_before(prior, new, i), new[i], 0)
    } else if 0 <= i < prior.len() && prior[i].0 == new[i].0 && !claimed(prior, new).contains(i) {
        Some(i)
    } else {
        None
    }
}

/// Whether some descriptor is matched with the previous child at index `j`.
pub open spec fn taken(
    prior: Seq<(u64, Option<u64>)>,
    new: Seq<(u64, Option<u64>)>,
    j: int,
) -> bool {
    exists|i: int| 0 <= i < new.len() && #[trigger] matched(prior, new, i) == Some(j)
}

/// `first_candidate` returns the least candidate at or after `from`.
pub proof fn lemma_first_candidate(
    prior: Seq<(u64, Option<u64>)>,
    claimed: Set<int>,
    tag: (u64, Option<u64>),
    from: int,
)
    requires
        0 <= from,
    ensures
        match first_candidate(prior, claimed, tag, from) {
            Some(j) => from <= j && candidate(prior, claimed, tag, j) && forall|k: int|
                from <= k < j ==> !candidate(prior, claimed, tag, k),
            None => forall|k: int| from <= k ==> !candidate(prior, claimed, tag, k),
        },
    decreases prior.len() - from,
{
    if from < prior.len() && !candidate(prior, claimed, tag, from) {
        lemma_first_candidate(prior, claimed, tag, from + 1);
    }
}

/// What earlier descriptors have claimed stays claimed, only previous
/// children are claimed, and what a descriptor with a key is matched with
/// is claimed right after it.
pub proof fn lemma_claimed_grows(
    prior: Seq<(u64, Option<u64>)>,
    new: Seq<(u64, Option<u64>)>,
    i: int,
    k: int,
)
    requires
        0 <= i <= k,
    ensures
        claimed_before(prior, new, i).subset_of(claimed_before(prior, new, k)),
        forall|j: int| claimed_before(prior, new, k).contains(j) ==> 0 <= j < prior.len(),
        i < k && new[i].1 is Some ==> match matched(prior, new, i) {
            Some(j) => claimed_before(prior, new, k).contains(j) && !claimed_before(
                prior,
                new,
                i,
            ).contains(j),
            None => true,
        },
    decreases k,
{
    if k > 0 {
        let before = claimed_before(prior, new, k - 1);
        lemma_first_candidate(prior, before, new[k - 1], 0);
        if i < k {
            lemma_claimed_grows(prior, new, i, k - 1);
            lemma_first_candidate(prior, claimed_before(prior, new, i), new[i], 0);
        } else {
            lemma_claimed_grows(prior, new, k - 1, k - 1);
        }
    }
}

/// Whatever was claimed, a descriptor with a key is matched with.
pub proof fn lemma_claimed_has_match(
    prior: Seq<(u64, Option<u64>)>,
    new: Seq<(u64, Option<u64>)>,
    k: int,
    j: int,
)
    requires
        0 <= k,
        claimed_before(prior, new, k).contains(j),
    ensures
        exists|i: int|
            0 <= i < k && new[i].1 is Some && #[trigger] matched(prior, new, i) == Some(j),
    decreases k,
{
    if k > 0 {
        if claimed_before(prior, new, k - 1).contains(j) {
            lemma_claimed_has_match(prior, new, k - 1, j);
            let i = choose|i: int|
                0 <= i < k - 1 && new[i].1 is Some && #[trigger] matched(prior, new, i) == Some(j);
            assert(0 <= i < k && new[i].1 is Some && matched(prior, new, i) == Some(j));
        } else {
            assert(new[k - 1].1 is Some && matched(prior, new, k - 1) == Some(j));
        }
    }
}

/// What a descriptor is matched with: a previous child of its widget
/// type; with a key, one that carries its key; without, the one at its
/// position.
pub proof fn lemma_matched(prior: Seq<(u64, Option<u64>)>, new: Seq<(u64, Option<u64>)>, i: int)
    requires
        0 <= i < new.len(),
    ensures
        match matched(prior, new, i) {
            Some(j) => {
                &&& 0 <= j < prior.len()
                &&& prior[j].0 == new[i].0
                &&& new[i].1 is Some ==> prior[j] == new[i] && claimed(prior, new).contains(j)
                &&& new[i].1 is None ==> j == i && !claimed(prior, new).contains(j)
                &&& taken(prior, new, j)
            },
            None => true,
        },
{
    if new[i].1 is Some {
        lemma_first_candidate(prior, claimed_before(prior, new, i), new[i], 0);
        lemma_claimed_grows(prior, new, i, new.len() as int);
    }
}

/// Two descriptors are never matched with the same previous child.
pub proof fn lemma_matched_injective(
    prior: Seq<(u64, Option<u64>)>,
    new: Seq<(u64, Option<u64>)>,
    a: int,
    b: int,
)
    requires
        0 <= a < b < new.len(),
    ensures
        matched(prior, new, a) is Some ==> matched(prior, new, a) != matched(prior, new, b),
{
    lemma_matched(prior, new, a);
    lemma_matched(prior, new, b);
    if new[a].1 is Some && new[b].1 is Some {
        lemma_claimed_grows(prior, new, a, b);
        lemma_first_candidate(prior, claimed_before(prior, new, b), new[b], 0);
    }
}

/// A previous child that no descriptor with a key has claimed is taken
/// only by the descriptor at its position.
pub proof fn lemma_taken(prior: Seq<(u64, Option<u64>)>, new: Seq<(u64, Option<u64>)>, j: int)
    requires
        taken(prior, new, j),
    ensures
        0 <= j < prior.len(),
        claimed(prior, new).contains(j) || (j < new.len() && new[j].1 is None && matched(
            prior,
            new,
            j,
        ) == Some(j)),
{
    let i = choose|i: int| 0 <= i < new.len() && #[trigger] matched(prior, new, i) == Some(j);
    lemma_matched(prior, new, i);
}

} // verus!
