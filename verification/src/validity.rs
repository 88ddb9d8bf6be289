//! Tests of what the functions of this crate require of a tree: that no
//! identity occurs twice in it, and that all of it lives in the store. A
//! caller that cannot know either calls these first.

use crate::hooks::HookHelper;
use crate::node::WidgetNode;
use crate::runner::WoodpeckerContext;
use crate::store::NodeStore;
use vstd::prelude::*;

verus! {

impl<S> HookHelper<S> {
    /// Whether the registry is well formed.
    pub fn is_well_formed(&self) -> (wf: bool)
        ensures
            wf == self.wf(),
    {
        if self.cursor > self.states.len() {
            return false;
        }
        let mut b: usize = 0;
        while b < self.states.len()
            invariant
                b <= self.states@.len(),
                forall|i: int, j: int|
                    0 <= i < j < b ==> (#[trigger] self.states@[i]).id != (
                    #[trigger] self.states@[j]).id,
            decreases self.states@.len() - b,
        {
            let mut a: usize = 0;
            while a < b
                invariant
                    a <= b < self.states@.len(),
                    forall|i: int|
                        0 <= i < a ==> (#[trigger] self.states@[i]).id != self.states@[b as int].id,
                decreases b - a,
            {
                if self.states[a].id == self.states[b].id {
                    return false;
                }
                a += 1;
            }
            b += 1;
        }
        true
    }
}

impl<P, S> WidgetNode<P, S> {
    /// Whether `x` is the identity of this node, of one of its states, or
    /// of a node or a state anywhere below it.
    pub fn owns_entity(&self, x: u64) -> (owned: bool)
        ensures
            owned == self.owns(x),
        decreases self,
    {
        if self.id == x || self.hooks.position(x).is_some() {
            return true;
        }
        let mut i: usize = 0;
        while i < self.children.len()
            invariant
                i <= self.children@.len(),
                self.id != x,
                !self.hooks.owns(x),
                forall|j: int| 0 <= j < i ==> !(#[trigger] self.children@[j]).owns(x),
            decreases self.children@.len() - i,
        {
            if self.children[i].owns_entity(x) {
                return true;
            }
            i += 1;
        }
        false
    }

    /// The identities of this node, of its states, and of the nodes and
    /// states below it.
    pub fn entities(&self) -> (all: Vec<u64>)
        ensures
            forall|x: u64| all@.contains(x) <==> self.owns(x),
        decreases self,
    {
        let mut all: Vec<u64> = Vec::new();
        all.push(self.id);
        proof {
            assert forall|x: u64| all@.contains(x) <==> x == self.id by {
                lemma_push_contains(Seq::<u64>::empty(), self.id, x);
            }
        }
        let mut k: usize = 0;
        while k < self.hooks.states.len()
            invariant
                k <= self.hooks.states@.len(),
                forall|x: u64|
                    all@.contains(x) <==> x == self.id || exists|j: int|
                        0 <= j < k && (#[trigger] self.hooks.states@[j]).id == x,
            decreases self.hooks.states@.len() - k,
        {
            let ghost before = all@;
            all.push(self.hooks.states[k].id);
            proof {
                assert forall|x: u64|
                    all@.contains(x) <==> x == self.id || exists|j: int|
                        0 <= j < k + 1 && (#[trigger] self.hooks.states@[j]).id == x by {
                    lemma_push_contains(before, self.hooks.states@[k as int].id, x);
                }
            }
            k += 1;
        }
        let mut i: usize = 0;
        while i < self.children.len()
            invariant
                i <= self.children@.len(),
                forall|x: u64|
                    all@.contains(x) <==> x == self.id || self.hooks.owns(x) || exists|j: int|
                        0 <= j < i && (#[trigger] self.children@[j]).owns(x),
            decreases self.children@.len() - i,
        {
            let below = self.children[i].entities();
            let mut m: usize = 0;
            while m < below.len()
                invariant
                    m <= below@.len(),
                    i < self.children@.len(),
                    forall|x: u64| below@.contains(x) <==> self.children@[i as int].owns(x),
                    forall|x: u64|
                        all@.contains(x) <==> x == self.id || self.hooks.owns(x) || (exists|j: int|
                            0 <= j < i && (#[trigger] self.children@[j]).owns(x)) || exists|n: int|
                            0 <= n < m && below@[n] == x,
                decreases below@.len() - m,
            {
                let ghost before = all@;
                all.push(below[m]);
                proof {
                    assert forall|x: u64|
                        all@.contains(x) <==> x == self.id || self.hooks.owns(x) || (exists|j: int|
                            0 <= j < i && (#[trigger] self.children@[j]).owns(x)) || exists|n: int|
                            0 <= n < m + 1 && below@[n] == x by {
                        lemma_push_contains(before, below@[m as int], x);
                        if below@[m as int] == x {
                            assert(0 <= m < m + 1 && below@[m as int] == x);
                        }
                    }
                }
                m += 1;
            }
            proof {
                assert forall|x: u64|
                    all@.contains(x) <==> x == self.id || self.hooks.owns(x) || exists|j: int|
                        0 <= j < i + 1 && (#[trigger] self.children@[j]).owns(x) by {
                    if exists|n: int| 0 <= n < below@.len() && below@[n] == x {
                        let n = choose|n: int| 0 <= n < below@.len() && below@[n] == x;
                        assert(below@.contains(x));
                        assert(self.children@[i as int].owns(x));
                    }
                    if self.children@[i as int].owns(x) {
                        assert(below@.contains(x));
                        let n = choose|n: int| 0 <= n < below@.len() && below@[n] == x;
                        assert(0 <= n < m && below@[n] == x);
                    }
                }
            }
            i += 1;
        }
        all
    }

    /// Whether no identity occurs twice in the tree below and including
    /// this node.
    pub fn is_well_formed(&self) -> (wf: bool)
        ensures
            wf == self.wf(),
        decreases self,
    {
        if !self.hooks.is_well_formed() || self.hooks.position(self.id).is_some() {
            return false;
        }
        let mut j: usize = 0;
        while j < self.children.len()
            invariant
                j <= self.children@.len(),
                self.hooks.wf(),
                !self.hooks.owns(self.id),
                forall|i: int| 0 <= i < j ==> (#[trigger] self.children@[i]).wf(),
                forall|i: int| 0 <= i < j ==> !(#[trigger] self.children@[i]).owns(self.id),
                forall|i: int, x: u64|
                    0 <= i < j && (#[trigger] self.children@[i].owns(x)) ==> !self.hooks.owns(x),
                forall|a: int, b: int, x: u64|
                    0 <= a < b < j && (#[trigger] self.children@[a].owns(x)) ==> !(
                    #[trigger] self.children@[b].owns(x)),
            decreases self.children@.len() - j,
        {
            let child = &self.children[j];
            if !child.is_well_formed() {
                return false;
            }
            let below = child.entities();
            let mut m: usize = 0;
            while m < below.len()
                invariant
                    m <= below@.len(),
                    j < self.children@.len(),
                    *child == self.children@[j as int],
                    self.hooks.wf(),
                    !self.hooks.owns(self.id),
                    forall|x: u64| below@.contains(x) <==> child.owns(x),
                    forall|n: int|
                        0 <= n < m ==> {
                            &&& (#[trigger] below@[n]) != self.id
                            &&& !self.hooks.owns(below@[n])
                            &&& forall|a: int|
                                0 <= a < j ==> !(#[trigger] self.children@[a]).owns(below@[n])
                        },
                decreases below@.len() - m,
            {
                let x: u64 = below[m];
                assert(below@.contains(x));
                if x == self.id || self.hooks.position(x).is_some() {
                    assert(self.children@[j as int].owns(x));
                    return false;
                }
                let mut a: usize = 0;
                while a < j
                    invariant
                        a <= j < self.children@.len(),
                        self.children@[j as int].owns(x),
                        forall|i: int| 0 <= i < a ==> !(#[trigger] self.children@[i]).owns(x),
                    decreases j - a,
                {
                    if self.children[a].owns_entity(x) {
                        assert(self.children@[a as int].owns(x));
                        return false;
                    }
                    a += 1;
                }
                m += 1;
            }
            proof {
                assert forall|x: u64| #[trigger] self.children@[j as int].owns(x) implies x != self.id
                    && !self.hooks.owns(x) && forall|a: int|
                    0 <= a < j ==> !(#[trigger] self.children@[a]).owns(x) by {
                    assert(below@.contains(x));
                    let n = choose|n: int| 0 <= n < below@.len() && below@[n] == x;
                    assert(below@[n] == x);
                }
            }
            j += 1;
        }
        true
    }

    /// Whether everything that this node owns is an entity of `store`.
    pub fn is_alive_in(&self, store: &NodeStore) -> (alive: bool)
        ensures
            alive == self.alive_in(*store),
    {
        let all = self.entities();
        let mut m: usize = 0;
        while m < all.len()
            invariant
                m <= all@.len(),
                forall|x: u64| all@.contains(x) <==> self.owns(x),
                forall|n: int| 0 <= n < m ==> store.live().contains(#[trigger] all@[n]),
            decreases all@.len() - m,
        {
            if !store.contains(all[m]) {
                assert(all@.contains(all@[m as int]));
                assert(self.owns(all@[m as int]));
                return false;
            }
            m += 1;
        }
        proof {
            assert forall|x: u64| #[trigger] self.owns(x) implies store.live().contains(
                x,
            ) by {
                assert(all@.contains(x));
                let n = choose|n: int| 0 <= n < all@.len() && all@[n] == x;
                assert(store.live().contains(all@[n]));
            }
        }
        true
    }
}

impl<P, S> WoodpeckerContext<P, S> {
    /// Whether the tree is well formed and lives in `store`: what `run`
    /// requires.
    pub fn is_valid(&self, store: &NodeStore) -> (valid: bool)
        ensures
            valid == self.wf(*store),
    {
        match &self.root_widget {
            Some(root) => root.is_well_formed() && root.is_alive_in(store),
            None => true,
        }
    }
}

/// What a sequence contains after a push.
proof fn lemma_push_contains(s: Seq<u64>, pushed: u64, x: u64)
    ensures
        s.push(pushed).contains(x) <==> s.contains(x) || pushed == x,
{
    if s.contains(x) {
        let n = choose|n: int| 0 <= n < s.len() && s[n] == x;
        assert(s.push(pushed)[n] == x);
    }
    if pushed == x {
        assert(s.push(pushed)[s.len() as int] == x);
    }
    if s.push(pushed).contains(x) {
        let n = choose|n: int| 0 <= n < s.push(pushed).len() && s.push(pushed)[n] == x;
        if n < s.len() {
            assert(s[n] == x);
        }
    }
}

} // verus!
