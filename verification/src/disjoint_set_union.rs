//! A partition of the states `0..n`, kept as a forest in which every state
//! points at a state that is not larger than itself.

use std::collections::HashMap;
use vstd::prelude::*;

use crate::state::State;

verus! {

broadcast use vstd::std_specs::hash::group_hash_axioms;

/// Where the parent links lead from `i`: the root of the tree that holds `i`.
pub open spec fn root_of(parent: Seq<State>, i: int) -> int
    decreases i,
{
    if 0 <= i < parent.len() && parent[i] < i {
        root_of(parent, parent[i] as int)
    } else {
        i
    }
}

/// Every state points at itself or at a smaller state.
pub open spec fn links_descend(parent: Seq<State>) -> bool {
    forall|i: int| 0 <= i < parent.len() ==> #[trigger] parent[i] <= i
}

/// The classes that arise from `reps` when the classes of `a` and `b` are joined
/// under the smaller of the two representatives.
pub open spec fn joined(reps: Seq<State>, a: State, b: State) -> Seq<State> {
    let low = if a <= b {
        a
    } else {
        b
    };
    let high = if a <= b {
        b
    } else {
        a
    };
    Seq::new(
        reps.len(),
        |i: int|
            if reps[i] == high {
                low
            } else {
                reps[i]
            },
    )
}

/// The root of a state is a state, is not larger than it, and is its own root.
pub proof fn lemma_root_of(parent: Seq<State>, i: int)
    requires
        links_descend(parent),
        0 <= i < parent.len(),
    ensures
        0 <= root_of(parent, i) <= i,
        parent[root_of(parent, i)] == root_of(parent, i),
        root_of(parent, root_of(parent, i)) == root_of(parent, i),
        (root_of(parent, i) == i) == (parent[i] == i),
    decreases i,
{
    if parent[i] < i {
        lemma_root_of(parent, parent[i] as int);
    }
}

/// Pointing a state at its own root changes no root.
proof fn lemma_compress_keeps_roots(parent: Seq<State>, state: int, i: int)
    requires
        links_descend(parent),
        0 <= state < parent.len(),
        0 <= i < parent.len(),
    ensures
        root_of(parent.update(state, root_of(parent, state) as State), i) == root_of(parent, i),
    decreases i,
{
    let r = root_of(parent, state);
    lemma_root_of(parent, state);
    if i == state {
        if r < state {
            lemma_compress_keeps_roots(parent, state, r);
        }
    } else if parent[i] < i {
        lemma_compress_keeps_roots(parent, state, parent[i] as int);
    }
}

/// Pointing the larger of two roots at the smaller one moves the states of the
/// larger root's tree, and no others, under the smaller root.
proof fn lemma_link_joins_roots(parent: Seq<State>, low: int, high: int, i: int)
    requires
        links_descend(parent),
        0 <= low < high < parent.len(),
        parent[low] == low,
        parent[high] == high,
        0 <= i < parent.len(),
    ensures
        root_of(parent.update(high, low as State), i) == if root_of(parent, i) == high {
            low
        } else {
            root_of(parent, i)
        },
    decreases i,
{
    if i == high {
        lemma_link_joins_roots(parent, low, high, low);
    } else if parent[i] < i {
        lemma_link_joins_roots(parent, low, high, parent[i] as int);
    }
}

/// A partition of the states `0..n` into classes, each with a representative.
///
/// The view gives the representative of every state: `self@[i]` stands for the
/// class of `i`, and is the smallest state that was ever joined into it.
pub struct DSU {
    parent: Vec<State>,
}

impl View for DSU {
    type V = Seq<State>;

    closed spec fn view(&self) -> Seq<State> {
        Seq::new(self.parent@.len(), |i: int| root_of(self.parent@, i) as State)
    }
}

impl DSU {
    /// The links lead downwards, so following them ends.
    pub closed spec fn wf(&self) -> bool {
        links_descend(self.parent@)
    }

    /// The representatives of this partition: the states that stand for themselves.
    pub open spec fn representatives(&self) -> Set<State> {
        Set::new(|r: State| r < self@.len() && self@[r as int] == r)
    }

    /// Every representative is a state, is not larger than the state it stands
    /// for, and stands for itself.
    pub proof fn lemma_representative(&self, i: int)
        requires
            self.wf(),
            0 <= i < self@.len(),
        ensures
            self@[i] <= i,
            self@[self@[i] as int] == self@[i],
    {
        lemma_root_of(self.parent@, i);
        lemma_root_of(self.parent@, root_of(self.parent@, i));
    }

    /// The partition of `0..n` in which every state is alone in its class.
    pub fn new(n: usize) -> (dsu: DSU)
        ensures
            dsu.wf(),
            dsu@.len() == n,
            forall|i: int| 0 <= i < n ==> dsu@[i] == i,
    {
        let mut parent: Vec<State> = Vec::new();
        let mut i: usize = 0;
        while i < n
            invariant
                i <= n,
                parent@.len() == i,
                forall|j: int| 0 <= j < i ==> parent@[j] == j,
            decreases n - i,
        {
            parent.push(i);
            i += 1;
        }
        DSU { parent }
    }

    /// The number of classes.
    pub fn len(&self) -> (count: usize)
        requires
            self.wf(),
        ensures
            self.representatives().finite(),
            count == self.representatives().len(),
    {
        let mut count: usize = 0;
        let mut i: usize = 0;
        let ghost mut seen: Set<State> = Set::empty();
        while i < self.parent.len()
            invariant
                self.wf(),
                i <= self.parent.len(),
                count <= i,
                seen.finite(),
                count == seen.len(),
                forall|r: State| seen.contains(r) <==> r < i && self@[r as int] == r,
            decreases self.parent.len() - i,
        {
            proof {
                lemma_root_of(self.parent@, i as int);
            }
            if self.parent[i] == i {
                count += 1;
                proof {
                    seen = seen.insert(i);
                }
            }
            i += 1;
        }
        assert(seen =~= self.representatives());
        count
    }

    /// The representative of a state, found without changing the forest.
    pub fn representative(&self, state: State) -> (rep: State)
        requires
            self.wf(),
            state < self@.len(),
        ensures
            rep == self@[state as int],
    {
        let mut current = state;
        while self.parent[current] != current
            invariant
                self.wf(),
                current < self.parent@.len(),
                root_of(self.parent@, current as int) == root_of(self.parent@, state as int),
            decreases current,
        {
            current = self.parent[current];
        }
        current
    }

    /// The map that leads every state, moved up by `offset`, to its
    /// representative, moved up by `offset`.
    pub fn state_representative_map(&self, offset: usize) -> (map: HashMap<State, State>)
        requires
            self.wf(),
            self@.len() + offset <= usize::MAX,
        ensures
            forall|k: State| map@.contains_key(k) <==> offset <= k < self@.len() + offset,
            forall|i: int| 0 <= i < self@.len() ==> map@[(i + offset) as State] == self@[i] + offset,
    {
        let mut map: HashMap<State, State> = HashMap::new();
        let mut i: usize = 0;
        while i < self.parent.len()
            invariant
                self.wf(),
                i <= self.parent.len(),
                self@.len() + offset <= usize::MAX,
                forall|k: State| map@.contains_key(k) <==> offset <= k < i + offset,
                forall|j: int| 0 <= j < i ==> map@[(j + offset) as State] == self@[j] + offset,
            decreases self.parent.len() - i,
        {
            let rep = self.representative(i);
            proof {
                self.lemma_representative(i as int);
            }
            map.insert(i + offset, rep + offset);
            i += 1;
        }
        map
    }

    /// The representative of a state. The states on the way to it are pointed
    /// at it directly; the partition stays as it is.
    pub fn find_representative(&mut self, state: State) -> (rep: State)
        requires
            old(self).wf(),
            state < old(self)@.len(),
        ensures
            final(self).wf(),
            final(self)@ == old(self)@,
            rep == old(self)@[state as int],
        decreases state,
    {
        if self.parent[state] == state {
            return state;
        }
        let next = self.parent[state];
        let rep = self.find_representative(next);
        let ghost before = self.parent@;
        proof {
            lemma_root_of(before, state as int);
            lemma_root_of(old(self).parent@, state as int);
            assert(self@[state as int] == old(self)@[state as int]);
        }
        self.parent.set(state, rep);
        proof {
            assert forall|i: int| 0 <= i < before.len() implies #[trigger] self@[i] == old(self)@[i] by {
                lemma_compress_keeps_roots(before, state as int, i);
                assert(root_of(before, i) as State == old(self)@[i]);
            }
        }
        rep
    }

    /// Joins the classes of `u` and `v`. The smaller of the two representatives
    /// stands for the joined class.
    pub fn union(&mut self, u: State, v: State)
        requires
            old(self).wf(),
            u < old(self)@.len(),
            v < old(self)@.len(),
        ensures
            final(self).wf(),
            final(self)@ == joined(old(self)@, old(self)@[u as int], old(self)@[v as int]),
    {
        let u_p = self.find_representative(u);
        let v_p = self.find_representative(v);
        let ghost before = self.parent@;
        proof {
            lemma_root_of(before, u as int);
            lemma_root_of(before, v as int);
            assert(before.len() == self.parent.len());
            assert forall|i: int| 0 <= i < before.len() implies root_of(before, i) as State == (
            #[trigger] old(self)@[i]) && 0 <= root_of(before, i) <= i by {
                lemma_root_of(before, i);
            }
        }
        if u_p == v_p {
            return ;
        }
        if u_p < v_p {
            self.parent.set(v_p, u_p);
            proof {
                assert forall|i: int| 0 <= i < before.len() implies #[trigger] self@[i] == joined(
                    old(self)@,
                    u_p,
                    v_p,
                )[i] by {
                    lemma_link_joins_roots(before, u_p as int, v_p as int, i);
                }
            }
        } else {
            self.parent.set(u_p, v_p);
            proof {
                assert forall|i: int| 0 <= i < before.len() implies #[trigger] self@[i] == joined(
                    old(self)@,
                    u_p,
                    v_p,
                )[i] by {
                    lemma_link_joins_roots(before, v_p as int, u_p as int, i);
                }
            }
        }
    }
}

} // verus!
