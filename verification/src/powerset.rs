//! How many sets of states there can be.

use vstd::prelude::*;
use vstd::set_lib::*;

use crate::state::State;

verus! {

/// The sets that hold states of `base` only.
pub open spec fn subsets_of(base: Set<State>) -> Set<Set<State>> {
    Set::new(|s: Set<State>| s.subset_of(base))
}

/// A finite set has finitely many subsets.
pub proof fn lemma_subsets_finite(base: Set<State>)
    requires
        base.finite(),
    ensures
        subsets_of(base).finite(),
    decreases base.len(),
{
    if base.len() == 0 {
        assert(subsets_of(base) =~= set![Set::<State>::empty()]) by {
            assert forall|s: Set<State>| subsets_of(base).contains(s) implies s == Set::<
                State,
            >::empty() by {}
        }
    } else {
        let a = base.choose();
        let rest = base.remove(a);
        lemma_subsets_finite(rest);
        let without = subsets_of(rest);
        let with = without.map(|s: Set<State>| s.insert(a));
        without.lemma_map_finite(|s: Set<State>| s.insert(a));
        assert(subsets_of(base) =~= without.union(with)) by {
            assert forall|s: Set<State>| subsets_of(base).contains(s) implies without.union(
                with,
            ).contains(s) by {
                if s.contains(a) {
                    let smaller = s.remove(a);
                    assert(without.contains(smaller));
                }
            }
        }
    }
}

/// A sequence of pairwise different sets of states of `base` is no longer
/// than there are subsets of `base`.
pub proof fn lemma_distinct_subsets_bounded(sets: Seq<Set<State>>, base: Set<State>)
    requires
        base.finite(),
        sets.no_duplicates(),
        forall|i: int| 0 <= i < sets.len() ==> (#[trigger] sets[i]).subset_of(base),
    ensures
        subsets_of(base).finite(),
        sets.len() <= subsets_of(base).len(),
{
    lemma_subsets_finite(base);
    sets.unique_seq_to_set();
    assert(sets.to_set().subset_of(subsets_of(base)));
    lemma_len_subset(sets.to_set(), subsets_of(base));
}

} // verus!
