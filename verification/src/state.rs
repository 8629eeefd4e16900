//! States and sets of states.

use std::collections::HashSet;
use vstd::prelude::*;
use vstd::set_lib::*;
use vstd::std_specs::iter::IteratorSpec;
use vstd::std_specs::cmp::PartialEqSpecImpl;

verus! {

broadcast use vstd::std_specs::hash::group_hash_axioms;

/// A state of an automaton.
pub type State = usize;

/// The states from `lo` to `hi`, both included.
pub open spec fn state_range(lo: State, hi: State) -> Set<State> {
    Set::new(|s: State| lo <= s <= hi)
}

/// The states of `set`, moved up by `increment`.
pub open spec fn shifted_states(set: Set<State>, increment: usize) -> Set<State> {
    Set::new(|s: State| s >= increment && set.contains((s - increment) as State))
}

/// A sequence of pairwise different states between `lo` and `hi` is no longer
/// than there are such states.
pub proof fn lemma_distinct_states_bounded(s: Seq<State>, lo: State, hi: State)
    requires
        s.no_duplicates(),
        forall|i: int| 0 <= i < s.len() ==> lo <= #[trigger] s[i] <= hi,
    ensures
        s.len() <= hi - lo + 1 || s.len() == 0,
{
    if s.len() > 0 {
        assert(lo <= s[0] <= hi);
        let codes = s.map_values(|x: State| x as int);
        assert(codes.no_duplicates());
        codes.unique_seq_to_set();
        lemma_int_range(lo as int, hi + 1);
        assert(codes.to_set().subset_of(set_int_range(lo as int, hi + 1)));
        lemma_len_subset(codes.to_set(), set_int_range(lo as int, hi + 1));
    }
}

/// There are `hi - lo + 1` states from `lo` to `hi`.
pub proof fn lemma_state_range_finite(lo: State, hi: State)
    requires
        lo <= hi,
    ensures
        state_range(lo, hi).finite(),
        state_range(lo, hi).len() == hi - lo + 1,
    decreases hi - lo,
{
    if lo == hi {
        assert(state_range(lo, hi) =~= set![lo]);
    } else {
        lemma_state_range_finite(lo, (hi - 1) as State);
        assert(state_range(lo, hi) =~= state_range(lo, (hi - 1) as State).insert(hi));
    }
}

/// A sequence of pairwise different states, each of which is in `some` or
/// between `lo` and `hi`, is no longer than these are many together.
pub proof fn lemma_distinct_states_bounded_by(s: Seq<State>, some: Set<State>, lo: State, hi: State)
    requires
        s.no_duplicates(),
        some.finite(),
        lo <= hi,
        forall|i: int| 0 <= i < s.len() ==> some.contains(#[trigger] s[i]) || lo <= s[i] <= hi,
    ensures
        s.len() <= some.len() + (hi - lo + 1),
{
    lemma_state_range_finite(lo, hi);
    let both = some.union(state_range(lo, hi));
    lemma_len_union(some, state_range(lo, hi));
    s.unique_seq_to_set();
    assert(s.to_set().subset_of(both));
    lemma_len_subset(s.to_set(), both);
}

/// What a hash set holds is finite.
pub proof fn lemma_hash_set_finite(set: &HashSet<State>)
    ensures
        set@.finite(),
{
    vstd::std_specs::hash::axiom_spec_hash_keys_iter(set);
    vstd::seq_lib::seq_to_set_is_finite(
        vstd::std_specs::hash::spec_hash_keys_iter(set).remaining().unref(),
    );
}

/// A copy of a set of states.
pub fn copy_states(set: &HashSet<State>) -> (copy: HashSet<State>)
    ensures
        copy@ == set@,
{
    let mut copy: HashSet<State> = HashSet::new();
    for x in it: set.iter()
        invariant
            forall|i: int| 0 <= i < it.index() ==> copy@.contains(*it.seq()[i]),
            forall|y: State| copy@.contains(y) ==> set@.contains(y),
    {
        copy.insert(*x);
    }
    copy
}

/// The states of a set, each once, in some order.
pub fn members(set: &HashSet<State>) -> (list: Vec<State>)
    ensures
        list@.no_duplicates(),
        forall|s: State| set@.contains(s) <==> list@.contains(s),
        list@.to_set() == set@,
{
    let mut list: Vec<State> = Vec::new();
    let mut seen: HashSet<State> = HashSet::new();
    for x in it: set.iter()
        invariant
            list@.no_duplicates(),
            forall|s: State| seen@.contains(s) <==> list@.contains(s),
            forall|i: int| 0 <= i < it.index() ==> seen@.contains(*it.seq()[i]),
            forall|s: State| seen@.contains(s) ==> set@.contains(s),
    {
        if !seen.contains(x) {
            let ghost before = list@;
            seen.insert(*x);
            list.push(*x);
            proof {
                assert forall|s: State| seen@.contains(s) <==> list@.contains(s) by {
                    if before.contains(s) {
                        let j = choose|j: int| 0 <= j < before.len() && before[j] == s;
                        assert(list@[j] == s);
                    }
                    if s == *x {
                        assert(list@[before.len() as int] == s);
                    }
                }
            }
        }
    }
    list
}

/// The first `k + 1` items of a sequence are the first `k` and the next one.
pub proof fn lemma_take_step<A>(s: Seq<A>, k: int)
    requires
        0 <= k < s.len(),
    ensures
        s.take(k + 1).to_set() == s.take(k).to_set().insert(s[k]),
        s.take(0).to_set() == Set::<A>::empty(),
        s.take(s.len() as int) == s,
{
    assert(s.take(k + 1) =~= s.take(k).push(s[k]));
    s.take(k).lemma_push_to_set_commute(s[k]);
}

/// Whether every state of the sequence is smaller than the next.
pub open spec fn ascending(list: Seq<State>) -> bool {
    forall|i: int, j: int| 0 <= i < j < list.len() ==> list[i] < list[j]
}

/// The states of a set in ascending order: the one sequence that stands for
/// the set, whatever the order in which the set hands out its states.
pub fn sorted_members(set: &HashSet<State>) -> (list: Vec<State>)
    ensures
        ascending(list@),
        list@.to_set() == set@,
{
    let found = members(set);
    let mut list: Vec<State> = Vec::new();
    let mut n: usize = 0;
    while n < found.len()
        invariant
            n <= found@.len(),
            found@.no_duplicates(),
            found@.to_set() == set@,
            ascending(list@),
            list@.to_set() == found@.take(n as int).to_set(),
        decreases found.len() - n,
    {
        let state = found[n];
        proof {
            lemma_take_step(found@, n as int);
            // The state is new: the list holds earlier states only.
            if list@.contains(state) {
                assert(found@.take(n as int).to_set().contains(state));
            }
        }
        let mut place: usize = 0;
        while place < list.len() && list[place] < state
            invariant
                place <= list@.len(),
                forall|i: int| 0 <= i < place ==> list@[i] < state,
            decreases list.len() - place,
        {
            place += 1;
        }
        let ghost before = list@;
        list.insert(place, state);
        proof {
            assert(list@.to_set() =~= before.to_set().insert(state)) by {
                assert forall|x: State| list@.to_set().contains(x) <==> before.to_set().insert(
                    state,
                ).contains(x) by {
                    if before.contains(x) {
                        let i = choose|i: int| 0 <= i < before.len() && before[i] == x;
                        if i < place {
                            assert(list@[i] == x);
                        } else {
                            assert(list@[i + 1] == x);
                        }
                    }
                    if x == state {
                        assert(list@[place as int] == x);
                    }
                }
            }
        }
        n += 1;
    }
    assert(found@.take(found@.len() as int) =~= found@);
    list
}

/// Whether two sets hold the same states.
pub fn same_states(a: &HashSet<State>, b: &HashSet<State>) -> (same: bool)
    ensures
        same == (a@ == b@),
{
    if a.len() != b.len() {
        return false;
    }
    for x in it: a.iter()
        invariant
            forall|i: int| 0 <= i < it.index() ==> b@.contains(*it.seq()[i]),
    {
        if !b.contains(x) {
            return false;
        }
    }
    proof {
        lemma_hash_set_finite(a);
        lemma_hash_set_finite(b);
        lemma_subset_equality(a@, b@);
    }
    true
}

/// A set of states that is compared by what it holds.
#[derive(Debug)]
pub struct StateSet(HashSet<State>);

impl View for StateSet {
    type V = Set<State>;

    closed spec fn view(&self) -> Set<State> {
        self.0@
    }
}

impl StateSet {
    pub fn new(set: HashSet<State>) -> (wrapped: StateSet)
        ensures
            wrapped@ == set@,
    {
        StateSet(set)
    }

    pub fn states(&self) -> (set: &HashSet<State>)
        ensures
            set@ == self@,
    {
        &self.0
    }

    /// The states in ascending order. Two sets that hold the same states have
    /// the same such sequence: it can stand for the set as a key.
    pub fn sorted(&self) -> (list: Vec<State>)
        ensures
            ascending(list@),
            list@.to_set() == self@,
    {
        sorted_members(&self.0)
    }
}

/// Two ascending sequences that hold the same states are the same sequence.
pub proof fn lemma_ascending_is_unique(first: Seq<State>, second: Seq<State>)
    requires
        ascending(first),
        ascending(second),
        first.to_set() == second.to_set(),
    ensures
        first == second,
    decreases first.len(),
{
    if first.len() == 0 {
        if second.len() > 0 {
            assert(second.to_set().contains(second[0]));
        }
    } else {
        let top = first.last();
        assert(first.to_set().contains(top));
        let j = choose|j: int| 0 <= j < second.len() && second[j] == top;
        // The largest state of the one is the largest state of the other.
        if j < second.len() - 1 {
            let more = second.last();
            assert(second.to_set().contains(more));
        }
        let less_first = first.drop_last();
        let less_second = second.drop_last();
        assert(less_first.to_set() =~= less_second.to_set()) by {
            assert forall|x: State| less_first.to_set().contains(x) <==> less_second.to_set().contains(
                x,
            ) by {
                if less_first.contains(x) {
                    assert(first.to_set().contains(x));
                    let m = choose|m: int| 0 <= m < second.len() && second[m] == x;
                    assert(less_second[m] == x);
                }
                if less_second.contains(x) {
                    assert(second.to_set().contains(x));
                    let i = choose|i: int| 0 <= i < first.len() && first[i] == x;
                    assert(less_first[i] == x);
                }
            }
        }
        lemma_ascending_is_unique(less_first, less_second);
        assert(first =~= less_first.push(top));
    }
}

impl Clone for StateSet {
    fn clone(&self) -> (copy: StateSet)
        ensures
            copy@ == self@,
    {
        StateSet(copy_states(&self.0))
    }
}

impl PartialEq for StateSet {
    fn eq(&self, other: &StateSet) -> (same: bool) {
        same_states(&self.0, &other.0)
    }
}

impl PartialEqSpecImpl for StateSet {
    open spec fn obeys_eq_spec() -> bool {
        true
    }

    open spec fn eq_spec(&self, other: &StateSet) -> bool {
        self@ == other@
    }
}

impl Eq for StateSet {
}

} // verus!
