//! The census of a cell: how many of its neighbours are in each state.

use vstd::prelude::*;
use vstd::hash_map::StringHashMap;
use vstd::multiset::axiom_count_le_len;
use vstd::seq_lib::{to_multiset_build, to_multiset_len};

verus! {

/// A tally of neighbours by the name of their state. A state that no
/// neighbour is in has no entry.
pub struct Census {
    counts: StringHashMap<usize>,
}

/// The count that a tally gives for a state: its entry, or 0 where it has none.
pub open spec fn count_of(tally: Map<Seq<char>, usize>, state: Seq<char>) -> nat {
    if tally.contains_key(state) {
        tally[state] as nat
    } else {
        0
    }
}

/// The tally of a list of states: each state that occurs in the list, with
/// the number of times it occurs.
pub open spec fn tally(states: Seq<Seq<char>>) -> Map<Seq<char>, usize> {
    Map::new(
        |state: Seq<char>| states.to_multiset().count(state) > 0,
        |state: Seq<char>| states.to_multiset().count(state) as usize,
    )
}

/// The tally of no states has no entry.
pub proof fn lemma_tally_empty()
    ensures
        tally(Seq::<Seq<char>>::empty()) == Map::<Seq<char>, usize>::empty(),
{
    broadcast use {to_multiset_len, axiom_count_le_len};

    let none = Seq::<Seq<char>>::empty();
    assert forall|state: Seq<char>| none.to_multiset().count(state) == 0 by {
        assert(none.to_multiset().count(state) <= none.to_multiset().len());
    }
    assert(tally(none) =~= Map::<Seq<char>, usize>::empty());
}

/// The tally of a list with one state more counts that state once more, and
/// the others as before.
pub proof fn lemma_tally_push(states: Seq<Seq<char>>, state: Seq<char>)
    requires
        states.len() < usize::MAX,
    ensures
        count_of(tally(states), state) < usize::MAX,
        tally(states.push(state)) == tally(states).insert(
            state,
            (count_of(tally(states), state) + 1) as usize,
        ),
{
    broadcast use {to_multiset_build, to_multiset_len, axiom_count_le_len};

    let longer = states.push(state);
    assert(longer.to_multiset() =~= states.to_multiset().insert(state));
    assert(states.to_multiset().count(state) <= states.to_multiset().len());
    assert(tally(longer) =~= tally(states).insert(
        state,
        (count_of(tally(states), state) + 1) as usize,
    )) by {
        assert forall|other: Seq<char>|
            longer.to_multiset().count(other) == states.to_multiset().count(other) + (if other
                == state {
                1nat
            } else {
                0nat
            }) by {
            assert(states.to_multiset().count(other) <= states.to_multiset().len());
        }
    }
}

impl View for Census {
    type V = Map<Seq<char>, usize>;

    closed spec fn view(&self) -> Map<Seq<char>, usize> {
        self.counts@
    }
}

impl Census {
    /// A census without neighbours.
    pub fn new() -> (census: Census)
        ensures
            census@ == Map::<Seq<char>, usize>::empty(),
    {
        Census { counts: StringHashMap::new() }
    }

    /// Sets the count of `state`.
    pub fn insert(&mut self, state: String, count: usize)
        ensures
            final(self)@ == old(self)@.insert(state@, count),
    {
        self.counts.insert(state, count);
    }

    /// The count of `state`: 0 where the census has no entry for it.
    pub fn count(&self, state: &str) -> (count: usize)
        ensures
            count == count_of(self@, state@),
    {
        match self.counts.get(state) {
            Some(count) => *count,
            None => 0,
        }
    }

    /// Counts one more neighbour in `state`.
    pub fn record(&mut self, state: &str)
        requires
            count_of(old(self)@, state@) < usize::MAX,
        ensures
            final(self)@ == old(self)@.insert(state@, (count_of(old(self)@, state@) + 1) as usize),
    {
        let count = self.count(state);
        self.counts.insert(state.to_owned(), count + 1);
    }
}

} // verus!
