//! The depth-first walk over all assignments.

use vstd::prelude::*;
use crate::count::num_states;
use crate::laws::{lemma_enumeration_count, lemma_enumeration_keeps_items};
use crate::model::{
    all_items, enumeration, initial, is_items, lemma_shift_back, lemma_shift_on, shifted, visits,
    visits_from, Bags,
};
use crate::state::State;

verus! {

/// What a list of recorded states holds, state by state.
pub open spec fn snapshots(states: Seq<State>) -> Seq<Bags> {
    Seq::new(states.len(), |j: int| states[j]@)
}

/// What one call of `solve` on assignment `s` adds to a result list that held
/// `recorded` states before: `s` itself where the list was empty, then
/// everything the walk records below `s`.
pub open spec fn additions(recorded: nat, s: Bags) -> Seq<Bags> {
    if recorded == 0 {
        seq![s] + visits(s)
    } else {
        visits(s)
    }
}

/// Whether `counter` cannot overflow in a call of `solve` on `s` with
/// `recorded` states in the list. Either it does not run ahead of the list
/// once the list is seeded, and then it fits in a `usize` as long as the
/// length of the list does; or it leaves room for all that the walk counts.
pub open spec fn counter_has_room(counter: usize, recorded: nat, s: Bags) -> bool {
    ||| counter <= (if recorded == 0 { 1 } else { recorded })
    ||| counter + visits(s).len() <= usize::MAX
}

/// The rule that decides whether a configuration is recorded. Every
/// configuration passes; a rule of the caller's would take this place.
pub fn is_constrain_satisfied(state: &State) -> (satisfied: bool)
    ensures
        satisfied,
{
    true
}

/// Walks every assignment that can be reached from `curr_state` by moving
/// the last package of the first bag to a later bag, appends a snapshot of
/// each to `all_states`, counts it in `counter`, and leaves `curr_state` as
/// it found it. An empty `all_states` is first seeded with `curr_state`.
pub fn solve(counter: &mut usize, curr_state: &mut State, all_states: &mut Vec<State>)
    requires
        old(curr_state).wf(),
        old(curr_state)@.len() >= 1,
        counter_has_room(*old(counter), old(all_states)@.len(), old(curr_state)@),
    ensures
        final(curr_state).wf(),
        final(curr_state)@ == old(curr_state)@,
        snapshots(final(all_states)@) == snapshots(old(all_states)@) + additions(
            old(all_states)@.len(),
            old(curr_state)@,
        ),
        forall|j: int|
            old(all_states)@.len() <= j < final(all_states)@.len()
                ==> (#[trigger] final(all_states)@[j]).wf(),
        forall|j: int|
            0 <= j < old(all_states)@.len() ==> final(all_states)@[j] == old(all_states)@[j],
        *final(counter) == *old(counter) + visits(old(curr_state)@).len(),
    decreases old(curr_state)@[0].len(),
{
    let ghost start = curr_state@;
    let ghost base = snapshots(all_states@) + additions(all_states@.len(), start);
    if all_states.len() == 0 {
        all_states.push(curr_state.clone_it());
    }
    assert(snapshots(all_states@) + visits(start) =~= base);

    // Nothing is left to move out of the first bag.
    if curr_state.first_bag_is_empty() {
        assert(snapshots(all_states@) =~= base);
        return;
    }
    let num_bags = curr_state.num_bags();
    let mut end_pos: usize = 0;
    for i in 1..num_bags
        invariant
            start == old(curr_state)@,
            num_bags == start.len(),
            num_bags >= 1,
            start[0].len() > 0,
            curr_state.wf(),
            end_pos == i - 1,
            curr_state@ == (if i == 1 { start } else { shifted(start, 0, i - 1) }),
            snapshots(all_states@) + visits_from(start, i as int) == base,
            all_states@.len() >= 1,
            all_states@.len() >= old(all_states)@.len(),
            forall|j: int|
                old(all_states)@.len() <= j < all_states@.len()
                    ==> (#[trigger] all_states@[j]).wf(),
            forall|j: int|
                0 <= j < old(all_states)@.len() ==> all_states@[j] == old(all_states)@[j],
            *counter <= all_states@.len() || *counter + visits_from(start, i as int).len()
                <= usize::MAX,
            *counter + visits_from(start, i as int).len() == *old(counter) + visits(start).len(),
    {
        let start_pos = i - 1;
        end_pos = i;
        proof {
            if i > 1 {
                lemma_shift_on(start, 0, i - 1, i as int);
            }
        }
        curr_state.shift_last_from_bags(start_pos, end_pos);
        let ghost child = shifted(start, 0, i as int);
        assert(curr_state@ == child);
        let ghost seen = snapshots(all_states@);
        if is_constrain_satisfied(curr_state) {
            all_states.push(curr_state.clone_it());
            assert(all_states@.len() == all_states.len());
            *counter += 1_usize;
        }
        assert(snapshots(all_states@) =~= seen + seq![child]);
        let ghost recorded = all_states@.len();
        solve(counter, curr_state, all_states);
        assert(snapshots(all_states@).len() == recorded + visits(child).len());
        assert(snapshots(all_states@) + visits_from(start, i + 1) =~= seen + visits_from(
            start,
            i as int,
        ));
    }
    // Take the package back from the last bag it reached.
    if end_pos != 0 {
        proof {
            lemma_shift_back(start, 0, end_pos as int);
        }
        curr_state.shift_last_from_bags(end_pos, 0);
    }
}

/// Enumerates the assignments of the packages in `list_packages` to
/// `num_bags` bags: the first holds every package in bag 0, and the walk of
/// `solve` gives the rest. Returns the number of assignments counted on the
/// way and the assignments in the order in which they were recorded.
pub fn generate_all_states(list_packages: Vec<char>, num_bags: usize) -> (found: (
    usize,
    Vec<State>,
))
    requires
        num_bags >= 1,
        is_items(list_packages@),
    ensures
        snapshots(found.1@) == enumeration(list_packages@, num_bags as nat),
        found.0 == found.1@.len(),
        found.1@.len() == num_states(list_packages@.len(), num_bags as nat),
        forall|j: int| 0 <= j < found.1@.len() ==> (#[trigger] found.1@[j]).wf(),
        forall|j: int| 0 <= j < found.1@.len() ==> (#[trigger] found.1@[j])@.len() == num_bags,
        forall|j: int|
            0 <= j < found.1@.len() ==> all_items((#[trigger] found.1@[j])@)
                == list_packages@.to_multiset(),
{
    let ghost items = list_packages@;
    let mut all_states: Vec<State> = Vec::new();
    // The first state has every package in the first bag.
    let mut curr_state = State::new(num_bags);
    curr_state.set_bag(0, list_packages);
    assert(curr_state@ =~= initial(items, num_bags as nat));
    let mut counter: usize = 1;
    solve(&mut counter, &mut curr_state, &mut all_states);
    proof {
        let found = snapshots(all_states@);
        assert(snapshots(Seq::<State>::empty()) =~= Seq::<Bags>::empty());
        assert(found =~= enumeration(items, num_bags as nat));
        lemma_enumeration_count(items, num_bags as nat);
        assert forall|j: int| 0 <= j < all_states@.len() implies {
            &&& (#[trigger] all_states@[j])@.len() == num_bags
            &&& all_items(all_states@[j]@) == items.to_multiset()
        } by {
            lemma_enumeration_keeps_items(items, num_bags as nat, j);
            assert(found[j] == all_states@[j]@);
        }
    }
    (counter, all_states)
}

} // verus!
