//! What holds of the enumeration as a whole: how many assignments it
//! records, that none of them gains or loses an item, and what it does at the
//! edges.

use vstd::prelude::*;
use crate::count::{lemma_power_sum_unfold, num_states, power_sum};
use crate::items::{lemma_initial_items, lemma_shift_keeps_items};
use crate::model::{all_items, enumeration, initial, shifted, visits, visits_from, Bags};
use crate::solver::snapshots;
use crate::state::State;

verus! {

/// Every assignment recorded below `s` has the bags of `s` and, over all
/// bags together, the items of `s`: none is lost and none is added.
pub proof fn lemma_visits_keep_items(s: Bags, j: int)
    requires
        0 <= j < visits(s).len(),
    ensures
        visits(s)[j].len() == s.len(),
        all_items(visits(s)[j]) == all_items(s),
    decreases s[0].len(), s.len() + 1,
{
    lemma_visits_from_keep_items(s, 1, j);
}

/// The same of the part of the walk that belongs to the targets from `end`
/// on.
pub proof fn lemma_visits_from_keep_items(s: Bags, end: int, j: int)
    requires
        0 <= j < visits_from(s, end).len(),
    ensures
        visits_from(s, end)[j].len() == s.len(),
        all_items(visits_from(s, end)[j]) == all_items(s),
    decreases s[0].len(), s.len() - end,
{
    let child = shifted(s, 0, end);
    lemma_shift_keeps_items(s, 0, end);
    let below = visits(child);
    if j == 0 {
    } else if j <= below.len() {
        lemma_visits_keep_items(child, j - 1);
    } else {
        lemma_visits_from_keep_items(s, end + 1, j - 1 - below.len());
    }
}

/// The walk below `s` records one assignment less than the closed form
/// gives for the items of bag 0 and the bags of `s`.
pub proof fn lemma_visits_count(s: Bags)
    requires
        s.len() >= 1,
    ensures
        visits(s).len() + 1 == num_states(s[0].len(), s.len()),
    decreases s[0].len(), s.len() + 1,
{
    if s[0].len() > 0 {
        lemma_visits_from_count(s, 1);
        lemma_power_sum_unfold(s.len() - 1, s[0].len());
    }
}

proof fn lemma_visits_from_count(s: Bags, end: int)
    requires
        s.len() >= 1,
        s[0].len() >= 1,
        1 <= end <= s.len(),
    ensures
        visits_from(s, end).len() == (s.len() - end) * power_sum(
            s.len() - 1,
            (s[0].len() - 1) as nat,
        ),
    decreases s[0].len(), s.len() - end,
{
    let each = power_sum(s.len() - 1, (s[0].len() - 1) as nat);
    if end < s.len() {
        let child = shifted(s, 0, end);
        lemma_visits_count(child);
        lemma_visits_from_count(s, end + 1);
        assert(each + (s.len() - (end + 1)) * each == (s.len() - end) * each)
            by (nonlinear_arith);
    } else {
        assert(0 * each == 0);
    }
}

/// The enumeration records as many assignments as the closed form gives:
/// the sum of `(num_bags - 1)^p` for `p` from 0 to the number of items.
pub proof fn lemma_enumeration_count(items: Seq<char>, num_bags: nat)
    requires
        num_bags >= 1,
    ensures
        enumeration(items, num_bags).len() == num_states(items.len(), num_bags),
{
    lemma_visits_count(initial(items, num_bags));
}

/// Every assignment that the enumeration records has `num_bags` bags and
/// holds the given items, each as often as it was given.
pub proof fn lemma_enumeration_keeps_items(items: Seq<char>, num_bags: nat, j: int)
    requires
        num_bags >= 1,
        0 <= j < enumeration(items, num_bags).len(),
    ensures
        enumeration(items, num_bags)[j].len() == num_bags,
        all_items(enumeration(items, num_bags)[j]) == items.to_multiset(),
{
    lemma_initial_items(items, num_bags);
    if j > 0 {
        lemma_visits_keep_items(initial(items, num_bags), j - 1);
    }
}

/// Two runs on the same items and the same number of bags record the same
/// assignments in the same order.
pub proof fn lemma_same_input_same_states(
    items: Seq<char>,
    num_bags: nat,
    first: Seq<State>,
    second: Seq<State>,
)
    requires
        snapshots(first) == enumeration(items, num_bags),
        snapshots(second) == enumeration(items, num_bags),
    ensures
        first.len() == second.len(),
        forall|j: int| 0 <= j < first.len() ==> (#[trigger] first[j])@ == second[j]@,
{
    assert(snapshots(first).len() == first.len());
    assert(snapshots(second).len() == second.len());
    assert forall|j: int| 0 <= j < first.len() implies (#[trigger] first[j])@ == second[j]@ by {
        assert(snapshots(first)[j] == first[j]@);
        assert(snapshots(second)[j] == second[j]@);
    }
}

/// The first assignment recorded is the initial one: all items in bag 0 in
/// the order given, and nothing in any other bag.
pub proof fn lemma_first_is_initial(items: Seq<char>, num_bags: nat)
    requires
        num_bags >= 1,
    ensures
        enumeration(items, num_bags)[0] == initial(items, num_bags),
        initial(items, num_bags).len() == num_bags,
        initial(items, num_bags)[0] == items,
        forall|i: int| 1 <= i < num_bags ==> (#[trigger] initial(items, num_bags)[i]).len() == 0,
{
}

/// Without items the enumeration records the initial assignment, in which
/// every bag is empty, and nothing else.
pub proof fn lemma_no_items(num_bags: nat)
    requires
        num_bags >= 1,
    ensures
        enumeration(Seq::empty(), num_bags) == seq![initial(Seq::empty(), num_bags)],
        enumeration(Seq::empty(), num_bags).len() == 1,
        num_states(0, num_bags) == 1,
        forall|i: int|
            0 <= i < num_bags ==> (#[trigger] initial(Seq::empty(), num_bags)[i]).len() == 0,
{
    assert(enumeration(Seq::empty(), num_bags) =~= seq![initial(Seq::empty(), num_bags)]);
}

/// With a single bag the enumeration records the initial assignment, in
/// which that bag holds every item, and nothing else.
pub proof fn lemma_single_bag(items: Seq<char>)
    ensures
        enumeration(items, 1) == seq![seq![items]],
        enumeration(items, 1).len() == 1,
        num_states(items.len(), 1) == 1,
{
    assert(initial(items, 1) =~= seq![items]);
    assert(enumeration(items, 1) =~= seq![seq![items]]);
    lemma_enumeration_count(items, 1);
}

} // verus!
