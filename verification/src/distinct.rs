//! With items that are all different, no assignment is recorded twice, not
//! even with the items of a bag in another order.

use vstd::prelude::*;
use crate::items::{lemma_in_two_bags, lemma_initial_items, lemma_shift_keeps_items};
use crate::laws::lemma_visits_from_keep_items;
use crate::model::{all_items, enumeration, initial, shifted, visits, visits_from, Bags};

verus! {

/// Whether no label occurs twice among the items of all bags.
pub open spec fn items_differ(s: Bags) -> bool {
    forall|label: char| all_items(s).count(label) <= 1
}

/// Whether `u` and `w` have the same items in each bag, in whatever order.
pub open spec fn same_bags(u: Bags, w: Bags) -> bool {
    &&& u.len() == w.len()
    &&& forall|i: int| 0 <= i < u.len() ==> (#[trigger] u[i]).to_multiset() == w[i].to_multiset()
}

/// Whether `long` starts with the items of `short`, in the same order.
pub open spec fn begins_with(long: Seq<char>, short: Seq<char>) -> bool {
    &&& short.len() <= long.len()
    &&& forall|q: int| 0 <= q < short.len() ==> long[q] == short[q]
}

/// The bag to which the last item of bag 0 of `s` went on the way to the
/// `k`-th assignment of `visits_from(s, end)`.
pub open spec fn target(s: Bags, end: int, k: int) -> int
    decreases s.len() - end,
{
    if end >= s.len() || k <= visits(shifted(s, 0, end)).len() {
        end
    } else {
        target(s, end + 1, k - 1 - visits(shifted(s, 0, end)).len())
    }
}

/// Where the items are in the `k`-th assignment of `visits_from(s, end)`:
/// bag 0 has lost at least its last item and kept the others in place,
/// every other bag still starts with what it held in `s`, and the bag that
/// `target` names holds the last item of bag 0 of `s` right behind what it
/// held in `s`.
pub open spec fn lies_below(s: Bags, v: Bags, to: int) -> bool {
    &&& v.len() == s.len()
    &&& v[0].len() < s[0].len()
    &&& begins_with(s[0], v[0])
    &&& forall|i: int| 1 <= i < s.len() ==> begins_with(#[trigger] v[i], s[i])
    &&& 1 <= to < s.len()
    &&& v[to].len() > s[to].len()
    &&& v[to][s[to].len() as int] == s[0].last()
}

/// Every assignment recorded below `s` lies below `s`.
pub proof fn lemma_visits_lie_below(s: Bags, k: int)
    requires
        0 <= k < visits(s).len(),
    ensures
        lies_below(s, visits(s)[k], target(s, 1, k)),
    decreases s[0].len(), s.len() + 1,
{
    lemma_visits_from_lie_below(s, 1, k);
}

/// The same of the part of the walk that belongs to the targets from `end`
/// on, none of which is a bag before `end`.
pub proof fn lemma_visits_from_lie_below(s: Bags, end: int, k: int)
    requires
        0 <= k < visits_from(s, end).len(),
    ensures
        lies_below(s, visits_from(s, end)[k], target(s, end, k)),
        end <= target(s, end, k),
    decreases s[0].len(), s.len() - end,
{
    let child = shifted(s, 0, end);
    let below = visits(child);
    let v = visits_from(s, end)[k];
    if k == 0 {
        assert(v == child);
    } else if k <= below.len() {
        lemma_visits_lie_below(child, k - 1);
        assert(v == below[k - 1]);
        let to = target(child, 1, k - 1);
        assert forall|i: int| 1 <= i < s.len() implies begins_with(#[trigger] v[i], s[i]) by {
            assert(begins_with(v[i], child[i]));
        }
        assert(begins_with(v[end], child[end]));
        assert(child[end][s[end].len() as int] == s[0].last());
        assert(begins_with(child[0], v[0]));
    } else {
        lemma_visits_from_lie_below(s, end + 1, k - 1 - below.len());
    }
}

/// With items that are all different, no two assignments recorded below
/// `s` have the same items in each bag.
pub proof fn lemma_visits_differ(s: Bags, a: int, b: int)
    requires
        items_differ(s),
        0 <= a < b < visits(s).len(),
    ensures
        !same_bags(visits(s)[a], visits(s)[b]),
    decreases s[0].len(), s.len() + 1,
{
    lemma_visits_from_differ(s, 1, a, b);
}

/// The same of the part of the walk that belongs to the targets from `end`
/// on.
pub proof fn lemma_visits_from_differ(s: Bags, end: int, a: int, b: int)
    requires
        items_differ(s),
        0 <= a < b < visits_from(s, end).len(),
    ensures
        !same_bags(visits_from(s, end)[a], visits_from(s, end)[b]),
    decreases s[0].len(), s.len() - end,
{
    broadcast use vstd::seq_lib::group_to_multiset_ensures;

    let child = shifted(s, 0, end);
    let below = visits(child);
    let u = visits_from(s, end)[a];
    let w = visits_from(s, end)[b];
    lemma_shift_keeps_items(s, 0, end);
    if b <= below.len() {
        if a == 0 {
            lemma_visits_lie_below(child, b - 1);
            assert(u[0].to_multiset().len() != w[0].to_multiset().len());
        } else {
            lemma_visits_differ(child, a - 1, b - 1);
        }
    } else if a > below.len() {
        lemma_visits_from_differ(s, end + 1, a - 1 - below.len(), b - 1 - below.len());
    } else {
        lemma_visits_from_lie_below(s, end, a);
        lemma_visits_from_lie_below(s, end, b);
        lemma_visits_from_lie_below(s, end + 1, b - 1 - below.len());
        let later = target(s, end, b);
        let moved = s[0].last();
        assert(target(s, end, a) == end);
        assert(end < later);
        if same_bags(u, w) {
            assert(u[end][s[end].len() as int] == moved);
            assert(u[end].to_multiset().count(moved) > 0);
            assert(w[end].to_multiset().count(moved) > 0);
            assert(w[later][s[later].len() as int] == moved);
            lemma_in_two_bags(w, end, later, moved);
            lemma_visits_from_keep_items(s, end, b);
            assert(false);
        }
    }
}

/// With items that are all different, no two assignments that the
/// enumeration records have the same items in each bag; so none is recorded
/// twice.
pub proof fn lemma_enumeration_no_duplicates(items: Seq<char>, num_bags: nat)
    requires
        num_bags >= 1,
        items.no_duplicates(),
    ensures
        forall|a: int, b: int|
            0 <= a < b < enumeration(items, num_bags).len() ==> !same_bags(
                #[trigger] enumeration(items, num_bags)[a],
                #[trigger] enumeration(items, num_bags)[b],
            ),
        enumeration(items, num_bags).no_duplicates(),
{
    broadcast use vstd::multiset::group_multiset_axioms;
    broadcast use vstd::seq_lib::group_to_multiset_ensures;

    let s = initial(items, num_bags);
    let all = enumeration(items, num_bags);
    lemma_initial_items(items, num_bags);
    items.lemma_multiset_has_no_duplicates();
    assert(items_differ(s));
    assert forall|a: int, b: int| 0 <= a < b < all.len() implies !same_bags(
        #[trigger] all[a],
        #[trigger] all[b],
    ) by {
        if a == 0 {
            lemma_visits_lie_below(s, b - 1);
            assert(all[a][0].to_multiset().len() != all[b][0].to_multiset().len());
        } else {
            lemma_visits_differ(s, a - 1, b - 1);
        }
    }
    assert forall|a: int, b: int| 0 <= a < all.len() && 0 <= b < all.len() && a != b implies all[a]
        != all[b] by {
        if a < b {
            assert(!same_bags(all[a], all[b]));
        } else {
            assert(!same_bags(all[b], all[a]));
        }
    }
}

} // verus!
