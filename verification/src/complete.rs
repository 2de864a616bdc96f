//! Which assignments the enumeration records: those that keep a beginning
//! of the list in bag 0 and have every other item in some later bag.

use vstd::prelude::*;
use vstd::seq_lib::lemma_multiset_commutative;
use crate::distinct::{begins_with, lemma_visits_lie_below, same_bags};
use crate::items::{
    items_by_bag, lemma_initial_items, lemma_items_by_bag, lemma_items_by_bag_update,
    lemma_shift_keeps_items,
};
use crate::laws::lemma_enumeration_keeps_items;
use crate::model::{all_items, enumeration, initial, shifted, visits, visits_from, Bags};

verus! {

/// Whether `c` spreads `items` over `num_bags` bags the way the walk does:
/// bag 0 holds a beginning of `items`, and the bags together hold exactly
/// `items`.
pub open spec fn is_spread(items: Seq<char>, num_bags: nat, c: Bags) -> bool {
    &&& c.len() == num_bags
    &&& begins_with(items, c[0])
    &&& all_items(c) == items.to_multiset()
}

/// Whether `c` can be had from `s` by moving items out of bag 0: bag 0 of
/// `c` is a beginning of bag 0 of `s`, every other bag of `c` holds at least
/// what it holds in `s`, and the items are the same over all.
pub open spec fn fits_below(s: Bags, c: Bags) -> bool {
    &&& c.len() == s.len()
    &&& s.len() >= 1
    &&& begins_with(s[0], c[0])
    &&& forall|i: int, label: char|
        1 <= i < s.len() ==> (#[trigger] s[i].to_multiset().count(label))
            <= c[i].to_multiset().count(label)
    &&& all_items(c) == all_items(s)
}

/// Where the assignments that belong to target `to` start in
/// `visits_from(s, end)`.
pub open spec fn offset(s: Bags, end: int, to: int) -> int
    decreases to - end,
{
    if end >= to {
        0
    } else {
        1 + visits(shifted(s, 0, end)).len() + offset(s, end + 1, to)
    }
}

/// `visits_from(s, end)` holds, from `offset(s, end, to)` on, the assignment
/// with the last item of bag 0 moved to bag `to` and then all that is
/// recorded below it.
proof fn lemma_offset(s: Bags, end: int, to: int)
    requires
        s.len() >= 1,
        s[0].len() > 0,
        1 <= end <= to < s.len(),
    ensures
        0 <= offset(s, end, to),
        offset(s, end, to) + 1 + visits(shifted(s, 0, to)).len() <= visits_from(s, end).len(),
        visits_from(s, end)[offset(s, end, to)] == shifted(s, 0, to),
        forall|k: int|
            0 <= k < visits(shifted(s, 0, to)).len() ==> visits_from(s, end)[offset(s, end, to) + 1
                + k] == #[trigger] visits(shifted(s, 0, to))[k],
    decreases to - end,
{
    if end < to {
        lemma_offset(s, end + 1, to);
    }
}

/// A sequence holds each label at least as often as any beginning of it.
proof fn lemma_count_of_beginning(long: Seq<char>, short: Seq<char>, label: char)
    requires
        begins_with(long, short),
    ensures
        short.to_multiset().count(label) <= long.to_multiset().count(label),
{
    broadcast use vstd::multiset::group_multiset_axioms;

    let rest = long.skip(short.len() as int);
    assert(long =~= short + rest);
    lemma_multiset_commutative(short, rest);
}

/// Where no bag of `low` holds a label more often than that bag of `high`,
/// `low` holds it no more often over all; and where both hold it equally
/// often over all, so does each bag.
proof fn lemma_sum_of_counts(low: Bags, high: Bags, label: char)
    requires
        low.len() == high.len(),
        forall|i: int|
            0 <= i < low.len() ==> (#[trigger] low[i]).to_multiset().count(label)
                <= high[i].to_multiset().count(label),
    ensures
        items_by_bag(low).count(label) <= items_by_bag(high).count(label),
        items_by_bag(low).count(label) == items_by_bag(high).count(label) ==> forall|i: int|
            0 <= i < low.len() ==> (#[trigger] low[i]).to_multiset().count(label)
                == high[i].to_multiset().count(label),
    decreases low.len(),
{
    broadcast use vstd::multiset::group_multiset_axioms;

    if low.len() > 0 {
        let low_rest = low.drop_last();
        let high_rest = high.drop_last();
        assert forall|i: int| 0 <= i < low_rest.len() implies (#[trigger] low_rest[i])
            .to_multiset().count(label) <= high_rest[i].to_multiset().count(label) by {
            assert(low_rest[i] == low[i]);
            assert(high_rest[i] == high[i]);
        }
        lemma_sum_of_counts(low_rest, high_rest, label);
        assert(low.last() == low[low.len() - 1]);
        assert(high.last() == high[low.len() - 1]);
        if items_by_bag(low).count(label) == items_by_bag(high).count(label) {
            assert forall|i: int| 0 <= i < low.len() implies (#[trigger] low[i]).to_multiset()
                .count(label) == high[i].to_multiset().count(label) by {
                if i < low.len() - 1 {
                    assert(low_rest[i] == low[i]);
                    assert(high_rest[i] == high[i]);
                }
            }
        }
    }
}

/// Where `c` fits below `s` with bag 0 as in `s`, each bag of `c` holds what
/// it holds in `s`.
proof fn lemma_same_when_full(s: Bags, c: Bags)
    requires
        fits_below(s, c),
        c[0].len() == s[0].len(),
    ensures
        same_bags(s, c),
{
    lemma_items_by_bag(s);
    lemma_items_by_bag(c);
    assert(c[0] =~= s[0]);
    assert forall|i: int| 0 <= i < s.len() implies (#[trigger] s[i]).to_multiset()
        == c[i].to_multiset() by {
        assert forall|label: char|
            s[i].to_multiset().count(label) == c[i].to_multiset().count(label) by {
            assert forall|n: int| 0 <= n < s.len() implies (#[trigger] s[n]).to_multiset()
                .count(label) <= c[n].to_multiset().count(label) by {
                if n >= 1 {
                    assert(s[n].to_multiset().count(label) <= c[n].to_multiset().count(label));
                }
            }
            lemma_sum_of_counts(s, c, label);
        }
        assert(s[i].to_multiset() =~= c[i].to_multiset());
    }
}

/// Where `c` fits below `s` with less in bag 0, the last item of bag 0 of
/// `s` is in a later bag of `c`, beyond what that bag holds in `s`.
proof fn lemma_where_it_went(s: Bags, c: Bags) -> (to: int)
    requires
        fits_below(s, c),
        c[0].len() < s[0].len(),
    ensures
        1 <= to < s.len(),
        s[to].to_multiset().count(s[0].last()) < c[to].to_multiset().count(s[0].last()),
{
    broadcast use vstd::multiset::group_multiset_axioms;
    broadcast use vstd::seq_lib::group_to_multiset_ensures;

    let moved = s[0].last();
    let rest = s[0].drop_last();
    let taken = s.update(0, rest);
    if forall|i: int|
        1 <= i < s.len() ==> (#[trigger] c[i]).to_multiset().count(moved)
            <= s[i].to_multiset().count(moved) {
        assert(begins_with(rest, c[0]));
        lemma_count_of_beginning(rest, c[0], moved);
        assert forall|i: int| 0 <= i < c.len() implies (#[trigger] c[i]).to_multiset().count(
            moved,
        ) <= taken[i].to_multiset().count(moved) by {
            if i >= 1 {
                assert(taken[i] == s[i]);
            }
        }
        lemma_sum_of_counts(c, taken, moved);
        lemma_items_by_bag_update(s, 0, rest);
        assert(s[0] =~= rest.push(moved));
        assert(s[0].to_multiset() =~= rest.to_multiset().insert(moved));
        let lhs = items_by_bag(taken).add(s[0].to_multiset());
        let rhs = items_by_bag(s).add(rest.to_multiset());
        assert(lhs.count(moved) == rhs.count(moved));
        lemma_items_by_bag(s);
        lemma_items_by_bag(c);
        assert(false);
    }
    choose|to: int|
        1 <= to < s.len() && s[to].to_multiset().count(moved) < (#[trigger] c[to])
            .to_multiset().count(moved)
}

/// Every assignment that fits below `s` with less in bag 0 is recorded
/// below `s`, but for the order of the items within its bags.
pub proof fn lemma_visits_reach(s: Bags, c: Bags)
    requires
        fits_below(s, c),
        c[0].len() < s[0].len(),
    ensures
        exists|k: int| 0 <= k < visits(s).len() && same_bags(#[trigger] visits(s)[k], c),
    decreases s[0].len(),
{
    broadcast use vstd::multiset::group_multiset_axioms;
    broadcast use vstd::seq_lib::group_to_multiset_ensures;

    let moved = s[0].last();
    let to = lemma_where_it_went(s, c);
    let child = shifted(s, 0, to);
    lemma_shift_keeps_items(s, 0, to);
    lemma_offset(s, 1, to);
    assert(child[to] =~= s[to].push(moved));
    assert forall|i: int, label: char| 1 <= i < s.len() implies (#[trigger] child[i]
        .to_multiset().count(label)) <= c[i].to_multiset().count(label) by {
        assert(s[i].to_multiset().count(label) <= c[i].to_multiset().count(label));
        if i != to {
            assert(child[i] == s[i]);
        }
    }
    assert(fits_below(child, c));
    let at = offset(s, 1, to);
    if c[0].len() == child[0].len() {
        lemma_same_when_full(child, c);
        assert(same_bags(visits(s)[at], c));
    } else {
        lemma_visits_reach(child, c);
        let k = choose|k: int|
            0 <= k < visits(child).len() && same_bags(#[trigger] visits(child)[k], c);
        assert(visits(s)[at + 1 + k] == visits(child)[k]);
        assert(same_bags(visits(s)[at + 1 + k], c));
    }
}

/// The enumeration records every spread of the items over the bags, but
/// for the order of the items within its bags.
pub proof fn lemma_enumeration_complete(items: Seq<char>, num_bags: nat, c: Bags)
    requires
        num_bags >= 1,
        is_spread(items, num_bags, c),
    ensures
        exists|j: int|
            0 <= j < enumeration(items, num_bags).len() && same_bags(
                #[trigger] enumeration(items, num_bags)[j],
                c,
            ),
{
    broadcast use vstd::multiset::group_multiset_axioms;
    broadcast use vstd::seq_lib::group_to_multiset_ensures;

    let s = initial(items, num_bags);
    let all = enumeration(items, num_bags);
    lemma_initial_items(items, num_bags);
    assert forall|i: int, label: char| 1 <= i < s.len() implies (#[trigger] s[i]
        .to_multiset().count(label)) <= c[i].to_multiset().count(label) by {
        assert(s[i] =~= Seq::<char>::empty());
    }
    assert(fits_below(s, c));
    if c[0].len() == items.len() {
        lemma_same_when_full(s, c);
        assert(same_bags(all[0], c));
    } else {
        lemma_visits_reach(s, c);
        let k = choose|k: int| 0 <= k < visits(s).len() && same_bags(#[trigger] visits(s)[k], c);
        assert(all[k + 1] == visits(s)[k]);
        assert(same_bags(all[k + 1], c));
    }
}

/// Everything that the enumeration records is a spread of the items over
/// the bags.
pub proof fn lemma_enumeration_sound(items: Seq<char>, num_bags: nat, j: int)
    requires
        num_bags >= 1,
        0 <= j < enumeration(items, num_bags).len(),
    ensures
        is_spread(items, num_bags, enumeration(items, num_bags)[j]),
{
    lemma_enumeration_keeps_items(items, num_bags, j);
    if j > 0 {
        lemma_visits_lie_below(initial(items, num_bags), j - 1);
    }
}

} // verus!
