//! Which items an assignment holds, whatever bag they are in.

use vstd::multiset::Multiset;
use vstd::prelude::*;
use vstd::seq_lib::lemma_multiset_commutative;
use crate::model::{all_items, initial, shifted, Bags};

verus! {

/// The items of all bags together, summed bag by bag from the last.
pub open spec fn items_by_bag(s: Bags) -> Multiset<char>
    decreases s.len(),
{
    if s.len() == 0 {
        Multiset::empty()
    } else {
        items_by_bag(s.drop_last()).add(s.last().to_multiset())
    }
}

/// Summing bag by bag counts the same items as laying the bags end to end.
pub proof fn lemma_items_by_bag(s: Bags)
    ensures
        all_items(s) == items_by_bag(s),
    decreases s.len(),
{
    s.lemma_flatten_and_flatten_alt_are_equivalent();
    if s.len() == 0 {
        assert(s.flatten_alt() =~= Seq::<char>::empty());
        assert(s.flatten_alt().to_multiset() =~= Multiset::empty()) by {
            broadcast use vstd::seq_lib::group_to_multiset_ensures;
        }
    } else {
        lemma_items_by_bag(s.drop_last());
        s.drop_last().lemma_flatten_and_flatten_alt_are_equivalent();
        lemma_multiset_commutative(s.drop_last().flatten_alt(), s.last());
    }
}

/// Replacing one bag takes its items out of the count and puts those of
/// the new bag in.
pub proof fn lemma_items_by_bag_update(s: Bags, i: int, bag: Seq<char>)
    requires
        0 <= i < s.len(),
    ensures
        items_by_bag(s.update(i, bag)).add(s[i].to_multiset()) == items_by_bag(s).add(
            bag.to_multiset(),
        ),
    decreases s.len(),
{
    broadcast use vstd::multiset::group_multiset_axioms;

    let t = s.update(i, bag);
    let lhs = items_by_bag(t).add(s[i].to_multiset());
    let rhs = items_by_bag(s).add(bag.to_multiset());
    assert(items_by_bag(t) == items_by_bag(t.drop_last()).add(t.last().to_multiset()));
    assert(items_by_bag(s) == items_by_bag(s.drop_last()).add(s.last().to_multiset()));
    if i == s.len() - 1 {
        assert(t.drop_last() =~= s.drop_last());
        assert(t.last() == bag);
        assert(s.last() == s[i]);
    } else {
        assert(t.drop_last() =~= s.drop_last().update(i, bag));
        assert(t.last() == s.last());
        assert(s.drop_last()[i] == s[i]);
        lemma_items_by_bag_update(s.drop_last(), i, bag);
        let inner_lhs = items_by_bag(t.drop_last()).add(s[i].to_multiset());
        let inner_rhs = items_by_bag(s.drop_last()).add(bag.to_multiset());
        assert(inner_lhs == inner_rhs);
        assert forall|v: char| lhs.count(v) == rhs.count(v) by {
            assert(inner_lhs.count(v) == inner_rhs.count(v));
        }
    }
    assert(lhs =~= rhs);
}

/// A move changes where an item is, not which items there are.
pub proof fn lemma_shift_keeps_items(s: Bags, start: int, end: int)
    requires
        0 <= start < s.len(),
        0 <= end < s.len(),
        s[start].len() > 0,
    ensures
        all_items(shifted(s, start, end)) == all_items(s),
{
    broadcast use vstd::seq_lib::group_to_multiset_ensures;
    broadcast use vstd::multiset::group_multiset_axioms;

    let item = s[start].last();
    let rest = s[start].drop_last();
    let taken = s.update(start, rest);
    let grown = taken[end].push(item);
    let there = taken.update(end, grown);
    lemma_items_by_bag(s);
    lemma_items_by_bag(there);
    lemma_items_by_bag_update(s, start, rest);
    lemma_items_by_bag_update(taken, end, grown);
    assert(s[start] =~= rest.push(item));
    assert(s[start].to_multiset() =~= rest.to_multiset().insert(item));
    assert(grown.to_multiset() =~= taken[end].to_multiset().insert(item));
    let first_lhs = items_by_bag(taken).add(s[start].to_multiset());
    let first_rhs = items_by_bag(s).add(rest.to_multiset());
    let second_lhs = items_by_bag(there).add(taken[end].to_multiset());
    let second_rhs = items_by_bag(taken).add(grown.to_multiset());
    assert(first_lhs == first_rhs);
    assert(second_lhs == second_rhs);
    assert forall|v: char| items_by_bag(there).count(v) == items_by_bag(s).count(v) by {
        assert(first_lhs.count(v) == first_rhs.count(v));
        assert(second_lhs.count(v) == second_rhs.count(v));
    }
    assert(items_by_bag(there) =~= items_by_bag(s));
}

/// The initial assignment holds exactly the given items.
pub proof fn lemma_initial_items(items: Seq<char>, num_bags: nat)
    requires
        num_bags >= 1,
    ensures
        all_items(initial(items, num_bags)) == items.to_multiset(),
    decreases num_bags,
{
    broadcast use vstd::seq_lib::group_to_multiset_ensures;
    broadcast use vstd::multiset::group_multiset_axioms;

    let s = initial(items, num_bags);
    lemma_items_by_bag(s);
    if num_bags == 1 {
        assert(s.drop_last() =~= Seq::<Seq<char>>::empty());
        assert(items_by_bag(s.drop_last()) == Multiset::<char>::empty());
        assert(s.last() == items);
        assert(items_by_bag(s) =~= items.to_multiset());
    } else {
        let fewer = (num_bags - 1) as nat;
        assert(s.drop_last() =~= initial(items, fewer));
        lemma_initial_items(items, fewer);
        lemma_items_by_bag(initial(items, fewer));
        assert(s.last() =~= Seq::<char>::empty());
        assert(s.last().to_multiset() =~= Multiset::<char>::empty());
        assert(items_by_bag(s) =~= items.to_multiset());
    }
}

/// A label that is in two bags is there at least twice.
pub proof fn lemma_in_two_bags(s: Bags, i: int, j: int, label: char)
    requires
        0 <= i < j < s.len(),
        s[i].contains(label),
        s[j].contains(label),
    ensures
        all_items(s).count(label) >= 2,
{
    broadcast use vstd::seq_lib::group_to_multiset_ensures;
    broadcast use vstd::multiset::group_multiset_axioms;

    let none = Seq::<char>::empty();
    let without_i = s.update(i, none);
    let without_both = without_i.update(j, none);
    lemma_items_by_bag(s);
    lemma_items_by_bag_update(s, i, none);
    lemma_items_by_bag_update(without_i, j, none);
    assert(without_i[j] == s[j]);
    let first_lhs = items_by_bag(without_i).add(s[i].to_multiset());
    let first_rhs = items_by_bag(s).add(none.to_multiset());
    let second_lhs = items_by_bag(without_both).add(s[j].to_multiset());
    let second_rhs = items_by_bag(without_i).add(none.to_multiset());
    assert(first_lhs.count(label) == first_rhs.count(label));
    assert(second_lhs.count(label) == second_rhs.count(label));
    assert(none.to_multiset().count(label) == 0);
    assert(s[i].to_multiset().count(label) >= 1);
    assert(s[j].to_multiset().count(label) >= 1);
}

} // verus!
