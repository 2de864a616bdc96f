//! The mathematical model: an assignment is a sequence of bags, a bag is the
//! sequence of its items, and a bag without items is the empty sequence.

use vstd::multiset::Multiset;
use vstd::prelude::*;

verus! {

/// An assignment of items to bags, as the contracts see it.
pub type Bags = Seq<Seq<char>>;

/// The placeholder that a stored bag holds when it has no items.
pub const SENTINEL: char = '_';

/// Whether every label in `items` is a real item, that is, not the placeholder.
pub open spec fn is_items(items: Seq<char>) -> bool {
    forall|k: int| 0 <= k < items.len() ==> items[k] != SENTINEL
}

/// How a bag with these items is stored: the items themselves, or the
/// placeholder alone when there are none.
pub open spec fn stored(items: Seq<char>) -> Seq<char> {
    if items.len() == 0 {
        seq![SENTINEL]
    } else {
        items
    }
}

/// The items of a stored bag: none when the placeholder leads it.
pub open spec fn items_of(bag: Seq<char>) -> Seq<char> {
    if bag.len() > 0 && bag[0] == SENTINEL {
        Seq::empty()
    } else {
        bag
    }
}

/// The assignment after the last item of bag `start` has moved to the end of
/// bag `end`.
pub open spec fn shifted(s: Bags, start: int, end: int) -> Bags
    recommends
        0 <= start < s.len(),
        0 <= end < s.len(),
        s[start].len() > 0,
{
    let item = s[start].last();
    let taken = s.update(start, s[start].drop_last());
    taken.update(end, taken[end].push(item))
}

/// A move followed by the opposite move gives the assignment back, bag by
/// bag and item by item.
pub proof fn lemma_shift_back(s: Bags, start: int, end: int)
    requires
        0 <= start < s.len(),
        0 <= end < s.len(),
        s[start].len() > 0,
    ensures
        shifted(s, start, end)[end].len() > 0,
        shifted(shifted(s, start, end), end, start) == s,
{
    let there = shifted(s, start, end);
    let back = shifted(there, end, start);
    assert(back.len() == s.len());
    assert forall|i: int| 0 <= i < s.len() implies back[i] =~= s[i] by {}
    assert(back =~= s);
}

/// An item that went from bag `start` to bag `mid` and then on to bag `end`
/// is where a single move from `start` to `end` would have put it.
pub proof fn lemma_shift_on(s: Bags, start: int, mid: int, end: int)
    requires
        0 <= start < s.len(),
        0 <= mid < s.len(),
        0 <= end < s.len(),
        s[start].len() > 0,
    ensures
        shifted(s, start, mid)[mid].len() > 0,
        shifted(shifted(s, start, mid), mid, end) == shifted(s, start, end),
{
    let first = shifted(s, start, mid);
    let both = shifted(first, mid, end);
    let direct = shifted(s, start, end);
    assert(both.len() == direct.len());
    assert forall|i: int| 0 <= i < s.len() implies both[i] =~= direct[i] by {}
    assert(both =~= direct);
}

/// The items of all bags together, each counted as often as it occurs.
pub open spec fn all_items(s: Bags) -> Multiset<char> {
    s.flatten().to_multiset()
}

/// The assignment the walk starts from: every item in bag 0, in the order
/// given, and every other bag empty.
pub open spec fn initial(items: Seq<char>, num_bags: nat) -> Bags {
    Seq::new(num_bags, |i: int| if i == 0 { items } else { Seq::empty() })
}

/// The assignments that the walk records below `s`, in the order in which it
/// records them. `s` itself is not among them.
pub open spec fn visits(s: Bags) -> Seq<Bags>
    decreases s[0].len(), s.len() + 1,
{
    if s.len() == 0 || s[0].len() == 0 {
        Seq::empty()
    } else {
        visits_from(s, 1)
    }
}

/// The part of `visits(s)` that belongs to the targets `end`, `end + 1`, ...:
/// for each target, the assignment with the last item of bag 0 moved there,
/// followed by everything recorded below that assignment.
pub open spec fn visits_from(s: Bags, end: int) -> Seq<Bags>
    decreases s[0].len(), s.len() - end,
{
    if s.len() == 0 || s[0].len() == 0 || end < 1 || end >= s.len() {
        Seq::empty()
    } else {
        let child = shifted(s, 0, end);
        seq![child] + visits(child) + visits_from(s, end + 1)
    }
}

/// Everything the enumeration records for these items and this many bags:
/// the initial assignment first, then all that the walk records below it.
pub open spec fn enumeration(items: Seq<char>, num_bags: nat) -> Seq<Bags> {
    seq![initial(items, num_bags)] + visits(initial(items, num_bags))
}

} // verus!
