//! The text of an assignment: `( A, B : C : _ )`.

use vstd::prelude::*;
use vstd::relations::{sorted_by, total_ordering};
use vstd::seq_lib::{lemma_sorted_unique, to_multiset_update};
use crate::model::{stored, Bags};
use crate::state::State;

verus! {

/// The order of labels: that of their code points.
pub open spec fn label_le(a: char, b: char) -> bool {
    a <= b
}

/// The labels of `bag` in ascending order.
pub open spec fn sorted_labels(bag: Seq<char>) -> Seq<char> {
    bag.sort_by(|a: char, b: char| label_le(a, b))
}

/// The parts in order, with `sep` between each two neighbours.
pub open spec fn joined(parts: Seq<Seq<char>>, sep: Seq<char>) -> Seq<char>
    decreases parts.len(),
{
    if parts.len() == 0 {
        Seq::empty()
    } else if parts.len() == 1 {
        parts[0]
    } else {
        joined(parts.drop_last(), sep) + sep + parts.last()
    }
}

/// The labels that stand for a bag with these items: the items as stored,
/// in ascending order where `flag_sort` asks for it.
pub open spec fn shown(items: Seq<char>, flag_sort: bool) -> Seq<char> {
    if flag_sort {
        sorted_labels(stored(items))
    } else {
        stored(items)
    }
}

/// The text of one bag: its labels with `, ` between them.
pub open spec fn bag_text(labels: Seq<char>) -> Seq<char> {
    joined(Seq::new(labels.len(), |k: int| seq![labels[k]]), seq![',', ' '])
}

/// The text of every bag of `s`, in order.
pub open spec fn bag_texts(s: Bags, flag_sort: bool) -> Seq<Seq<char>> {
    Seq::new(s.len(), |i: int| bag_text(shown(s[i], flag_sort)))
}

/// The text of an assignment: `( `, the texts of its bags with ` : `
/// between them, and ` )`. A bag without items shows as the placeholder.
pub open spec fn line(s: Bags, flag_sort: bool) -> Seq<char> {
    seq!['(', ' '] + joined(bag_texts(s, flag_sort), seq![' ', ':', ' ']) + seq![' ', ')']
}

/// `String::push` of std appends the one character to the text and changes
/// nothing before it.
pub assume_specification[ String::push ](text: &mut String, ch: char)
    ensures
        final(text)@ == old(text)@.push(ch),
;

/// What stands in the text once the first `done` of the parts are written,
/// each but the very last followed by `sep`.
spec fn written(parts: Seq<Seq<char>>, sep: Seq<char>, done: int) -> Seq<char> {
    if done <= 0 {
        Seq::empty()
    } else if done < parts.len() {
        joined(parts.take(done), sep) + sep
    } else {
        joined(parts, sep)
    }
}

/// Writing part `done` after the first `done` parts, and `sep` unless it
/// was the last, gives what stands there for `done + 1` parts.
proof fn lemma_written_step(parts: Seq<Seq<char>>, sep: Seq<char>, done: int)
    requires
        0 <= done < parts.len(),
    ensures
        done + 1 < parts.len() ==> written(parts, sep, done + 1) == written(parts, sep, done)
            + parts[done] + sep,
        done + 1 == parts.len() ==> written(parts, sep, done + 1) == written(parts, sep, done)
            + parts[done],
{
    let next = parts.take(done + 1);
    assert(next.drop_last() =~= parts.take(done));
    assert(next.last() == parts[done]);
    assert(parts.take(parts.len() as int) =~= parts);
    if done == 0 {
        assert(joined(next, sep) =~= parts[0]);
    } else {
        assert(joined(next, sep) =~= joined(parts.take(done), sep) + sep + parts[done]);
    }
    if done + 1 < parts.len() {
        assert(written(parts, sep, done + 1) =~= written(parts, sep, done) + parts[done] + sep);
    } else {
        assert(written(parts, sep, done + 1) =~= written(parts, sep, done) + parts[done]);
    }
}

/// Puts the labels of `bag` in ascending order.
pub fn sort_labels(bag: &mut Vec<char>)
    ensures
        final(bag)@ == sorted_labels(old(bag)@),
{
    let n = bag.len();
    let mut i: usize = 1;
    while i < n
        invariant
            bag@.len() == n,
            1 <= i,
            bag@.to_multiset() == old(bag)@.to_multiset(),
            forall|a: int, b: int| 0 <= a < b < i && b < n ==> bag@[a] <= bag@[b],
        decreases n - i,
    {
        let mut j: usize = i;
        while j > 0 && bag[j - 1] > bag[j]
            invariant
                bag@.len() == n,
                0 <= j <= i < n,
                bag@.to_multiset() == old(bag)@.to_multiset(),
                forall|a: int, b: int| 0 <= a < b <= i && b != j ==> bag@[a] <= bag@[b],
            decreases j,
        {
            let left = bag[j - 1];
            let right = bag[j];
            proof {
                to_multiset_update(bag@, j - 1, right);
                to_multiset_update(bag@.update(j - 1, right), j as int, left);
                assert(bag@.update(j - 1, right).update(j as int, left).to_multiset()
                    =~= bag@.to_multiset()) by {
                    broadcast use vstd::multiset::group_multiset_axioms;
                    broadcast use vstd::seq_lib::group_to_multiset_ensures;
                }
            }
            bag[j - 1] = right;
            bag[j] = left;
            j -= 1;
        }
        i += 1;
    }
    proof {
        let le = |a: char, b: char| label_le(a, b);
        assert(total_ordering(le));
        assert(sorted_by(bag@, le));
        old(bag)@.lemma_sort_by_ensures(le);
        lemma_sorted_unique(bag@, old(bag)@.sort_by(le), le);
    }
}

impl State {
    /// The text of this state, with the packages of each bag in ascending
    /// order where `flag_sort` is set and in stored order where it is not.
    pub fn render(&self, flag_sort: bool) -> (text: String)
        requires
            self.wf(),
        ensures
            text@ == line(self@, flag_sort),
    {
        let ghost texts = bag_texts(self@, flag_sort);
        let ghost colon = seq![' ', ':', ' '];
        let ghost comma = seq![',', ' '];
        let mut text = String::new();
        text.push('(');
        text.push(' ');
        assert(text@ =~= seq!['(', ' ']);
        let num_bags = self.num_bags();
        for index_a in 0..num_bags
            invariant
                self.wf(),
                num_bags == self@.len(),
                texts == bag_texts(self@, flag_sort),
                colon == seq![' ', ':', ' '],
                comma == seq![',', ' '],
                text@ == seq!['(', ' '] + written(texts, colon, index_a as int),
        {
            let mut bag = self.bag(index_a).clone();
            assert(bag@ =~= stored(self@[index_a as int]));
            if flag_sort {
                sort_labels(&mut bag);
            }
            assert(bag@ == shown(self@[index_a as int], flag_sort));
            let ghost head = text@;
            let ghost labels = Seq::new(bag@.len(), |k: int| seq![bag@[k]]);
            for index_b in 0..bag.len()
                invariant
                    comma == seq![',', ' '],
                    labels == Seq::new(bag@.len(), |k: int| seq![bag@[k]]),
                    text@ == head + written(labels, comma, index_b as int),
            {
                proof {
                    lemma_written_step(labels, comma, index_b as int);
                }
                let ghost so_far = text@;
                text.push(bag[index_b]);
                assert(text@ =~= so_far + labels[index_b as int]);
                if index_b != bag.len() - 1 {
                    text.push(',');
                    text.push(' ');
                    assert(text@ =~= so_far + labels[index_b as int] + comma);
                }
                assert(text@ =~= head + written(labels, comma, index_b + 1));
            }
            assert(text@ == head + texts[index_a as int]);
            proof {
                lemma_written_step(texts, colon, index_a as int);
            }
            if index_a != num_bags - 1 {
                text.push(' ');
                text.push(':');
                text.push(' ');
                assert(text@ =~= head + texts[index_a as int] + colon);
            }
            assert(text@ =~= seq!['(', ' '] + written(texts, colon, index_a + 1));
        }
        text.push(' ');
        text.push(')');
        assert(text@ =~= line(self@, flag_sort));
        text
    }
}

} // verus!
