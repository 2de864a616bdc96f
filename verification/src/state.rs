//! The assignment that the walk mutates, stored with a placeholder in every
//! bag that has no items.

use vstd::prelude::*;
use crate::model::{is_items, items_of, shifted, stored, Bags, SENTINEL};

verus! {

/// A state is a row of bags, each holding any number of packages.
pub struct State {
    st: Vec<Vec<char>>,
    num_bags: usize,
}

impl View for State {
    type V = Bags;

    closed spec fn view(&self) -> Bags {
        Seq::new(self.st@.len(), |i: int| items_of(self.st@[i]@))
    }
}

impl State {
    /// The representation invariant: the bag count is the number of stored
    /// bags, and each stored bag is the placeholder alone or a non-empty run
    /// of real items.
    pub closed spec fn wf(&self) -> bool {
        &&& self.st@.len() == self.num_bags
        &&& forall|i: int|
            0 <= i < self.st@.len() ==> {
                &&& is_items(items_of(#[trigger] self.st@[i]@))
                &&& self.st@[i]@ == stored(items_of(self.st@[i]@))
            }
    }

    /// A state of `num_bags` bags, all of them empty.
    pub fn new(num_bags: usize) -> (state: Self)
        ensures
            state.wf(),
            state@ == Seq::new(num_bags as nat, |i: int| Seq::<char>::empty()),
    {
        let mut st: Vec<Vec<char>> = Vec::with_capacity(num_bags);
        for k in 0..num_bags
            invariant
                st@.len() == k,
                forall|i: int| 0 <= i < k ==> (#[trigger] st@[i])@ == seq![SENTINEL],
        {
            st.push(vec![SENTINEL]);
        }
        let state = State { st, num_bags };
        assert(state@ =~= Seq::new(num_bags as nat, |i: int| Seq::<char>::empty()));
        state
    }

    /// A snapshot of this state that shares nothing with it.
    pub fn clone_it(&self) -> (copy: Self)
        requires
            self.wf(),
        ensures
            copy.wf(),
            copy@ == self@,
    {
        let mut st_clone: Vec<Vec<char>> = Vec::with_capacity(self.st.len());
        for k in 0..self.st.len()
            invariant
                st_clone@.len() == k,
                forall|i: int| 0 <= i < k ==> (#[trigger] st_clone@[i])@ == self.st@[i]@,
        {
            let bag = self.st[k].clone();
            assert(bag@ =~= self.st@[k as int]@);
            st_clone.push(bag);
        }
        let copy = State { st: st_clone, num_bags: self.num_bags };
        assert(copy@ =~= self@);
        copy
    }

    /// Puts the given packages in bag `num_bag`, in place of what it held.
    /// No packages, or the placeholder alone, leave the bag empty.
    pub fn set_bag(&mut self, num_bag: usize, packages_vec: Vec<char>)
        requires
            old(self).wf(),
            num_bag < old(self)@.len(),
            is_items(packages_vec@) || packages_vec@ == seq![SENTINEL],
        ensures
            final(self).wf(),
            final(self)@ == old(self)@.update(num_bag as int, items_of(packages_vec@)),
    {
        if packages_vec.len() == 0 {
            self.st[num_bag] = vec![SENTINEL];
        } else {
            self.st[num_bag] = packages_vec;
        }
        proof {
            let after = old(self)@.update(num_bag as int, items_of(packages_vec@));
            assert forall|i: int| 0 <= i < self.st@.len() implies {
                &&& items_of(#[trigger] self.st@[i]@) =~= after[i]
                &&& is_items(after[i])
                &&& self.st@[i]@ =~= stored(after[i])
            } by {
                assert(is_items(items_of(old(self).st@[i]@)));
                assert(old(self).st@[i]@ == stored(items_of(old(self).st@[i]@)));
            }
            assert(self@ =~~= after);
        }
    }

    /// Whether the first bag holds no package.
    pub fn first_bag_is_empty(&self) -> (empty: bool)
        requires
            self.wf(),
            self@.len() >= 1,
        ensures
            empty == (self@[0].len() == 0),
    {
        self.st[0][0] == SENTINEL
    }

    /// Bag `num_bag` as it is stored: its packages in order, none of them
    /// the placeholder, or the placeholder alone where it has none.
    pub fn bag(&self, num_bag: usize) -> (bag: &Vec<char>)
        requires
            self.wf(),
            num_bag < self@.len(),
        ensures
            bag@ == stored(self@[num_bag as int]),
            is_items(self@[num_bag as int]),
    {
        &self.st[num_bag]
    }

    /// The number of bags.
    pub fn num_bags(&self) -> (n: usize)
        requires
            self.wf(),
        ensures
            n == self@.len(),
    {
        self.num_bags
    }

    /// Moves the last package of bag `start_pos` to the end of bag `end_pos`.
    /// A bag without packages gives nothing: the state stays as it is and
    /// the answer is `false`.
    pub fn shift_last_from_bags(&mut self, start_pos: usize, end_pos: usize) -> (moved: bool)
        requires
            old(self).wf(),
            start_pos < old(self)@.len(),
            end_pos < old(self)@.len(),
        ensures
            final(self).wf(),
            moved == (old(self)@[start_pos as int].len() > 0),
            moved ==> final(self)@ == shifted(old(self)@, start_pos as int, end_pos as int),
            !moved ==> *final(self) == *old(self),
    {
        if self.st[start_pos][0] == SENTINEL {
            return false;
        }
        let c = self.st[start_pos].pop().unwrap();
        if self.st[start_pos].len() == 0 {
            self.st[start_pos].push(SENTINEL);
        }
        if self.st[end_pos][0] == SENTINEL {
            self.st[end_pos].pop();
        }
        self.st[end_pos].push(c);
        proof {
            let before = old(self)@;
            let after = shifted(before, start_pos as int, end_pos as int);
            assert(self.st@.len() == before.len());
            assert forall|i: int| 0 <= i < self.st@.len() implies {
                &&& items_of(#[trigger] self.st@[i]@) =~= after[i]
                &&& is_items(after[i])
                &&& self.st@[i]@ =~= stored(after[i])
            } by {
                assert(is_items(items_of(old(self).st@[i]@)));
                assert(old(self).st@[i]@ == stored(items_of(old(self).st@[i]@)));
                assert(is_items(items_of(old(self).st@[start_pos as int]@)));
                assert(is_items(items_of(old(self).st@[end_pos as int]@)));
            }
            assert(self@ =~~= after);
        }
        true
    }
}

} // verus!
