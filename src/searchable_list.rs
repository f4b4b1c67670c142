//! A singly linked list that can also be searched and have items removed.
use vstd::prelude::*;

use vstd::std_specs::cmp::PartialEqSpec;

use crate::linked_list::holds;
use crate::linked_list::remove_first;

verus! {

/// A singly linked list of `Copy` items compared with `==`.
pub struct LinkedList<T> {
    items: crate::linked_list::LinkedList<T>,
}

impl<T> View for LinkedList<T> {
    type V = Seq<T>;

    closed spec fn view(&self) -> Seq<T> {
        self.items@
    }
}

impl<T: Copy + PartialEq> LinkedList<T> {
    /// The recorded length is the number of items.
    pub closed spec fn wf(&self) -> bool {
        self.items.wf()
    }

    /// An empty list.
    pub fn new() -> (r: Self)
        ensures
            r.wf(),
            r@ == Seq::<T>::empty(),
    {
        LinkedList { items: crate::linked_list::LinkedList::new() }
    }

    /// The number of items.
    pub fn len(&self) -> (r: usize)
        requires
            self.wf(),
        ensures
            r == self@.len(),
    {
        self.items.len()
    }

    /// The first item, if any.
    pub fn get_head(&self) -> (r: Option<T>)
        ensures
            r == (if self@.len() == 0 {
                None::<T>
            } else {
                Some(self@[0])
            }),
    {
        self.items.get_head()
    }

    /// The last item, if any.
    pub fn get_tail(&self) -> (r: Option<T>)
        ensures
            r == (if self@.len() == 0 {
                None::<T>
            } else {
                Some(self@.last())
            }),
    {
        self.items.get_tail()
    }

    /// Appends `data` at the tail.
    pub fn append(&mut self, data: T)
        requires
            old(self).wf(),
            old(self)@.len() < usize::MAX,
        ensures
            final(self).wf(),
            final(self)@ == old(self)@.push(data),
    {
        self.items.append(data);
    }

    /// Removes the first item that equals `data`; the list is unchanged when
    /// no item does.
    pub fn delete(&mut self, data: T)
        requires
            old(self).wf(),
        ensures
            final(self).wf(),
            T::obeys_eq_spec() ==> final(self)@ == remove_first(old(self)@, data),
    {
        self.items.remove_item(data);
    }

    /// Whether some item equals `data`.
    pub fn contains(&self, data: T) -> (r: bool)
        ensures
            T::obeys_eq_spec() ==> r == holds(self@, data),
    {
        self.items.contains_item(data)
    }
}

} // verus!
