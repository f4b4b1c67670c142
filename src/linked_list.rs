//! A singly linked list that appends at the tail.
use vstd::prelude::*;

use vstd::std_specs::cmp::PartialEqSpec;

verus! {

struct Node<T> {
    data: T,
    next: Option<Box<Node<T>>>,
}

/// The items held by the chain of nodes starting at `link`, in order.
spec fn chain_view<T>(link: Option<Box<Node<T>>>) -> Seq<T>
    decreases link,
{
    match link {
        None => Seq::empty(),
        Some(node) => seq![node.data].add(chain_view(node.next)),
    }
}

/// `s` with its first item equal to `x` removed; `s` itself when none is.
pub open spec fn remove_first<T: PartialEq>(s: Seq<T>, x: T) -> Seq<T>
    decreases s.len(),
{
    if s.len() == 0 {
        s
    } else if s[0].eq_spec(&x) {
        s.drop_first()
    } else {
        seq![s[0]].add(remove_first(s.drop_first(), x))
    }
}

/// Whether some item of `s` equals `x`.
pub open spec fn holds<T: PartialEq>(s: Seq<T>, x: T) -> bool {
    exists|k: int| 0 <= k < s.len() && (#[trigger] s[k]).eq_spec(&x)
}

fn chain_push<T>(link: &mut Option<Box<Node<T>>>, data: T)
    ensures
        chain_view(*final(link)) == chain_view(*old(link)).push(data),
    decreases chain_view(*old(link)).len(),
{
    match link {
        None => {
            *link = Some(Box::new(Node { data, next: None }));
            assert(chain_view(*link) =~= seq![data]);
        },
        Some(node) => {
            assert(chain_view(node.next).len() < chain_view(*old(link)).len());
            chain_push(&mut node.next, data);
            assert(chain_view(*link) =~= chain_view(*old(link)).push(data));
        },
    }
}

fn chain_last<T: Copy>(link: &Option<Box<Node<T>>>) -> (r: Option<T>)
    ensures
        r == (if chain_view(*link).len() == 0 {
            None::<T>
        } else {
            Some(chain_view(*link).last())
        }),
    decreases chain_view(*link).len(),
{
    match link {
        None => None,
        Some(node) => {
            assert(chain_view(*link) =~= seq![node.data].add(chain_view(node.next)));
            match &node.next {
                None => {
                    assert(chain_view(node.next) =~= Seq::<T>::empty());
                    Some(node.data)
                },
                Some(_) => chain_last(&node.next),
            }
        },
    }
}

fn chain_contains<T: Copy + PartialEq>(link: &Option<Box<Node<T>>>, data: T) -> (r: bool)
    ensures
        T::obeys_eq_spec() ==> r == holds(chain_view(*link), data),
    decreases chain_view(*link).len(),
{
    match link {
        None => false,
        Some(node) => {
            let here = node.data == data;
            let ghost s = chain_view(*link);
            assert(s[0] == node.data);
            assert(forall|k: int| 0 < k < s.len() ==> s[k] == chain_view(node.next)[k - 1]);
            assert(forall|k: int| 0 <= k < chain_view(node.next).len() ==> chain_view(node.next)[k] == s[k + 1]);
            if here {
                true
            } else {
                chain_contains(&node.next, data)
            }
        },
    }
}

fn chain_remove<T: Copy + PartialEq>(link: &mut Option<Box<Node<T>>>, data: T) -> (removed: bool)
    ensures
        removed ==> chain_view(*final(link)).len() + 1 == chain_view(*old(link)).len(),
        !removed ==> chain_view(*final(link)) == chain_view(*old(link)),
        T::obeys_eq_spec() ==> removed == holds(chain_view(*old(link)), data),
        T::obeys_eq_spec() ==> chain_view(*final(link)) == remove_first(chain_view(*old(link)), data),
    decreases chain_view(*old(link)).len(),
{
    let ghost s = chain_view(*link);
    match link.take() {
        None => false,
        Some(node) => {
            let mut node = node;
            assert(s.drop_first() =~= chain_view(node.next));
            assert(forall|k: int| 0 < k < s.len() ==> s[k] == chain_view(node.next)[k - 1]);
            assert(forall|k: int| 0 <= k < chain_view(node.next).len() ==> chain_view(node.next)[k] == s[k + 1]);
            let ghost rest = chain_view(node.next);
            proof {
                if T::obeys_eq_spec() {
                    if holds(s, data) && !s[0].eq_spec(&data) {
                        let k = choose|k: int| 0 <= k < s.len() && (#[trigger] s[k]).eq_spec(&data);
                        assert(rest[k - 1].eq_spec(&data));
                    }
                    if holds(rest, data) {
                        let k = choose|k: int| 0 <= k < rest.len() && (#[trigger] rest[k]).eq_spec(&data);
                        assert(s[k + 1].eq_spec(&data));
                    }
                }
            }
            assert(s[0] == node.data);
            if node.data == data {
                proof {
                    if T::obeys_eq_spec() {
                        assert(s[0].eq_spec(&data));
                    }
                }
                *link = node.next;
                true
            } else {
                let removed = chain_remove(&mut node.next, data);
                *link = Some(node);
                proof {
                    assert(chain_view(*link) =~= seq![s[0]].add(chain_view(node.next)));
                    if !removed {
                        assert(chain_view(*link) =~= s);
                    }
                    if T::obeys_eq_spec() {
                        assert(chain_view(*link) =~= seq![s[0]].add(remove_first(s.drop_first(), data)));
                    }
                }
                removed
            }
        },
    }
}

/// A singly linked list of `Copy` items.
pub struct LinkedList<T> {
    length: usize,
    head: Option<Box<Node<T>>>,
}

impl<T> View for LinkedList<T> {
    type V = Seq<T>;

    closed spec fn view(&self) -> Seq<T> {
        chain_view(self.head)
    }
}

impl<T: Copy> LinkedList<T> {
    /// The recorded length is the number of items.
    pub closed spec fn wf(&self) -> bool {
        self.length == chain_view(self.head).len()
    }

    /// An empty list.
    pub fn new() -> (r: Self)
        ensures
            r.wf(),
            r@ == Seq::<T>::empty(),
    {
        LinkedList { length: 0, head: None }
    }

    /// The number of items.
    pub fn len(&self) -> (r: usize)
        requires
            self.wf(),
        ensures
            r == self@.len(),
    {
        self.length
    }

    /// The first item, if any.
    pub fn get_head(&self) -> (r: Option<T>)
        ensures
            r == (if self@.len() == 0 {
                None::<T>
            } else {
                Some(self@[0])
            }),
    {
        match &self.head {
            Some(head) => Some(head.data),
            None => None,
        }
    }

    /// The last item, if any.
    pub fn get_tail(&self) -> (r: Option<T>)
        ensures
            r == (if self@.len() == 0 {
                None::<T>
            } else {
                Some(self@.last())
            }),
    {
        chain_last(&self.head)
    }

    /// Appends `data` at the tail.
    pub fn append(&mut self, data: T)
        requires
            old(self).wf(),
            old(self)@.len() < usize::MAX,
        ensures
            final(self).wf(),
            final(self)@ == old(self)@.push(data),
    {
        chain_push(&mut self.head, data);
        self.length = self.length + 1;
    }

    /// Whether some item equals `data`.
    pub(crate) fn contains_item(&self, data: T) -> (r: bool)
        where
            T: PartialEq,
        ensures
            T::obeys_eq_spec() ==> r == holds(self@, data),
    {
        chain_contains(&self.head, data)
    }

    /// Removes the first item that equals `data`, if there is one.
    pub(crate) fn remove_item(&mut self, data: T)
        where
            T: PartialEq,
        requires
            old(self).wf(),
        ensures
            final(self).wf(),
            T::obeys_eq_spec() ==> final(self)@ == remove_first(old(self)@, data),
    {
        let removed = chain_remove(&mut self.head, data);
        if removed {
            self.length = self.length - 1;
        }
    }
}

} // verus!
