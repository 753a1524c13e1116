//! A doubly linked list interface over contiguous storage.
//!
//! The type offers pushing, popping and peeking at both ends, together with
//! forward, reverse, mutable and consuming iterators.  Elements live in a
//! growable buffer, so the recency links of a node-based list become plain
//! positions; the contracts speak of the sequence of elements from front to
//! back.

use vstd::prelude::*;

verus! {

/// A list of elements reachable from both ends.
pub struct DoublyLinkedList<T> {
    items: Vec<T>,
}

impl<T> View for DoublyLinkedList<T> {
    type V = Seq<T>;

    closed spec fn view(&self) -> Seq<T> {
        self.items@
    }
}

impl<T> DoublyLinkedList<T> {
    /// Creates an empty list.
    pub fn new() -> (list: Self)
        ensures
            list@ == Seq::<T>::empty(),
    {
        let list = DoublyLinkedList { items: Vec::new() };
        proof {
            assert(list@ =~= Seq::<T>::empty());
        }
        list
    }

    /// Adds `data` at the front.
    pub fn push_front(&mut self, data: T)
        ensures
            final(self)@ == seq![data] + old(self)@,
    {
        self.items.insert(0, data);
        proof {
            assert(final(self)@ =~= seq![data] + old(self)@);
        }
    }

    /// Adds `data` at the back.
    pub fn push_back(&mut self, data: T)
        ensures
            final(self)@ == old(self)@.push(data),
    {
        self.items.push(data);
    }

    /// Removes and returns the front element, if any.
    pub fn pop_front(&mut self) -> (r: Option<T>)
        ensures
            old(self)@.len() == 0 ==> r is None && final(self)@ == old(self)@,
            old(self)@.len() > 0 ==> r == Some(old(self)@[0]) && final(self)@ == old(self)@.drop_first(),
    {
        if self.items.len() == 0 {
            None
        } else {
            let data = self.items.remove(0);
            proof {
                assert(final(self)@ =~= old(self)@.drop_first());
            }
            Some(data)
        }
    }

    /// Removes and returns the back element, if any.
    pub fn pop_back(&mut self) -> (r: Option<T>)
        ensures
            old(self)@.len() == 0 ==> r is None && final(self)@ == old(self)@,
            old(self)@.len() > 0 ==> r == Some(old(self)@.last()) && final(self)@ == old(self)@.drop_last(),
    {
        self.items.pop()
    }

    /// Number of elements in the list.
    pub fn size(&self) -> (n: usize)
        ensures
            n == self@.len(),
    {
        self.items.len()
    }

    /// The front element, if any.
    pub fn peek_front(&self) -> (r: Option<&T>)
        ensures
            self@.len() == 0 ==> r is None,
            self@.len() > 0 ==> r is Some && *r.unwrap() == self@[0],
    {
        if self.items.len() == 0 {
            None
        } else {
            Some(&self.items[0])
        }
    }

    /// The back element, if any.
    pub fn peek_back(&self) -> (r: Option<&T>)
        ensures
            self@.len() == 0 ==> r is None,
            self@.len() > 0 ==> r is Some && *r.unwrap() == self@.last(),
    {
        if self.items.len() == 0 {
            None
        } else {
            Some(&self.items[self.items.len() - 1])
        }
    }

    /// A mutable borrow of the front element, if any.
    pub fn peek_front_mut(&mut self) -> (r: Option<&mut T>)
        ensures
            old(self)@.len() == 0 ==> r is None && final(self)@ == old(self)@,
            old(self)@.len() > 0 ==> r is Some && *r.unwrap() == old(self)@[0] && final(self)@
                == old(self)@.update(0, *final(r.unwrap())),
    {
        if self.items.len() == 0 {
            None
        } else {
            Some(&mut self.items[0])
        }
    }

    /// A mutable borrow of the back element, if any.
    pub fn peek_back_mut(&mut self) -> (r: Option<&mut T>)
        ensures
            old(self)@.len() == 0 ==> r is None && final(self)@ == old(self)@,
            old(self)@.len() > 0 ==> r is Some && *r.unwrap() == old(self)@.last() && final(self)@ == old(self)@.update(old(self)@.len() - 1, *final(r.unwrap())),
    {
        if self.items.len() == 0 {
            None
        } else {
            let last = self.items.len() - 1;
            Some(&mut self.items[last])
        }
    }

    /// An iterator over the list, front to back.
    pub fn iter(&self) -> (it: Iter<T>)
        ensures
            it.remaining() == self@,
    {
        Iter { list: self, index: 0 }
    }

    /// An iterator over the list, front to back, that hands out mutable
    /// borrows one at a time.
    pub fn iter_mut(&mut self) -> (it: IterMut<T>)
        ensures
            it.remaining_len() == old(self)@.len(),
    {
        IterMut { list: self, index: 0 }
    }

    /// An iterator over the list, back to front.
    pub fn iter_rev(&self) -> (it: IterRev<T>)
        ensures
            it.remaining() == self@,
    {
        IterRev { list: self, remaining: self.items.len() }
    }

    /// An iterator over the list, back to front, that hands out mutable
    /// borrows one at a time.
    pub fn iter_rev_mut(&mut self) -> (it: IterRevMut<T>)
        ensures
            it.remaining_len() == old(self)@.len(),
    {
        let remaining = self.items.len();
        IterRevMut { list: self, remaining }
    }

    /// A consuming iterator over the list, front to back.
    pub fn into_iter(self) -> (it: IntoIter<T>)
        ensures
            it.remaining() == self@,
    {
        IntoIter(self)
    }

    /// A consuming iterator over the list, back to front.
    pub fn into_iter_rev(self) -> (it: IntoIterRev<T>)
        ensures
            it.remaining() == self@,
    {
        IntoIterRev(self)
    }
}

/// An iterator over the list, front to back.
pub struct Iter<'a, T> {
    list: &'a DoublyLinkedList<T>,
    index: usize,
}

impl<'a, T> Iter<'a, T> {
    /// The elements not yet handed out.
    pub closed spec fn remaining(&self) -> Seq<T> {
        if self.index <= self.list@.len() {
            self.list@.skip(self.index as int)
        } else {
            Seq::empty()
        }
    }

    /// The next element, or `None` once the iterator is exhausted.
    pub fn next(&mut self) -> (r: Option<&'a T>)
        ensures
            old(self).remaining().len() == 0 ==> r is None && final(self).remaining() == old(self).remaining(),
            old(self).remaining().len() > 0 ==> r is Some && *r.unwrap() == old(self).remaining()[0] && final(self).remaining() == old(self).remaining().drop_first(),
    {
        if self.index < self.list.items.len() {
            let r = &self.list.items[self.index];
            self.index += 1;
            proof {
                assert(final(self).remaining() =~= old(self).remaining().drop_first());
            }
            Some(r)
        } else {
            proof {
                assert(final(self).remaining() =~= old(self).remaining());
            }
            None
        }
    }
}

/// An iterator over the list, back to front.
pub struct IterRev<'a, T> {
    list: &'a DoublyLinkedList<T>,
    remaining: usize,
}

impl<'a, T> IterRev<'a, T> {
    /// The elements not yet handed out, still in front-to-back order.
    pub closed spec fn remaining(&self) -> Seq<T> {
        if self.remaining <= self.list@.len() {
            self.list@.take(self.remaining as int)
        } else {
            Seq::empty()
        }
    }

    /// The element closest to the back that was not yet handed out, or
    /// `None` once the iterator is exhausted.
    pub fn next(&mut self) -> (r: Option<&'a T>)
        ensures
            old(self).remaining().len() == 0 ==> r is None && final(self).remaining() == old(self).remaining(),
            old(self).remaining().len() > 0 ==> r is Some && *r.unwrap() == old(self).remaining().last() && final(self).remaining() == old(self).remaining().drop_last(),
    {
        if self.remaining > 0 && self.remaining <= self.list.items.len() {
            let r = &self.list.items[self.remaining - 1];
            self.remaining -= 1;
            proof {
                assert(final(self).remaining() =~= old(self).remaining().drop_last());
            }
            Some(r)
        } else {
            proof {
                if self.remaining > self.list.items.len() {
                    assert(old(self).remaining().len() == 0);
                }
                assert(final(self).remaining() =~= old(self).remaining());
            }
            None
        }
    }
}

/// An iterator handing out mutable borrows, front to back.
pub struct IterMut<'a, T> {
    list: &'a mut DoublyLinkedList<T>,
    index: usize,
}

impl<'a, T> IterMut<'a, T> {
    /// How many elements were not yet handed out.
    pub closed spec fn remaining_len(&self) -> int {
        self.list@.len() - self.index
    }

    /// A mutable borrow of the next element, or `None` once the iterator is
    /// exhausted.
    pub fn next(&mut self) -> (r: Option<&mut T>)
        ensures
            r is Some <==> old(self).remaining_len() > 0,
            final(self).remaining_len() == if old(self).remaining_len() > 0 {
                old(self).remaining_len() - 1
            } else {
                old(self).remaining_len()
            },
    {
        if self.index < self.list.items.len() {
            let i = self.index;
            self.index += 1;
            Some(&mut self.list.items[i])
        } else {
            None
        }
    }
}

/// An iterator handing out mutable borrows, back to front.
pub struct IterRevMut<'a, T> {
    list: &'a mut DoublyLinkedList<T>,
    remaining: usize,
}

impl<'a, T> IterRevMut<'a, T> {
    /// How many elements were not yet handed out.
    pub closed spec fn remaining_len(&self) -> int {
        if self.remaining <= self.list@.len() {
            self.remaining as int
        } else {
            0
        }
    }

    /// A mutable borrow of the element closest to the back that was not yet
    /// handed out, or `None` once the iterator is exhausted.
    pub fn next(&mut self) -> (r: Option<&mut T>)
        ensures
            r is Some <==> old(self).remaining_len() > 0,
            final(self).remaining_len() == if old(self).remaining_len() > 0 {
                old(self).remaining_len() - 1
            } else {
                old(self).remaining_len()
            },
    {
        if self.remaining > 0 && self.remaining <= self.list.items.len() {
            let i = self.remaining - 1;
            self.remaining -= 1;
            Some(&mut self.list.items[i])
        } else {
            None
        }
    }
}

/// A consuming iterator over the list, front to back.
pub struct IntoIter<T>(DoublyLinkedList<T>);

impl<T> IntoIter<T> {
    /// The elements not yet handed out.
    pub closed spec fn remaining(&self) -> Seq<T> {
        self.0@
    }

    /// The next element, or `None` once the list is exhausted.
    pub fn next(&mut self) -> (r: Option<T>)
        ensures
            old(self).remaining().len() == 0 ==> r is None && final(self).remaining() == old(self).remaining(),
            old(self).remaining().len() > 0 ==> r == Some(old(self).remaining()[0]) && final(self).remaining() == old(self).remaining().drop_first(),
    {
        self.0.pop_front()
    }
}

/// A consuming iterator over the list, back to front.
pub struct IntoIterRev<T>(DoublyLinkedList<T>);

impl<T> IntoIterRev<T> {
    /// The elements not yet handed out, still in front-to-back order.
    pub closed spec fn remaining(&self) -> Seq<T> {
        self.0@
    }

    /// The back element, or `None` once the list is exhausted.
    pub fn next(&mut self) -> (r: Option<T>)
        ensures
            old(self).remaining().len() == 0 ==> r is None && final(self).remaining() == old(self).remaining(),
            old(self).remaining().len() > 0 ==> r == Some(old(self).remaining().last()) && final(self).remaining() == old(self).remaining().drop_last(),
    {
        self.0.pop_back()
    }
}

} // verus!
