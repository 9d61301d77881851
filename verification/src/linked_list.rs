//! A doubly ended list of copyable values with positional access.
//!
//! In a bare-metal kernel this structure would be a pointer-linked list
//! whose first node lives in caller-provided storage, so that one element
//! can be held before any heap exists. Where a heap is available, one
//! owned growable buffer storing the values in list order gives the same
//! observable behaviour — a deque with removal at a position, linear
//! search, and cursor-style traversal — so that is the store used here,
//! and every operation is specified against the sequence of held values.

use vstd::prelude::*;

verus! {

/// A list of copyable values supporting insertion and removal at both
/// ends, removal at a position, and search.
pub struct DynLinkedList<T: Copy> {
    items: Vec<T>,
}

impl<T: Copy> View for DynLinkedList<T> {
    type V = Seq<T>;

    /// The held values, front to back.
    closed spec fn view(&self) -> Seq<T> {
        self.items@
    }
}

impl<T: Copy> DynLinkedList<T> {
    /// Creates an empty list.
    pub fn new() -> (r: Self)
        ensures
            r@ =~= Seq::<T>::empty(),
    {
        DynLinkedList { items: Vec::new() }
    }

    /// Whether the list holds no value.
    pub fn is_empty(&self) -> (r: bool)
        ensures
            r == (self@.len() == 0),
    {
        self.items.len() == 0
    }

    /// Number of held values.
    pub fn len(&self) -> (r: usize)
        ensures
            r == self@.len(),
    {
        self.items.len()
    }

    /// Appends `value` at the back.
    pub fn push_back(&mut self, value: T)
        ensures
            final(self)@ =~= old(self)@.push(value),
    {
        self.items.push(value);
    }

    /// Inserts `value` at the front.
    pub fn push_front(&mut self, value: T)
        ensures
            final(self)@ =~= seq![value] + old(self)@,
    {
        self.items.insert(0, value);
        proof {
            assert(self.items@ =~= seq![value] + old(self)@);
        }
    }

    /// Removes and returns the back value, or `None` on an empty list.
    pub fn pop_back(&mut self) -> (r: Option<T>)
        ensures
            old(self)@.len() == 0 ==> r is None && final(self)@ =~= old(self)@,
            old(self)@.len() > 0 ==> r == Some(old(self)@.last()) && final(self)@ =~= old(
                self,
            )@.drop_last(),
    {
        if self.items.len() == 0 {
            None
        } else {
            Some(self.items.pop().unwrap())
        }
    }

    /// Removes and returns the front value, or `None` on an empty list.
    pub fn pop_front(&mut self) -> (r: Option<T>)
        ensures
            old(self)@.len() == 0 ==> r is None && final(self)@ =~= old(self)@,
            old(self)@.len() > 0 ==> r == Some(old(self)@[0]) && final(self)@ =~= old(
                self,
            )@.subrange(1, old(self)@.len() as int),
    {
        if self.items.len() == 0 {
            None
        } else {
            let v = self.items.remove(0);
            proof {
                assert(self.items@ =~= old(self)@.subrange(1, old(self)@.len() as int));
            }
            Some(v)
        }
    }

    /// Removes and returns the value at position `at`.
    pub fn remove(&mut self, at: usize) -> (r: Option<T>)
        requires
            at < old(self)@.len(),
        ensures
            r == Some(old(self)@[at as int]),
            final(self)@ =~= old(self)@.remove(at as int),
    {
        let v = self.items.remove(at);
        Some(v)
    }

    /// Handle of the front value for cursor traversal: `0` on an empty
    /// list, otherwise a handle accepted by [`Self::next`].
    pub fn get_first_addr(&self) -> (r: usize)
        ensures
            self@.len() == 0 ==> r == 0,
            self@.len() > 0 ==> r == 1,
    {
        if self.items.len() == 0 {
            0
        } else {
            1
        }
    }

    /// Returns the value under the cursor and advances the cursor; a
    /// cursor of `0` means the traversal is finished. Cursors come from
    /// [`Self::get_first_addr`] and from previous `next` calls only.
    pub fn next(&self, p: &mut usize) -> (r: T)
        requires
            1 <= *old(p) <= self@.len(),
        ensures
            r == self@[*old(p) - 1],
            *final(p) == if *old(p) == self@.len() {
                0int
            } else {
                *old(p) + 1
            },
    {
        let v = self.items[*p - 1];
        if *p == self.items.len() {
            *p = 0;
        } else {
            *p = *p + 1;
        }
        v
    }

    /// The held values in list order, front to back; emitting them is
    /// left to the caller.
    pub fn print(&self) -> (r: Vec<T>)
        ensures
            r@ =~= self@,
    {
        let mut out: Vec<T> = Vec::new();
        let mut i: usize = 0;
        while i < self.items.len()
            invariant
                i <= self.items.len(),
                out@ =~= self.items@.subrange(0, i as int),
            decreases self.items.len() - i,
        {
            out.push(self.items[i]);
            i = i + 1;
            proof {
                assert(out@ =~= self.items@.subrange(0, i as int));
            }
        }
        proof {
            assert(self.items@.subrange(0, self.items@.len() as int) =~= self.items@);
        }
        out
    }

    /// The held values in reverse order, back to front; emitting them is
    /// left to the caller.
    pub fn print_rev(&self) -> (r: Vec<T>)
        ensures
            r@ =~= self@.reverse(),
    {
        let mut out: Vec<T> = Vec::new();
        let mut i: usize = self.items.len();
        while i > 0
            invariant
                i <= self.items.len(),
                out@.len() == self.items@.len() - i,
                forall|j: int|
                    0 <= j < out@.len() ==> #[trigger] out@[j] == self.items@[
                        self.items@.len() - 1 - j
                    ],
            decreases i,
        {
            i = i - 1;
            out.push(self.items[i]);
        }
        proof {
            assert(out@ =~= self@.reverse());
        }
        out
    }

    /// Releases every held value, leaving the list empty.
    pub fn destroy(ins: &mut Self)
        ensures
            final(ins)@ =~= Seq::<T>::empty(),
    {
        ins.items.clear();
    }
}

impl DynLinkedList<usize> {
    /// Position of the first occurrence of `value`, or `None` when the
    /// list does not hold it.
    pub fn find(&self, value: usize) -> (r: Option<usize>)
        ensures
            match r {
                Some(i) => i < self@.len() && self@[i as int] == value && forall|j: int|
                    0 <= j < i ==> self@[j] != value,
                None => forall|j: int| 0 <= j < self@.len() ==> self@[j] != value,
            },
    {
        let mut i: usize = 0;
        while i < self.items.len()
            invariant
                i <= self.items.len(),
                forall|j: int| 0 <= j < i ==> self.items@[j] != value,
            decreases self.items.len() - i,
        {
            if self.items[i] == value {
                return Some(i);
            }
            i = i + 1;
        }
        None
    }
}

} // verus!
