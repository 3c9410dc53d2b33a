//! The hot buffer of the progressive Merkle tree: newly inserted vectors
//! wait here, visible to searches, until a merge drains them into the tree.

use vstd::prelude::*;

verus! {

/// A bounded-by-policy buffer of items in insertion order. Reaching the
/// capacity does not refuse inserts: it signals that a merge is due.
pub struct HotBuffer<T> {
    items: Vec<T>,
    capacity: usize,
}

impl<T> HotBuffer<T> {
    /// The buffered items, oldest first.
    pub closed spec fn contents(&self) -> Seq<T> {
        self.items@
    }

    /// The number of items at which a merge is due.
    pub closed spec fn capacity_spec(&self) -> usize {
        self.capacity
    }

    /// Create an empty buffer with the given capacity.
    pub fn new(capacity: usize) -> (r: Self)
        ensures
            r.contents() == Seq::<T>::empty(),
            r.capacity_spec() == capacity,
    {
        HotBuffer { items: Vec::new(), capacity }
    }

    /// Append an item; the answer says whether the buffer is now full
    /// (holds at least `capacity` items), so that a merge should start.
    pub fn insert(&mut self, item: T) -> (full: bool)
        ensures
            final(self).contents() == old(self).contents().push(item),
            final(self).capacity_spec() == old(self).capacity_spec(),
            full == (final(self).contents().len() >= final(self).capacity_spec()),
    {
        self.items.push(item);
        self.items.len() >= self.capacity
    }

    /// Take all buffered items, oldest first, leaving the buffer empty.
    pub fn drain(&mut self) -> (r: Vec<T>)
        ensures
            r@ == old(self).contents(),
            final(self).contents() == Seq::<T>::empty(),
            final(self).capacity_spec() == old(self).capacity_spec(),
    {
        let mut taken: Vec<T> = Vec::new();
        std::mem::swap(&mut taken, &mut self.items);
        taken
    }

    /// The buffered items, oldest first, for searching.
    pub fn items(&self) -> (r: &Vec<T>)
        ensures
            r@ == self.contents(),
    {
        &self.items
    }

    /// Number of buffered items.
    pub fn len(&self) -> (r: usize)
        ensures
            r == self.contents().len(),
    {
        self.items.len()
    }

    /// `true` when nothing is buffered.
    pub fn is_empty(&self) -> (r: bool)
        ensures
            r == (self.contents().len() == 0),
    {
        self.items.len() == 0
    }

    /// `true` when the buffer holds at least `capacity` items.
    pub fn is_full(&self) -> (r: bool)
        ensures
            r == (self.contents().len() >= self.capacity_spec()),
    {
        self.items.len() >= self.capacity
    }

    /// The capacity.
    pub fn capacity(&self) -> (r: usize)
        ensures
            r == self.capacity_spec(),
    {
        self.capacity
    }
}

} // verus!
