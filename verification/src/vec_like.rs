//! A bounded-vector interface over caller-provided storage, and an
//! implementation backed by a pre-allocated buffer.

use vstd::prelude::*;

verus! {

/// A vector of bounded capacity: what the channel's caller-provided
/// stores offer.
pub trait VecLike<T>: Sized {
    /// The items currently held.
    spec fn items(&self) -> Seq<T>;

    /// The fixed capacity.
    spec fn spec_capacity(&self) -> nat;

    /// Appends an item, or hands it back when the store is full.
    fn push(&mut self, item: T) -> (r: Result<(), T>)
        ensures
            old(self).items().len() < old(self).spec_capacity() ==> r == Ok::<(), T>(()) && final(self).items() == old(self).items().push(item),
            old(self).items().len() >= old(self).spec_capacity() ==> (r matches Err(it) && it
                == item && final(self).items() == old(self).items()),
            final(self).spec_capacity() == old(self).spec_capacity(),
    ;

    /// The item at `index`, if it is within the storage.
    fn get(&self, index: usize) -> (r: Option<&T>)
        ensures
            index < self.items().len() ==> (r matches Some(it) && *it == self.items()[index as int]),
    ;

    /// The number of items held.
    fn len(&self) -> (r: usize)
        ensures
            r == self.items().len(),
    ;

    /// Whether no item is held.
    fn is_empty(&self) -> (r: bool)
        ensures
            r <==> self.items().len() == 0,
    ;

    /// The fixed capacity.
    fn capacity(&self) -> (r: usize)
        ensures
            r == self.spec_capacity(),
    ;

    /// Drops every item.
    fn clear(&mut self)
        ensures
            final(self).items().len() == 0,
            final(self).spec_capacity() == old(self).spec_capacity(),
    ;
}

/// A bounded vector over a pre-allocated buffer: the buffer's length
/// is the capacity, and the first `len` slots are the live items.
pub struct VecLikeSlice<T> {
    pub storage: Vec<T>,
    pub len: usize,
}

impl<T> VecLikeSlice<T> {
    /// Wraps a pre-allocated buffer; its length becomes the capacity
    /// and no item is live.
    pub fn new(storage: Vec<T>) -> (r: Self)
        ensures
            r.items().len() == 0,
            r.spec_capacity() == storage@.len(),
    {
        Self { storage, len: 0 }
    }
}

impl<T> VecLike<T> for VecLikeSlice<T> {
    open spec fn items(&self) -> Seq<T> {
        if self.len <= self.storage@.len() {
            self.storage@.take(self.len as int)
        } else {
            self.storage@
        }
    }


    open spec fn spec_capacity(&self) -> nat {
        self.storage@.len()
    }

    fn push(&mut self, item: T) -> (r: Result<(), T>) {
        if self.len < self.storage.len() {
            let ghost pre = self.storage@;
            let _ = self.storage.remove(self.len);
            self.storage.insert(self.len, item);
            self.len = self.len + 1;
            proof {
                assert(self.storage@.take(self.len as int) =~= old(self).items().push(item));
            }
            Ok(())
        } else {
            Err(item)
        }
    }

    fn get(&self, index: usize) -> (r: Option<&T>) {
        if index < self.storage.len() {
            proof {
                if index < self.items().len() {
                    assert(self.items()[index as int] == self.storage@[index as int]);
                }
            }
            Some(&self.storage[index])
        } else {
            None
        }
    }

    fn len(&self) -> (r: usize) {
        if self.len <= self.storage.len() {
            self.len
        } else {
            self.storage.len()
        }
    }

    fn is_empty(&self) -> (r: bool) {
        self.len == 0 || self.storage.len() == 0
    }

    fn capacity(&self) -> (r: usize) {
        self.storage.len()
    }

    fn clear(&mut self) {
        self.len = 0;
    }
}

} // verus!
