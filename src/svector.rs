//! A vector whose capacity is fixed when it is made, with its region of the
//! arena reserved for its whole life.

use vstd::prelude::*;
use crate::allocator::{
    alloc_outcome, array_words, free_outcome, obj_words, AllocError, StaticAllocator,
};

verus! {

/// A sequence of at most `capacity` values of `T`. Making one reserves the
/// arena words that `capacity` values take; pushing and removing change only
/// the sequence, never the arena. The words go back to the arena through
/// `release`; a vector dropped without it keeps them reserved.
pub struct SVector<T> {
    elements: Vec<T>,
    capacity: usize,
    offset: usize,
}

impl<T> View for SVector<T> {
    type V = Seq<T>;

    /// The values held, in order.
    closed spec fn view(&self) -> Seq<T> {
        self.elements@
    }
}

impl<T> SVector<T> {
    /// The capacity fixed when the vector was made.
    pub closed spec fn spec_capacity(&self) -> nat {
        self.capacity as nat
    }

    /// Offset in words of the arena region the vector holds.
    pub closed spec fn spec_offset(&self) -> nat {
        self.offset as nat
    }

    /// The vector holds no more values than its capacity.
    pub open spec fn wf(&self) -> bool {
        self@.len() <= self.spec_capacity()
    }

    /// An empty vector of capacity `n`, holding the first fit in `arena`
    /// for `n` values of `T`; fails with `Exhausted`, leaving the arena as
    /// it was, where no group has room for them.
    pub fn new(arena: &mut StaticAllocator, n: usize) -> (r: Result<SVector<T>, AllocError>)
        requires
            old(arena).wf(),
            vstd::layout::size_of::<T>() > 0,
        ensures
            match r {
                Ok(v) => {
                    &&& v.wf()
                    &&& v@ == Seq::<T>::empty()
                    &&& v.spec_capacity() == n
                    &&& alloc_outcome(
                        old(arena)@,
                        array_words::<T>(n as nat),
                        obj_words::<T>(),
                        Ok(v.spec_offset() as usize),
                        final(arena)@,
                    )
                },
                Err(e) => alloc_outcome(
                    old(arena)@,
                    array_words::<T>(n as nat),
                    obj_words::<T>(),
                    Err(e),
                    final(arena)@,
                ),
            },
    {
        match arena.alloc_obj_mult::<T>(n) {
            Ok(offset) => Ok(SVector { elements: Vec::with_capacity(n), capacity: n, offset }),
            Err(e) => Err(e),
        }
    }

    /// Number of values held.
    pub fn size(&self) -> (r: usize)
        ensures
            r == self@.len(),
    {
        self.elements.len()
    }

    /// The capacity fixed when the vector was made.
    pub fn capacity(&self) -> (r: usize)
        ensures
            r == self.spec_capacity(),
    {
        self.capacity
    }

    /// Offset in words of the arena region the vector holds.
    pub fn offset(&self) -> (r: usize)
        ensures
            r == self.spec_offset(),
    {
        self.offset
    }

    /// The value at `idx`, or `None` where `idx` is not below the size.
    pub fn get(&self, idx: usize) -> (r: Option<&T>)
        ensures
            idx < self@.len() ==> r == Some(&self@[idx as int]),
            idx >= self@.len() ==> r is None,
    {
        if idx < self.elements.len() {
            Some(&self.elements[idx])
        } else {
            None
        }
    }

    /// A mutable borrow of the value at `idx`, or `None` where `idx` is not
    /// below the size.
    pub fn get_mut(&mut self, idx: usize) -> (r: Option<&mut T>)
        ensures
            final(self).spec_capacity() == old(self).spec_capacity(),
            final(self).spec_offset() == old(self).spec_offset(),
            idx < old(self)@.len() ==> r is Some && *r->Some_0 == old(self)@[idx as int]
                && final(self)@ == old(self)@.update(idx as int, *final(r->Some_0)),
            idx >= old(self)@.len() ==> r is None && final(self)@ == old(self)@,
    {
        if idx < self.elements.len() {
            Some(&mut self.elements[idx])
        } else {
            None
        }
    }
}

impl<T> SVector<T> {
    /// Removes the value at `idx`, shifting the later ones down by one; does
    /// nothing where `idx` is not below the size.
    pub fn remove(&mut self, idx: usize)
        ensures
            final(self).spec_capacity() == old(self).spec_capacity(),
            final(self).spec_offset() == old(self).spec_offset(),
            final(self)@ == (if idx < old(self)@.len() {
                old(self)@.remove(idx as int)
            } else {
                old(self)@
            }),
    {
        if idx < self.elements.len() {
            self.elements.remove(idx);
        }
    }

    /// Removes the last value; does nothing on an empty vector.
    pub fn pop(&mut self)
        ensures
            final(self).spec_capacity() == old(self).spec_capacity(),
            final(self).spec_offset() == old(self).spec_offset(),
            final(self)@ == (if old(self)@.len() > 0 {
                old(self)@.drop_last()
            } else {
                old(self)@
            }),
    {
        if self.elements.len() > 0 {
            let last = self.elements.len() - 1;
            self.remove(last);
            assert(self@ =~= old(self)@.drop_last());
        }
    }

    /// Appends `val` where the size is below the capacity; on a full vector
    /// fails with `CapacityOverflow` and changes nothing.
    pub fn push_back(&mut self, val: T) -> (r: Result<(), AllocError>)
        ensures
            final(self).spec_capacity() == old(self).spec_capacity(),
            final(self).spec_offset() == old(self).spec_offset(),
            old(self)@.len() < old(self).spec_capacity() ==> r == Ok::<(), AllocError>(())
                && final(self)@ == old(self)@.push(val),
            old(self)@.len() >= old(self).spec_capacity() ==> r == Err::<(), AllocError>(
                AllocError::CapacityOverflow,
            ) && final(self)@ == old(self)@,
    {
        if self.elements.len() < self.capacity {
            self.elements.push(val);
            Ok(())
        } else {
            Err(AllocError::CapacityOverflow)
        }
    }

    /// Hands the vector's whole region, `capacity` values' worth, back to
    /// `arena`. Taking the vector by value makes a second release
    /// impossible.
    pub fn release(self, arena: &mut StaticAllocator) -> (r: Result<(), AllocError>)
        ensures
            free_outcome(
                old(arena)@,
                self.spec_offset(),
                array_words::<T>(self.spec_capacity()),
                r,
                final(arena)@,
            ),
    {
        arena.dealloc_obj_mult::<T>(self.offset, self.capacity)
    }
}

/// Removing the last value and popping agree: on a non-empty sequence,
/// `remove(len - 1)` gives what `pop` gives.
pub proof fn lemma_pop_is_remove_last<T>(s: Seq<T>)
    requires
        s.len() > 0,
    ensures
        s.remove(s.len() - 1) == s.drop_last(),
{
    assert(s.remove(s.len() - 1) =~= s.drop_last());
}

/// Removing the value at `i` keeps the others in their order: those before
/// `i` stay where they were, those after move down by one.
pub proof fn lemma_remove_keeps_order<T>(s: Seq<T>, i: int)
    requires
        0 <= i < s.len(),
    ensures
        s.remove(i).len() == s.len() - 1,
        forall|j: int| 0 <= j < i ==> #[trigger] s.remove(i)[j] == s[j],
        forall|j: int| i <= j < s.len() - 1 ==> #[trigger] s.remove(i)[j] == s[j + 1],
{
}

} // verus!
