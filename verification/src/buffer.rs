//! The bounded queue itself: a fixed-size vector of optional slots with a
//! read cursor (`front`) and a write cursor (`back`), both advancing modulo
//! the capacity. The occupied slots always form one contiguous circular run
//! from `front` (inclusive) to `back` (exclusive).

use vstd::prelude::*;
use vstd::arithmetic::div_mod::lemma_mod_self_0;
use vstd::arithmetic::div_mod::lemma_small_mod;
use vstd::pervasive::unreached;

verus! {

/// Error kinds reported by [`BoundedBuffer`] operations.
#[derive(Clone, Copy, Debug, PartialEq, Eq, Structural)]
pub enum BufferError {
    /// A push was refused: every slot is occupied.
    Full,
    /// A pop was refused: no element is held.
    Empty,
}

/// What a push does to a queue holding `s` with the given `capacity`: while
/// there is room the item is appended at the back; on a full queue the push
/// is refused as `Full` and the contents stay as they were.
pub open spec fn spec_push<T>(s: Seq<T>, capacity: int, item: T) -> (Result<(), BufferError>, Seq<T>) {
    if s.len() < capacity {
        (Ok(()), s.push(item))
    } else {
        (Err(BufferError::Full), s)
    }
}

/// What a pop does to a queue holding `s`: while an element is held the
/// oldest one is removed and returned; on an empty queue the pop is refused
/// as `Empty` and the contents stay as they were.
pub open spec fn spec_pop<T>(s: Seq<T>) -> (Result<T, BufferError>, Seq<T>) {
    if s.len() > 0 {
        (Ok(s[0]), s.drop_first())
    } else {
        (Err(BufferError::Empty), s)
    }
}

/// Implements a circular FIFO queue as a fixed-size vector of slots.
pub struct BoundedBuffer<T> {
    /// Each slot holds either one element or nothing.
    list: Vec<Option<T>>,
    /// Fixed capacity, set at construction and immutable thereafter.
    size: usize,
    /// Index of the next slot to read: the oldest held element.
    front: usize,
    /// Index of the next slot to write.
    back: usize,
}

impl<T> BoundedBuffer<T> {
    /// The fixed capacity the queue was constructed with.
    pub closed spec fn capacity(&self) -> int {
        self.size as int
    }

    /// Physical slot index of the `k`-th oldest element: `front + k`,
    /// wrapped once past the end of the storage.
    closed spec fn slot(&self, k: int) -> int {
        if self.front + k < self.size {
            self.front + k
        } else {
            self.front + k - self.size
        }
    }

    /// Number of elements currently held, read off the two cursors; when
    /// they coincide, the slot at `front` decides between empty and full.
    closed spec fn occupied(&self) -> int {
        if self.front == self.back {
            if self.list@[self.front as int] is Some {
                self.size as int
            } else {
                0
            }
        } else if self.front < self.back {
            self.back - self.front
        } else {
            self.size - self.front + self.back
        }
    }

    /// Well-formedness: the storage is fully allocated, both cursors are in
    /// range, and a slot is occupied exactly when it lies in the circular
    /// run of `occupied()` slots starting at `front`.
    pub closed spec fn wf(&self) -> bool {
        &&& 1 <= self.size
        &&& self.list@.len() == self.size
        &&& self.front < self.size
        &&& self.back < self.size
        &&& forall|k: int|
            0 <= k < self.size ==> ((#[trigger] self.list@[self.slot(k)]) is Some <==> k
                < self.occupied())
    }

    /// Create a new queue with room for exactly `size` elements.
    ///
    /// The capacity is fixed for the queue's whole life, so a non-positive
    /// capacity is a contract violation by the caller, not a runtime
    /// condition: `size` must be at least one.
    pub fn new(size: usize) -> (r: BoundedBuffer<T>)
        requires
            size >= 1,
        ensures
            r.wf(),
            r.capacity() == size,
            r@ == Seq::<T>::empty(),
    {
        let mut list: Vec<Option<T>> = Vec::with_capacity(size);
        let mut i: usize = 0;
        while i < size
            invariant
                i <= size,
                list@.len() == i,
                forall|j: int| 0 <= j < i ==> list@[j] is None,
            decreases size - i,
        {
            list.push(None);
            i = i + 1;
        }
        let r = BoundedBuffer { list, size, front: 0, back: 0 };
        proof {
            assert(r.occupied() == 0);
            assert forall|k: int| 0 <= k < r.size implies !((#[trigger] r.list@[r.slot(k)])
                is Some) by {
                assert(r.slot(k) == k);
            }
            assert(r@ =~= Seq::<T>::empty());
        }
        r
    }

    /// Push a new item at the back of the queue.
    ///
    /// The push is refused with [`BufferError::Full`], leaving the queue
    /// unchanged, exactly when the queue already holds `capacity` elements;
    /// otherwise the item is appended behind the held ones.
    pub fn push(&mut self, item: T) -> (r: Result<(), BufferError>)
        requires
            old(self).wf(),
        ensures
            final(self).wf(),
            final(self).capacity() == old(self).capacity(),
            (r, final(self)@) == spec_push(old(self)@, old(self).capacity(), item),
    {
        if self.front == self.back && self.list[self.front].is_some() {
            proof {
                assert(self@.len() == self.capacity());
            }
            Err(BufferError::Full)
        } else {
            let ghost l: int = self.occupied();
            proof {
                assert(old(self).slot(0) == old(self).front as int);
                assert((old(self).list@[old(self).slot(0)]) is Some <==> 0 < l);
                assert(l < old(self).size);
                assert(old(self).slot(l) == old(self).back as int);
            }
            self.list.set(self.back, Some(item));
            let next: usize = self.back + 1;
            self.back = next % self.size;
            proof {
                if next < self.size {
                    lemma_small_mod(next as nat, self.size as nat);
                } else {
                    lemma_mod_self_0(self.size as int);
                }
                assert(self.back as int == if next < self.size {
                    next as int
                } else {
                    0
                });
                assert(self.occupied() == l + 1);
                assert forall|k: int|
                    0 <= k < self.size implies ((#[trigger] self.list@[self.slot(k)]) is Some <==> k
                    < self.occupied()) by {
                    assert(self.slot(k) == old(self).slot(k));
                    if k != l {
                        assert(self.slot(k) != old(self).back as int);
                        assert((old(self).list@[old(self).slot(k)]) is Some <==> k < l);
                    }
                }
                assert(self@ =~= old(self)@.push(item)) by {
                    assert forall|k: int| 0 <= k < l + 1 implies self@[k] == old(self)@.push(item)[k]
                        by {
                        assert(self.slot(k) == old(self).slot(k));
                        if k < l {
                            assert(self.slot(k) != old(self).back as int);
                        }
                    }
                }
            }
            Ok(())
        }
    }

    /// Pop the oldest item in the queue.
    ///
    /// The pop is refused with [`BufferError::Empty`], leaving the queue
    /// unchanged, exactly when the queue holds no element; otherwise the
    /// oldest element is moved out of its slot and returned.
    pub fn pop(&mut self) -> (r: Result<T, BufferError>)
        requires
            old(self).wf(),
        ensures
            final(self).wf(),
            final(self).capacity() == old(self).capacity(),
            (r, final(self)@) == spec_pop(old(self)@),
    {
        if self.list[self.front].is_none() {
            proof {
                assert(old(self).slot(0) == old(self).front as int);
                assert((old(self).list@[old(self).slot(0)]) is Some <==> 0 < old(self).occupied());
                assert(self@.len() == 0);
            }
            Err(BufferError::Empty)
        } else {
            let ghost l: int = self.occupied();
            proof {
                assert(old(self).slot(0) == old(self).front as int);
                assert((old(self).list@[old(self).slot(0)]) is Some <==> 0 < l);
                assert(1 <= l);
            }
            let mut taken: Option<T> = None;
            self.list.set_and_swap(self.front, &mut taken);
            let next: usize = self.front + 1;
            self.front = next % self.size;
            proof {
                if next < self.size {
                    lemma_small_mod(next as nat, self.size as nat);
                } else {
                    lemma_mod_self_0(self.size as int);
                }
                assert(self.front as int == if next < self.size {
                    next as int
                } else {
                    0
                });
                if old(self).size > 1 {
                    assert(old(self).slot(1) == self.front as int);
                    assert((old(self).list@[old(self).slot(1)]) is Some <==> 1 < l);
                }
                assert(self.occupied() == l - 1);
                assert forall|k: int|
                    0 <= k < self.size implies ((#[trigger] self.list@[self.slot(k)]) is Some <==> k
                    < self.occupied()) by {
                    if k == self.size - 1 {
                        assert(self.slot(k) == old(self).front as int);
                    } else {
                        assert(self.slot(k) == old(self).slot(k + 1));
                        assert(old(self).slot(k + 1) != old(self).front as int);
                        assert((old(self).list@[old(self).slot(k + 1)]) is Some <==> k + 1 < l);
                    }
                }
                assert(self@ =~= old(self)@.drop_first()) by {
                    assert forall|k: int|
                        0 <= k < l - 1 implies self@[k] == old(self)@.drop_first()[k] by {
                        assert(self.slot(k) == old(self).slot(k + 1));
                        assert(old(self).slot(k + 1) != old(self).front as int);
                    }
                }
                assert(taken == Some(old(self)@[0]));
            }
            match taken {
                Some(v) => Ok(v),
                None => unreached(),
            }
        }
    }
}

impl<T> View for BoundedBuffer<T> {
    type V = Seq<T>;

    /// The elements currently held, oldest first.
    closed spec fn view(&self) -> Seq<T> {
        Seq::new(self.occupied() as nat, |k: int| self.list@[self.slot(k)]->Some_0)
    }
}

} // verus!
