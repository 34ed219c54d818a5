use vstd::prelude::*;

use super::buffer_guard::{wrap_index, BufferGuard};
use crate::render::{deref_all, listed, render_list};
use std::fmt::Display;

verus! {

/// Number of slots a new deque starts with.
pub const DEQUE_START_SIZE: usize = 10;

/// Number of slots added each time a full deque grows.
pub const DEQUE_SIZE_INCREMENT: usize = 10;

/// A double-ended queue over a circular buffer that grows when full.
///
/// The live elements sit in the circular range of `length` slots starting at
/// `head_index`; `tail_index` is the slot of the last one.
pub struct Deque<T> {
    size: usize,
    length: usize,
    buffer: BufferGuard<T>,
    head_index: usize,
    tail_index: usize,
}

impl<T> View for Deque<T> {
    type V = Seq<T>;

    /// The elements from head to tail.
    closed spec fn view(&self) -> Seq<T> {
        Seq::new(self.length as nat, |k: int| self.slot_at(k)->Some_0)
    }
}

impl<T> Deque<T> {
    /// Content of the slot that holds logical position `k`.
    closed spec fn slot_at(&self, k: int) -> Option<T> {
        self.buffer@[wrap_index(self.head_index as int, k, self.size as int)]
    }

    /// Logical position of physical slot `j`, counted from the head.
    closed spec fn offset_of(&self, j: int) -> int {
        if j >= self.head_index {
            j - self.head_index
        } else {
            j + self.size - self.head_index
        }
    }

    /// The internal invariant: the buffer has the starting size plus whole
    /// increments, the indices are in range, the live range is filled and
    /// every other slot is empty, and the tail index is at the last live
    /// slot.
    pub closed spec fn wf(&self) -> bool {
        &&& self.buffer@.len() == self.size
        &&& self.size >= DEQUE_START_SIZE
        &&& (self.size - DEQUE_START_SIZE) % (DEQUE_SIZE_INCREMENT as int) == 0
        &&& self.length <= self.size
        &&& self.head_index < self.size
        &&& self.tail_index < self.size
        &&& self.length == 0 ==> self.tail_index == self.head_index
        &&& self.length > 0 ==> self.tail_index == wrap_index(
            self.head_index as int,
            self.length - 1,
            self.size as int,
        )
        &&& forall|k: int|
            0 <= k < self.length ==> (#[trigger] self.buffer@[wrap_index(
                self.head_index as int,
                k,
                self.size as int,
            )]) is Some
        &&& forall|j: int|
            0 <= j < self.size && (#[trigger] self.buffer@[j]) is Some ==> self.offset_of(j)
                < self.length
    }

    /// Number of slots in the current buffer.
    pub closed spec fn capacity(&self) -> nat {
        self.size as nat
    }

    /// Capacity after making room for one more element.
    pub open spec fn capacity_after_push(&self) -> nat {
        if self@.len() == self.capacity() {
            self.capacity() + DEQUE_SIZE_INCREMENT as nat
        } else {
            self.capacity()
        }
    }

    /// An empty deque with `DEQUE_START_SIZE` slots.
    pub fn new() -> (r: Deque<T>)
        ensures
            r.wf(),
            r@ == Seq::<T>::empty(),
            r.capacity() == DEQUE_START_SIZE,
    {
        let r = Deque {
            size: DEQUE_START_SIZE,
            length: 0,
            buffer: BufferGuard::new(DEQUE_START_SIZE),
            head_index: 0,
            tail_index: 0,
        };
        assert(r@ =~= Seq::<T>::empty());
        r
    }

    /// Moves the elements, in logical order, to the front of a buffer with
    /// `DEQUE_SIZE_INCREMENT` more slots.
    fn increment_size(&mut self)
        requires
            old(self).wf(),
            old(self).size + DEQUE_SIZE_INCREMENT <= usize::MAX,
        ensures
            final(self).wf(),
            final(self)@ == old(self)@,
            final(self).capacity() == old(self).capacity() + DEQUE_SIZE_INCREMENT,
    {
        let new_size = self.size + DEQUE_SIZE_INCREMENT;
        self.buffer.grow(new_size, self.head_index, self.length);
        self.size = new_size;
        self.head_index = 0;
        self.tail_index = if self.length > 0 {
            self.length - 1
        } else {
            0
        };
        assert forall|k: int| 0 <= k < self.length implies #[trigger] self.slot_at(k) == old(
            self,
        ).slot_at(k) by {
            assert(wrap_index(0, k, new_size as int) == k);
        }
        assert(self@ =~= old(self)@);
    }

    /// The buffer holds every element, and its size is the starting size
    /// plus a whole number of increments, one per growth.
    pub proof fn lemma_capacity_steps(x: &Self)
        requires
            x.wf(),
        ensures
            x@.len() <= x.capacity(),
            x.capacity() >= DEQUE_START_SIZE,
            (x.capacity() - DEQUE_START_SIZE) % (DEQUE_SIZE_INCREMENT as int) == 0,
    {
    }

    /// Number of elements.
    pub fn length(&self) -> (r: usize)
        requires
            self.wf(),
        ensures
            r == self@.len(),
    {
        self.length
    }

    /// Whether the deque holds no element.
    pub fn is_empty(&self) -> (r: bool)
        requires
            self.wf(),
        ensures
            r == (self@.len() == 0),
    {
        self.length == 0
    }

    /// Number of slots in the current buffer.
    pub fn buffer_size(&self) -> (r: usize)
        requires
            self.wf(),
        ensures
            r == self.capacity(),
    {
        self.size
    }

    /// Whether every slot of the buffer holds an element.
    pub fn buffer_is_full(&self) -> (r: bool)
        requires
            self.wf(),
        ensures
            r == (self@.len() == self.capacity()),
    {
        self.size == self.length
    }

    /// Adds `item` before the head, growing the buffer first when it is full.
    pub fn push_front(&mut self, item: T)
        requires
            old(self).wf(),
            old(self).capacity_after_push() <= usize::MAX,
        ensures
            final(self).wf(),
            final(self)@ == seq![item] + old(self)@,
            final(self).capacity() == old(self).capacity_after_push(),
    {
        if self.buffer_is_full() {
            self.increment_size();
        }
        let ghost before = self@;
        let ghost s0 = *self;
        let mut new_head_index = self.head_index;
        if self.length != 0 {
            new_head_index = if self.head_index == 0 {
                self.size - 1
            } else {
                self.head_index - 1
            };
        }
        self.buffer.put(new_head_index, item);
        self.head_index = new_head_index;
        self.length = self.length + 1;
        assert forall|k: int| 0 <= k < s0.length implies #[trigger] self.slot_at(k + 1) == s0.slot_at(
            k,
        ) by {}
        assert(self.slot_at(0) == Some(item));
        assert forall|k: int| 0 <= k < self.length implies (#[trigger] self.buffer@[wrap_index(
            self.head_index as int,
            k,
            self.size as int,
        )]) is Some by {
            if k > 0 {
                assert(self.slot_at((k - 1) + 1) == s0.slot_at(k - 1));
            }
        }
        assert(self@ =~= seq![item] + before);
    }

    /// Adds `item` after the tail, growing the buffer first when it is full.
    pub fn push_back(&mut self, item: T)
        requires
            old(self).wf(),
            old(self).capacity_after_push() <= usize::MAX,
        ensures
            final(self).wf(),
            final(self)@ == old(self)@.push(item),
            final(self).capacity() == old(self).capacity_after_push(),
    {
        if self.buffer_is_full() {
            self.increment_size();
        }
        let ghost before = self@;
        let ghost s0 = *self;
        let mut new_tail_index = self.tail_index;
        if self.length != 0 {
            new_tail_index = if self.tail_index + 1 == self.size {
                0
            } else {
                self.tail_index + 1
            };
        }
        self.buffer.put(new_tail_index, item);
        self.tail_index = new_tail_index;
        self.length = self.length + 1;
        assert forall|k: int| 0 <= k < s0.length implies #[trigger] self.slot_at(k) == s0.slot_at(
            k,
        ) by {}
        assert(self.slot_at(s0.length as int) == Some(item));
        assert(self@ =~= before.push(item));
    }

    /// Removes and returns the head element; `None` when empty.
    pub fn pop_front(&mut self) -> (r: Option<T>)
        requires
            old(self).wf(),
        ensures
            final(self).wf(),
            final(self).capacity() == old(self).capacity(),
            old(self)@.len() == 0 ==> r is None && final(self)@ == old(self)@,
            old(self)@.len() > 0 ==> r == Some(old(self)@[0]) && final(self)@ == old(self)@.drop_first(),
    {
        if self.length > 0 {
            let ghost before = self@;
            let ghost s0 = *self;
            assert(self.slot_at(0) is Some);
            let to_return = self.buffer.take(self.head_index);
            self.length = self.length - 1;
            if self.length != 0 {
                self.head_index = if self.head_index + 1 == self.size {
                    0
                } else {
                    self.head_index + 1
                };
            }
            assert forall|k: int| 0 <= k < self.length implies #[trigger] self.slot_at(k) == s0.slot_at(
                k + 1,
            ) by {}
            assert forall|k: int| 0 <= k < self.length implies (#[trigger] self.buffer@[wrap_index(
                self.head_index as int,
                k,
                self.size as int,
            )]) is Some by {
                assert(self.slot_at(k) == s0.slot_at(k + 1));
            }
            assert(self@ =~= before.drop_first());
            return Some(to_return.unwrap());
        }
        None
    }

    /// Removes and returns the tail element; `None` when empty.
    pub fn pop_back(&mut self) -> (r: Option<T>)
        requires
            old(self).wf(),
        ensures
            final(self).wf(),
            final(self).capacity() == old(self).capacity(),
            old(self)@.len() == 0 ==> r is None && final(self)@ == old(self)@,
            old(self)@.len() > 0 ==> r == Some(old(self)@.last()) && final(self)@ == old(self)@.drop_last(),
    {
        if self.length > 0 {
            let ghost before = self@;
            let ghost s0 = *self;
            assert(self.slot_at(self.length - 1) is Some);
            let to_return = self.buffer.take(self.tail_index);
            self.length = self.length - 1;
            if self.length != 0 {
                self.tail_index = if self.tail_index == 0 {
                    self.size - 1
                } else {
                    self.tail_index - 1
                };
            }
            assert forall|k: int| 0 <= k < self.length implies #[trigger] self.slot_at(k) == s0.slot_at(
                k,
            ) by {}
            assert(self@ =~= before.drop_last());
            return Some(to_return.unwrap());
        }
        None
    }

    /// The head element; `None` when empty.
    pub fn head(&self) -> (r: Option<&T>)
        requires
            self.wf(),
        ensures
            r is None <==> self@.len() == 0,
            r matches Some(x) ==> *x == self@[0],
    {
        if self.length > 0 {
            assert(self.slot_at(0) is Some);
            return self.buffer.get(self.head_index);
        }
        None
    }

    /// Exclusive access to the head element; `None` when empty.
    pub fn head_mut(&mut self) -> (r: Option<&mut T>)
        requires
            old(self).wf(),
        ensures
            r is None <==> old(self)@.len() == 0,
            r is None ==> *final(self) == *old(self),
            r matches Some(x) ==> {
                &&& *x == old(self)@[0]
                &&& final(self).wf()
                &&& final(self).capacity() == old(self).capacity()
                &&& final(self)@ =~= old(self)@.update(0, *final(x))
            },
    {
        if self.length > 0 {
            assert(self.slot_at(0) is Some);
            return self.buffer.get_mut(self.head_index);
        }
        None
    }

    /// The tail element; `None` when empty.
    pub fn tail(&self) -> (r: Option<&T>)
        requires
            self.wf(),
        ensures
            r is None <==> self@.len() == 0,
            r matches Some(x) ==> *x == self@.last(),
    {
        if self.length > 0 {
            assert(self.slot_at(self.length - 1) is Some);
            return self.buffer.get(self.tail_index);
        }
        None
    }

    /// Exclusive access to the tail element; `None` when empty.
    pub fn tail_mut(&mut self) -> (r: Option<&mut T>)
        requires
            old(self).wf(),
        ensures
            r is None <==> old(self)@.len() == 0,
            r is None ==> *final(self) == *old(self),
            r matches Some(x) ==> {
                &&& *x == old(self)@.last()
                &&& final(self).wf()
                &&& final(self).capacity() == old(self).capacity()
                &&& final(self)@ =~= old(self)@.update(old(self)@.len() - 1, *final(x))
            },
    {
        if self.length > 0 {
            assert(self.slot_at(self.length - 1) is Some);
            return self.buffer.get_mut(self.tail_index);
        }
        None
    }

    /// References to the elements from head to tail.
    pub fn values(&self) -> (r: Vec<&T>)
        requires
            self.wf(),
        ensures
            deref_all(r@) == self@,
    {
        let mut out: Vec<&T> = Vec::new();
        let mut k: usize = 0;
        let mut slot: usize = self.head_index;
        while k < self.length
            invariant
                self.wf(),
                k <= self.length,
                slot < self.size,
                slot == wrap_index(self.head_index as int, k as int, self.size as int),
                deref_all(out@) == self@.take(k as int),
            decreases self.length - k,
        {
            assert(self.slot_at(k as int) is Some);
            let item = self.buffer.get(slot).unwrap();
            let ghost prev = out@;
            out.push(item);
            assert(*item == self@[k as int]);
            assert(deref_all(out@) =~= deref_all(prev).push(*item));
            assert(deref_all(out@) =~= self@.take(k + 1));
            k = k + 1;
            slot = if slot + 1 == self.size {
                0
            } else {
                slot + 1
            };
        }
        assert(self@.take(self.length as int) =~= self@);
        out
    }

    /// The elements from head to tail, written as `Head -> [a, b, c] <- Tail`.
    pub fn to_display_string(&self) -> (r: String) where T: Display
        requires
            self.wf(),
        ensures
            listed(self@, "Head -> ["@, ", "@, "] <- Tail"@, r@),
    {
        let values = self.values();
        render_list(&values, "Head -> [", ", ", "] <- Tail")
    }
}

} // verus!
