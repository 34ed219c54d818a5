use vstd::prelude::*;

use super::buffer_guard::{wrap_index, BufferGuard};
use crate::render::{deref_all, listed, render_list};
use std::fmt::Display;

verus! {

/// Number of slots a new queue starts with.
pub const QUEUE_START_SIZE: usize = 10;

/// Number of slots added each time a full queue grows.
pub const QUEUE_SIZE_INCREMENT: usize = 10;

/// A first-in first-out queue over a buffer that grows when full.
///
/// The live elements fill slots `0..length`; the head is slot `0`.
pub struct Queue<T> {
    size: usize,
    length: usize,
    buffer: BufferGuard<T>,
}

impl<T> View for Queue<T> {
    type V = Seq<T>;

    /// The elements from head to tail.
    closed spec fn view(&self) -> Seq<T> {
        Seq::new(self.length as nat, |k: int| self.buffer@[k]->Some_0)
    }
}

impl<T> Queue<T> {
    /// The internal invariant: the buffer has the starting size plus whole
    /// increments, its live prefix is filled and every other slot is empty.
    pub closed spec fn wf(&self) -> bool {
        &&& self.buffer@.len() == self.size
        &&& self.size >= QUEUE_START_SIZE
        &&& (self.size - QUEUE_START_SIZE) % (QUEUE_SIZE_INCREMENT as int) == 0
        &&& self.length <= self.size
        &&& forall|k: int| 0 <= k < self.size ==> ((#[trigger] self.buffer@[k]) is Some <==> k < self.length)
    }

    /// Number of slots in the current buffer.
    pub closed spec fn capacity(&self) -> nat {
        self.size as nat
    }

    /// Capacity after making room for one more element.
    pub open spec fn capacity_after_push(&self) -> nat {
        if self@.len() == self.capacity() {
            self.capacity() + QUEUE_SIZE_INCREMENT as nat
        } else {
            self.capacity()
        }
    }

    /// An empty queue with `QUEUE_START_SIZE` slots.
    pub fn new() -> (r: Queue<T>)
        ensures
            r.wf(),
            r@ == Seq::<T>::empty(),
            r.capacity() == QUEUE_START_SIZE,
    {
        let r = Queue { size: QUEUE_START_SIZE, length: 0, buffer: BufferGuard::new(QUEUE_START_SIZE) };
        assert(r@ =~= Seq::<T>::empty());
        r
    }

    /// Moves the elements to a buffer with `QUEUE_SIZE_INCREMENT` more slots.
    fn increment_size(&mut self)
        requires
            old(self).wf(),
            old(self).size + QUEUE_SIZE_INCREMENT <= usize::MAX,
        ensures
            final(self).wf(),
            final(self)@ == old(self)@,
            final(self).capacity() == old(self).capacity() + QUEUE_SIZE_INCREMENT,
    {
        let new_size = self.size + QUEUE_SIZE_INCREMENT;
        self.buffer.grow(new_size, 0, self.length);
        self.size = new_size;
        assert forall|k: int| 0 <= k < self.length implies #[trigger] self.buffer@[k] == old(
            self,
        ).buffer@[k] by {
            assert(wrap_index(0, k, old(self).size as int) == k);
        }
        assert(self@ =~= old(self)@);
    }

    /// The buffer holds every element, and its size is the starting size
    /// plus a whole number of increments, one per growth.
    pub proof fn lemma_capacity_steps(x: &Self)
        requires
            x.wf(),
        ensures
            x@.len() <= x.capacity(),
            x.capacity() >= QUEUE_START_SIZE,
            (x.capacity() - QUEUE_START_SIZE) % (QUEUE_SIZE_INCREMENT as int) == 0,
    {
    }

    /// Number of elements.
    pub fn length(&self) -> (r: usize)
        requires
            self.wf(),
        ensures
            r == self@.len(),
    {
        self.length
    }

    /// Whether the queue holds no element.
    pub fn is_empty(&self) -> (r: bool)
        requires
            self.wf(),
        ensures
            r == (self@.len() == 0),
    {
        self.length == 0
    }

    /// Number of slots in the current buffer.
    pub fn buffer_size(&self) -> (r: usize)
        requires
            self.wf(),
        ensures
            r == self.capacity(),
    {
        self.size
    }

    /// Whether every slot of the buffer holds an element.
    pub fn buffer_is_full(&self) -> (r: bool)
        requires
            self.wf(),
        ensures
            r == (self@.len() == self.capacity()),
    {
        self.size == self.length
    }

    /// Adds `item` after the tail, growing the buffer first when it is full.
    pub fn push(&mut self, item: T)
        requires
            old(self).wf(),
            old(self).capacity_after_push() <= usize::MAX,
        ensures
            final(self).wf(),
            final(self)@ == old(self)@.push(item),
            final(self).capacity() == old(self).capacity_after_push(),
    {
        if self.buffer_is_full() {
            self.increment_size();
        }
        let ghost before = self@;
        self.buffer.put(self.length, item);
        self.length = self.length + 1;
        assert(self@ =~= before.push(item));
    }

    /// Removes and returns the head element, moving the others one slot
    /// forward; `None` when empty.
    pub fn pop(&mut self) -> (r: Option<T>)
        requires
            old(self).wf(),
        ensures
            final(self).wf(),
            final(self).capacity() == old(self).capacity(),
            old(self)@.len() == 0 ==> r is None && final(self)@ == old(self)@,
            old(self)@.len() > 0 ==> r == Some(old(self)@[0]) && final(self)@ == old(self)@.drop_first(),
    {
        if self.length > 0 {
            let ghost before = self@;
            let ghost b0 = self.buffer@;
            self.length = self.length - 1;
            assert(self.buffer@[0] is Some);
            let to_return = self.buffer.take(0);
            let mut i: usize = 0;
            while i < self.length
                invariant
                    self.buffer@.len() == self.size,
                    self.size > 0,
                    self.length < self.size,
                    b0.len() == self.size,
                    i <= self.length,
                    forall|k: int| 0 <= k <= old(self).length - 1 ==> (#[trigger] b0[k]) is Some,
                    forall|k: int| 0 <= k < i ==> #[trigger] self.buffer@[k] == b0[k + 1],
                    forall|k: int| i < k < self.size ==> #[trigger] self.buffer@[k] == b0[k],
                    forall|k: int| old(self).length <= k < self.size ==> (#[trigger] b0[k]) is None,
                    self.buffer@[i as int] is None,
                    self.length == old(self).length - 1,
                decreases self.length - i,
            {
                let moved = self.buffer.take(i + 1);
                match moved {
                    Some(item) => {
                        self.buffer.put(i, item);
                    },
                    None => {},
                }
                i = i + 1;
            }
            assert forall|k: int| 0 <= k < self.length implies (#[trigger] self.buffer@[k]) is Some by {
                assert(self.buffer@[k] == b0[k + 1]);
            }
            assert(self@ =~= before.drop_first());
            return Some(to_return.unwrap());
        }
        None
    }

    /// The head element; `None` when empty.
    pub fn head(&self) -> (r: Option<&T>)
        requires
            self.wf(),
        ensures
            r is None <==> self@.len() == 0,
            r matches Some(x) ==> *x == self@[0],
    {
        if self.length > 0 {
            assert(self.buffer@[0] is Some);
            return self.buffer.get(0);
        }
        None
    }

    /// Exclusive access to the head element; `None` when empty.
    pub fn head_mut(&mut self) -> (r: Option<&mut T>)
        requires
            old(self).wf(),
        ensures
            r is None <==> old(self)@.len() == 0,
            r is None ==> *final(self) == *old(self),
            r matches Some(x) ==> {
                &&& *x == old(self)@[0]
                &&& final(self).wf()
                &&& final(self).capacity() == old(self).capacity()
                &&& final(self)@ =~= old(self)@.update(0, *final(x))
            },
    {
        if self.length > 0 {
            assert(self.buffer@[0] is Some);
            return self.buffer.get_mut(0);
        }
        None
    }

    /// References to the elements from head to tail.
    pub fn values(&self) -> (r: Vec<&T>)
        requires
            self.wf(),
        ensures
            deref_all(r@) == self@,
    {
        let mut out: Vec<&T> = Vec::new();
        let mut k: usize = 0;
        while k < self.length
            invariant
                self.wf(),
                k <= self.length,
                deref_all(out@) == self@.take(k as int),
            decreases self.length - k,
        {
            assert(self.buffer@[k as int] is Some);
            let item = self.buffer.get(k).unwrap();
            let ghost prev = out@;
            out.push(item);
            assert(*item == self@[k as int]);
            assert(deref_all(out@) =~= deref_all(prev).push(*item));
            assert(deref_all(out@) =~= self@.take(k + 1));
            k = k + 1;
        }
        assert(self@.take(self.length as int) =~= self@);
        out
    }

    /// The elements from head to tail, written as `Head -> [a, b, c] <- Tail`.
    pub fn to_display_string(&self) -> (r: String) where T: Display
        requires
            self.wf(),
        ensures
            listed(self@, "Head -> ["@, ", "@, "] <- Tail"@, r@),
    {
        let values = self.values();
        render_list(&values, "Head -> [", ", ", "] <- Tail")
    }
}

} // verus!
