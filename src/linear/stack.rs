use vstd::prelude::*;

use super::buffer_guard::{wrap_index, BufferGuard};
use crate::render::{deref_all, listed, render_list};
use std::fmt::Display;

verus! {

/// Number of slots a new stack starts with.
pub const STACK_START_SIZE: usize = 10;

/// Number of slots added each time a full stack grows.
pub const STACK_SIZE_INCREMENT: usize = 10;

/// A last-in first-out stack over a buffer that grows when full.
///
/// The live elements fill slots `0..length`; the top is slot `length - 1`.
pub struct Stack<T> {
    size: usize,
    length: usize,
    buffer: BufferGuard<T>,
}

impl<T> View for Stack<T> {
    type V = Seq<T>;

    /// The elements from bottom to top.
    closed spec fn view(&self) -> Seq<T> {
        Seq::new(self.length as nat, |k: int| self.buffer@[k]->Some_0)
    }
}

impl<T> Stack<T> {
    /// The internal invariant: the buffer has the starting size plus whole
    /// increments, its live prefix is filled and every other slot is empty.
    pub closed spec fn wf(&self) -> bool {
        &&& self.buffer@.len() == self.size
        &&& self.size >= STACK_START_SIZE
        &&& (self.size - STACK_START_SIZE) % (STACK_SIZE_INCREMENT as int) == 0
        &&& self.length <= self.size
        &&& forall|k: int| 0 <= k < self.size ==> ((#[trigger] self.buffer@[k]) is Some <==> k < self.length)
    }

    /// Number of slots in the current buffer.
    pub closed spec fn capacity(&self) -> nat {
        self.size as nat
    }

    /// Capacity after making room for one more element.
    pub open spec fn capacity_after_push(&self) -> nat {
        if self@.len() == self.capacity() {
            self.capacity() + STACK_SIZE_INCREMENT as nat
        } else {
            self.capacity()
        }
    }

    /// An empty stack with `STACK_START_SIZE` slots.
    pub fn new() -> (r: Stack<T>)
        ensures
            r.wf(),
            r@ == Seq::<T>::empty(),
            r.capacity() == STACK_START_SIZE,
    {
        let r = Stack { size: STACK_START_SIZE, length: 0, buffer: BufferGuard::new(STACK_START_SIZE) };
        assert(r@ =~= Seq::<T>::empty());
        r
    }

    /// Moves the elements to a buffer with `STACK_SIZE_INCREMENT` more slots.
    fn increment_size(&mut self)
        requires
            old(self).wf(),
            old(self).size + STACK_SIZE_INCREMENT <= usize::MAX,
        ensures
            final(self).wf(),
            final(self)@ == old(self)@,
            final(self).capacity() == old(self).capacity() + STACK_SIZE_INCREMENT,
    {
        let new_size = self.size + STACK_SIZE_INCREMENT;
        self.buffer.grow(new_size, 0, self.length);
        self.size = new_size;
        assert forall|k: int| 0 <= k < self.length implies #[trigger] self.buffer@[k] == old(
            self,
        ).buffer@[k] by {
            assert(wrap_index(0, k, old(self).size as int) == k);
        }
        assert(self@ =~= old(self)@);
    }

    /// The buffer holds every element, and its size is the starting size
    /// plus a whole number of increments, one per growth.
    pub proof fn lemma_capacity_steps(x: &Self)
        requires
            x.wf(),
        ensures
            x@.len() <= x.capacity(),
            x.capacity() >= STACK_START_SIZE,
            (x.capacity() - STACK_START_SIZE) % (STACK_SIZE_INCREMENT as int) == 0,
    {
    }

    /// Number of elements.
    pub fn length(&self) -> (r: usize)
        requires
            self.wf(),
        ensures
            r == self@.len(),
    {
        self.length
    }

    /// Whether the stack holds no element.
    pub fn is_empty(&self) -> (r: bool)
        requires
            self.wf(),
        ensures
            r == (self@.len() == 0),
    {
        self.length == 0
    }

    /// Number of slots in the current buffer.
    pub fn buffer_size(&self) -> (r: usize)
        requires
            self.wf(),
        ensures
            r == self.capacity(),
    {
        self.size
    }

    /// Whether every slot of the buffer holds an element.
    pub fn buffer_is_full(&self) -> (r: bool)
        requires
            self.wf(),
        ensures
            r == (self@.len() == self.capacity()),
    {
        self.size == self.length
    }

    /// Puts `item` on top, growing the buffer first when it is full.
    pub fn push(&mut self, item: T)
        requires
            old(self).wf(),
            old(self).capacity_after_push() <= usize::MAX,
        ensures
            final(self).wf(),
            final(self)@ == old(self)@.push(item),
            final(self).capacity() == old(self).capacity_after_push(),
    {
        if self.buffer_is_full() {
            self.increment_size();
        }
        let ghost before = self@;
        self.buffer.put(self.length, item);
        self.length = self.length + 1;
        assert(self@ =~= before.push(item));
    }

    /// Removes and returns the top element; `None` when empty.
    pub fn pop(&mut self) -> (r: Option<T>)
        requires
            old(self).wf(),
        ensures
            final(self).wf(),
            final(self).capacity() == old(self).capacity(),
            old(self)@.len() == 0 ==> r is None && final(self)@ == old(self)@,
            old(self)@.len() > 0 ==> r == Some(old(self)@.last()) && final(self)@ == old(self)@.drop_last(),
    {
        if self.length > 0 {
            let ghost before = self@;
            self.length = self.length - 1;
            assert(self.buffer@[self.length as int] is Some);
            let to_return = self.buffer.take(self.length);
            assert(self@ =~= before.drop_last());
            return Some(to_return.unwrap());
        }
        None
    }

    /// The top element; `None` when empty.
    pub fn top(&self) -> (r: Option<&T>)
        requires
            self.wf(),
        ensures
            r is None <==> self@.len() == 0,
            r matches Some(x) ==> *x == self@.last(),
    {
        if self.length > 0 {
            assert(self.buffer@[self.length - 1] is Some);
            return self.buffer.get(self.length - 1);
        }
        None
    }

    /// Exclusive access to the top element; `None` when empty.
    pub fn top_mut(&mut self) -> (r: Option<&mut T>)
        requires
            old(self).wf(),
        ensures
            r is None <==> old(self)@.len() == 0,
            r is None ==> *final(self) == *old(self),
            r matches Some(x) ==> {
                &&& *x == old(self)@.last()
                &&& final(self).wf()
                &&& final(self).capacity() == old(self).capacity()
                &&& final(self)@ =~= old(self)@.update(old(self)@.len() - 1, *final(x))
            },
    {
        if self.length > 0 {
            assert(self.buffer@[self.length - 1] is Some);
            return self.buffer.get_mut(self.length - 1);
        }
        None
    }

    /// References to the elements from top to bottom.
    pub fn values(&self) -> (r: Vec<&T>)
        requires
            self.wf(),
        ensures
            deref_all(r@) == self@.reverse(),
    {
        let mut out: Vec<&T> = Vec::new();
        let mut k: usize = self.length;
        while k > 0
            invariant
                self.wf(),
                k <= self.length,
                deref_all(out@) == self@.skip(k as int).reverse(),
            decreases k,
        {
            k = k - 1;
            assert(self.buffer@[k as int] is Some);
            let item = self.buffer.get(k).unwrap();
            let ghost prev = out@;
            out.push(item);
            assert(*item == self@[k as int]);
            assert(deref_all(out@) =~= deref_all(prev).push(*item));
            assert(deref_all(out@) =~= self@.skip(k as int).reverse());
        }
        assert(self@.skip(0) =~= self@);
        out
    }

    /// The elements from top to bottom, written as `Top -> [c, b, a]`.
    pub fn to_display_string(&self) -> (r: String) where T: Display
        requires
            self.wf(),
        ensures
            listed(self@.reverse(), "Top -> ["@, ", "@, "]"@, r@),
    {
        let values = self.values();
        render_list(&values, "Top -> [", ", ", "]")
    }
}

} // verus!
