use vstd::prelude::*;

verus! {

/// A fixed block of `capacity` slots, each empty or holding one element.
///
/// This is the raw storage under the contiguous containers: it knows nothing
/// of which slots are live; the container that owns it keeps track of that.
pub struct BufferGuard<T> {
    slots: Vec<Option<T>>,
}

/// Physical slot of the element `k` places after physical slot `start` in a
/// circular block of `cap` slots.
pub open spec fn wrap_index(start: int, k: int, cap: int) -> int {
    if start + k < cap {
        start + k
    } else {
        start + k - cap
    }
}

impl<T> View for BufferGuard<T> {
    type V = Seq<Option<T>>;

    closed spec fn view(&self) -> Seq<Option<T>> {
        self.slots@
    }
}

impl<T> BufferGuard<T> {
    /// A fresh block of `size` empty slots.
    pub fn new(size: usize) -> (r: BufferGuard<T>)
        ensures
            r@.len() == size,
            forall|i: int| 0 <= i < size ==> r@[i] is None,
    {
        let mut slots: Vec<Option<T>> = Vec::with_capacity(size);
        let mut i: usize = 0;
        while i < size
            invariant
                i <= size,
                slots@.len() == i,
                forall|j: int| 0 <= j < i ==> slots@[j] is None,
            decreases size - i,
        {
            slots.push(None);
            i = i + 1;
        }
        BufferGuard { slots }
    }

    /// Number of slots in the block.
    pub fn capacity(&self) -> (r: usize)
        ensures
            r == self@.len(),
    {
        self.slots.len()
    }

    /// Moves the element out of slot `i`, leaving the slot empty.
    pub fn take(&mut self, i: usize) -> (r: Option<T>)
        requires
            i < old(self)@.len(),
        ensures
            r == old(self)@[i as int],
            final(self)@ == old(self)@.update(i as int, None),
    {
        self.slots[i].take()
    }

    /// Stores `item` in slot `i`, handing back what the slot held before.
    pub fn put(&mut self, i: usize, item: T) -> (r: Option<T>)
        requires
            i < old(self)@.len(),
        ensures
            r == old(self)@[i as int],
            final(self)@ == old(self)@.update(i as int, Some(item)),
    {
        let prev = self.slots[i].take();
        self.slots[i] = Some(item);
        prev
    }

    /// Shared access to the element in slot `i`, if any.
    pub fn get(&self, i: usize) -> (r: Option<&T>)
        requires
            i < self@.len(),
        ensures
            r matches Some(x) ==> self@[i as int] == Some(*x),
            r is None <==> self@[i as int] is None,
    {
        self.slots[i].as_ref()
    }

    /// Exclusive access to the element in slot `i`, if any.
    pub fn get_mut(&mut self, i: usize) -> (r: Option<&mut T>)
        requires
            i < old(self)@.len(),
        ensures
            r is None <==> old(self)@[i as int] is None,
            r is None ==> final(self)@ == old(self)@,
            r matches Some(x) ==> {
                &&& old(self)@[i as int] == Some(*x)
                &&& final(self)@ == old(self)@.update(i as int, Some(*final(x)))
            },
    {
        self.slots[i].as_mut()
    }

    /// Moves `count` elements into a fresh block of `new_size` slots and
    /// releases the old block.
    ///
    /// The element at logical position `k` (counted from physical slot
    /// `start`, wrapping at the old capacity) lands in slot `k` of the new
    /// block; the remaining slots of the new block are empty.
    pub fn grow(&mut self, new_size: usize, start: usize, count: usize)
        requires
            start < old(self)@.len(),
            count <= old(self)@.len(),
            count <= new_size,
        ensures
            final(self)@.len() == new_size,
            forall|k: int|
                0 <= k < count ==> #[trigger] final(self)@[k] == old(self)@[wrap_index(
                    start as int,
                    k,
                    old(self)@.len() as int,
                )],
            forall|k: int| count <= k < new_size ==> #[trigger] final(self)@[k] is None,
    {
        let cap = self.slots.len();
        let mut fresh: BufferGuard<T> = BufferGuard::new(new_size);
        let mut k: usize = 0;
        let mut from: usize = start;
        while k < count
            invariant
                cap == old(self)@.len(),
                start < cap,
                count <= cap,
                count <= new_size,
                k <= count,
                from < cap,
                from == wrap_index(start as int, k as int, cap as int),
                fresh@.len() == new_size,
                self@.len() == cap,
                forall|j: int| 0 <= j < k ==> #[trigger] fresh@[j] == old(self)@[wrap_index(start as int, j, cap as int)],
                forall|j: int| k <= j < new_size ==> #[trigger] fresh@[j] is None,
                forall|j: int|
                    k <= j < count ==> #[trigger] self@[wrap_index(start as int, j, cap as int)]
                        == old(self)@[wrap_index(start as int, j, cap as int)],
            decreases count - k,
        {
            proof {
                assert forall|j: int| k < j < count implies wrap_index(start as int, j, cap as int)
                    != from by {}
            }
            let item = self.slots[from].take();
            fresh.slots[k] = item;
            k = k + 1;
            from = if from + 1 == cap { 0 } else { from + 1 };
        }
        self.slots = fresh.slots;
    }

    /// Releases the guard and hands back its slots.
    pub fn into_inner(self) -> (r: Vec<Option<T>>)
        ensures
            r@ == self@,
    {
        self.slots
    }
}

} // verus!
