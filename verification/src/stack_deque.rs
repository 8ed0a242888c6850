//! Fixed-capacity double-ended sequence backing each of the two stacks.
//!
//! The backing storage is sized three times the capacity and is logically
//! divided into three capacity-wide windows; `pos` is the offset of the live
//! window and `len` the number of live elements.  A push that would run off
//! an edge of the storage first recentres the live elements into the middle
//! window, which bounds the number of copies and keeps pushes and pops
//! amortized O(1) without reallocation.

use vstd::prelude::*;

verus! {

pub struct StackDeque<T> {
    buffer: Vec<T>,
    len: usize,
    capacity: usize,
    pos: usize,
}

impl<T: Copy> View for StackDeque<T> {
    type V = Seq<T>;

    closed spec fn view(&self) -> Seq<T> {
        self.buffer@.subrange(self.pos as int, self.pos + self.len)
    }
}

impl<T: Copy> StackDeque<T> {
    /// Fixed capacity chosen at construction.
    pub closed spec fn cap(&self) -> int {
        self.capacity as int
    }

    /// The backing storage is intact and the live window lies inside it.
    pub closed spec fn wf(&self) -> bool {
        &&& self.buffer@.len() == 3 * self.cap()
        &&& 3 * self.cap() <= usize::MAX
        &&& self.len <= self.capacity
        &&& self.pos + self.len <= 3 * self.cap()
    }

    pub fn new(capacity: usize) -> (r: Self) where T: Default
        requires
            capacity <= usize::MAX / 3,
        ensures
            r.wf(),
            r@ =~= Seq::<T>::empty(),
            r.cap() == capacity,
    {
        let buffer: Vec<T> = vec![T::default(); 3 * capacity];
        StackDeque { buffer, len: 0, capacity, pos: capacity }
    }

    pub fn len(&self) -> (r: usize)
        requires
            self.wf(),
        ensures
            r == self@.len(),
    {
        self.len
    }

    pub fn capacity(&self) -> (r: usize)
        ensures
            r == self.cap(),
    {
        self.capacity
    }

    pub fn is_empty(&self) -> (r: bool)
        requires
            self.wf(),
        ensures
            r == (self@.len() == 0),
    {
        self.len == 0
    }

    /// Copy the live elements back into the middle window.  Only called when
    /// the live window touches an edge of the storage, so the source and the
    /// destination ranges never overlap.
    fn recenter(&mut self)
        requires
            old(self).wf(),
            old(self).len < old(self).capacity,
            old(self).pos == 0 || old(self).pos >= 2 * old(self).cap(),
        ensures
            final(self).wf(),
            final(self)@ == old(self)@,
            final(self).cap() == old(self).cap(),
            final(self).len == old(self).len,
            final(self).pos == old(self).cap(),
    {
        let ghost orig = *self;
        let mut i: usize = 0;
        while i < self.len
            invariant
                self.wf(),
                self.len == orig.len,
                self.capacity == orig.capacity,
                self.pos == orig.pos,
                orig.wf(),
                orig.len < orig.capacity,
                orig.pos == 0 || orig.pos >= 2 * orig.cap(),
                i <= self.len,
                self.buffer@.len() == orig.buffer@.len(),
                forall|j: int|
                    0 <= j < i ==> #[trigger] self.buffer@[orig.cap() + j]
                        == orig.buffer@[orig.pos + j],
                forall|j: int|
                    0 <= j < orig.buffer@.len() && !(orig.cap() <= j < orig.cap() + i)
                        ==> self.buffer@[j] == orig.buffer@[j],
            decreases self.len - i,
        {
            let v = self.buffer[self.pos + i];
            self.buffer[self.capacity + i] = v;
            i += 1;
        }
        self.pos = self.capacity;
        proof {
            assert forall|k: int| 0 <= k < self.len implies self@[k] == orig@[k] by {
                assert(self.buffer@[orig.cap() + k] == orig.buffer@[orig.pos + k]);
            }
            assert(self@ =~= orig@);
        }
    }

    pub fn push_back(&mut self, value: T)
        requires
            old(self).wf(),
            old(self)@.len() < old(self).cap(),
        ensures
            final(self).wf(),
            final(self)@ == old(self)@.push(value),
            final(self).cap() == old(self).cap(),
    {
        let ghost pre = *self;
        assert(2 * self.cap() <= self.buffer@.len());
        if self.pos >= 2 * self.capacity {
            self.recenter();
        }
        let ghost mid = *self;
        self.buffer[self.pos + self.len] = value;
        self.len = self.len + 1;
        assert(self@ =~= mid@.push(value));
    }

    pub fn push_front(&mut self, value: T)
        requires
            old(self).wf(),
            old(self)@.len() < old(self).cap(),
        ensures
            final(self).wf(),
            final(self)@ == seq![value] + old(self)@,
            final(self).cap() == old(self).cap(),
    {
        let ghost pre = *self;
        if self.pos == 0 {
            self.recenter();
        }
        let ghost mid = *self;
        self.buffer[self.pos - 1] = value;
        self.pos = self.pos - 1;
        self.len = self.len + 1;
        assert(self@ =~= seq![value] + mid@);
    }

    pub fn pop_back(&mut self)
        requires
            old(self).wf(),
            old(self)@.len() > 0,
        ensures
            final(self).wf(),
            final(self)@ == old(self)@.drop_last(),
            final(self).cap() == old(self).cap(),
    {
        self.len = self.len - 1;
        assert(self@ =~= old(self)@.drop_last());
    }

    pub fn pop_front(&mut self)
        requires
            old(self).wf(),
            old(self)@.len() > 0,
        ensures
            final(self).wf(),
            final(self)@ == old(self)@.drop_first(),
            final(self).cap() == old(self).cap(),
    {
        self.pos = self.pos + 1;
        self.len = self.len - 1;
        assert(self@ =~= old(self)@.drop_first());
    }

    pub fn front(&self) -> (r: T)
        requires
            self.wf(),
            self@.len() > 0,
        ensures
            r == self@[0],
    {
        self.buffer[self.pos]
    }

    pub fn back(&self) -> (r: T)
        requires
            self.wf(),
            self@.len() > 0,
        ensures
            r == self@.last(),
    {
        self.buffer[self.pos + self.len - 1]
    }

    /// Read the element at logical index `index`, counted from the front.
    pub fn index(&self, index: usize) -> (r: T)
        requires
            self.wf(),
            index < self@.len(),
        ensures
            r == self@[index as int],
    {
        self.buffer[self.pos + index]
    }

    /// Overwrite the element at logical index `index`.
    pub fn set(&mut self, index: usize, value: T)
        requires
            old(self).wf(),
            index < old(self)@.len(),
        ensures
            final(self).wf(),
            final(self)@ == old(self)@.update(index as int, value),
            final(self).cap() == old(self).cap(),
    {
        self.buffer[self.pos + index] = value;
        assert(self@ =~= old(self)@.update(index as int, value));
    }

    /// An element-for-element copy with the same capacity.
    pub fn duplicate(&self) -> (r: Self)
        requires
            self.wf(),
        ensures
            r.wf(),
            r@ == self@,
            r.cap() == self.cap(),
    {
        let mut buffer: Vec<T> = Vec::new();
        let mut i: usize = 0;
        while i < self.buffer.len()
            invariant
                self.wf(),
                i <= self.buffer@.len(),
                buffer@ =~= self.buffer@.subrange(0, i as int),
            decreases self.buffer@.len() - i,
        {
            buffer.push(self.buffer[i]);
            i += 1;
        }
        assert(buffer@ =~= self.buffer@);
        let r = StackDeque { buffer, len: self.len, capacity: self.capacity, pos: self.pos };
        assert(r@ =~= self@);
        r
    }
}

impl StackDeque<i32> {
    /// Whether two deques hold the same elements in the same order; the
    /// capacities and the window offsets may differ.
    pub fn contents_eq(&self, other: &Self) -> (r: bool)
        requires
            self.wf(),
            other.wf(),
        ensures
            r == (self@ == other@),
    {
        if self.len != other.len {
            return false;
        }
        let mut i: usize = 0;
        while i < self.len
            invariant
                self.wf(),
                other.wf(),
                self.len == other.len,
                i <= self.len,
                forall|j: int| 0 <= j < i ==> self@[j] == other@[j],
            decreases self.len - i,
        {
            if self.buffer[self.pos + i] != other.buffer[other.pos + i] {
                assert(self@[i as int] != other@[i as int]);
                return false;
            }
            i += 1;
        }
        proof {
            assert(self@ =~= other@);
        }
        true
    }
}

} // verus!
