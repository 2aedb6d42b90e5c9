use vstd::prelude::*;

verus! {

/// A cell of the tree waiting for an entry.
#[derive(Clone, Copy)]
pub struct Slot {
    pub idx: usize,
}

/// A stack of slots.  The slots below `nfilled` have been filled; `fill` hands out the
/// deepest slot that is still open.
pub struct SlotStack {
    pub nslots: usize,
    pub nfilled: usize,
    pub slots: Vec<usize>,
    pub capacity: usize,
}

impl SlotStack {
    pub open spec fn wf(&self) -> bool {
        self.nfilled <= self.nslots <= self.slots@.len()
    }

    /// The slots currently on the stack, bottom first.
    pub open spec fn stack(&self) -> Seq<usize> {
        self.slots@.subrange(0, self.nslots as int)
    }

    pub fn new(capacity: usize) -> (s: SlotStack)
        ensures
            s.wf(),
            s.nslots == 0,
            s.nfilled == 0,
            s.capacity == capacity,
    {
        SlotStack { nslots: 0, nfilled: 0, slots: Vec::with_capacity(capacity), capacity: capacity }
    }

    /// Pushes an open slot for cell `idx`.
    pub fn push(&mut self, idx: usize)
        requires
            old(self).wf(),
            old(self).nslots < usize::MAX,
        ensures
            final(self).wf(),
            final(self).nslots == old(self).nslots + 1,
            final(self).nfilled == old(self).nfilled,
            final(self).stack() == old(self).stack().push(idx),
            final(self).capacity == old(self).capacity,
    {
        if self.nslots < self.slots.len() {
            self.slots.set(self.nslots, idx);
        } else {
            self.slots.push(idx);
        }
        self.nslots = self.nslots + 1;
        assert(self.stack() =~= old(self).stack().push(idx));
    }

    /// Removes the topmost slot and returns it.
    pub fn pop(&mut self) -> (s: Slot)
        requires
            old(self).wf(),
            old(self).nslots > 0,
        ensures
            final(self).wf(),
            final(self).nslots == old(self).nslots - 1,
            final(self).nfilled == if old(self).nfilled == old(self).nslots {
                old(self).nfilled - 1
            } else {
                old(self).nfilled as int
            },
            final(self).stack() == old(self).stack().drop_last(),
            s.idx == old(self).stack().last(),
            final(self).capacity == old(self).capacity,
    {
        if self.nfilled == self.nslots {
            self.nfilled = self.nfilled - 1;
        }
        self.nslots = self.nslots - 1;
        assert(self.stack() =~= old(self).stack().drop_last());
        Slot { idx: self.slots[self.nslots] }
    }

    /// The topmost slot.
    pub fn peek(&self) -> (s: Slot)
        requires
            self.wf(),
            self.nslots > 0,
        ensures
            s.idx == self.stack().last(),
    {
        Slot { idx: self.slots[self.nslots - 1] }
    }

    /// Fills the deepest open slot and returns its cell.
    pub fn fill(&mut self) -> (dst: usize)
        requires
            old(self).wf(),
            old(self).nfilled < old(self).nslots,
        ensures
            final(self).wf(),
            dst == old(self).stack()[old(self).nfilled as int],
            final(self).nfilled == old(self).nfilled + 1,
            final(self).nslots == old(self).nslots,
            final(self).slots == old(self).slots,
            final(self).capacity == old(self).capacity,
    {
        let dst_idx = self.slots[self.nfilled];
        self.nfilled = self.nfilled + 1;
        dst_idx
    }

    /// The slot at position `idx` of the stack.
    pub fn slot_at(&self, idx: usize) -> (s: Slot)
        requires
            self.wf(),
            idx < self.nslots,
        ensures
            s.idx == self.stack()[idx as int],
    {
        Slot { idx: self.slots[idx] }
    }

    pub fn is_empty(&self) -> (r: bool)
        ensures
            r == (self.nslots == 0),
    {
        self.nslots == 0
    }

    pub fn nslots(&self) -> (r: usize)
        ensures
            r == self.nslots,
    {
        self.nslots
    }

    pub fn nfilled(&self) -> (r: usize)
        ensures
            r == self.nfilled,
    {
        self.nfilled
    }

    /// Some slot on the stack is still open.
    pub fn has_open(&self) -> (r: bool)
        ensures
            r == (self.nslots != self.nfilled),
    {
        self.nslots != self.nfilled
    }
}

/// The two slot stacks used by the bulk deletion.
pub struct DeleteRangeCache {
    pub slots_min: SlotStack,
    pub slots_max: SlotStack,
}

impl DeleteRangeCache {
    /// Both stacks are well formed and empty.
    pub open spec fn idle(&self) -> bool {
        &&& self.slots_min.wf()
        &&& self.slots_max.wf()
        &&& self.slots_min.nslots == 0
        &&& self.slots_max.nslots == 0
    }

    pub fn new(height: usize) -> (c: DeleteRangeCache)
        ensures
            c.idle(),
            c.slots_min.capacity == height,
            c.slots_max.capacity == height,
    {
        DeleteRangeCache { slots_min: SlotStack::new(height), slots_max: SlotStack::new(height) }
    }
}

/// A stack of values with a fixed capacity hint.
pub struct UnsafeStack<T> {
    pub size: usize,
    pub data: Vec<T>,
    pub capacity: usize,
}

impl<T> UnsafeStack<T> {
    pub open spec fn wf(&self) -> bool {
        self.size == self.data@.len()
    }

    pub fn new(capacity: usize) -> (s: Self)
        ensures
            s.wf(),
            s.data@ == Seq::<T>::empty(),
            s.capacity == capacity,
    {
        UnsafeStack { size: 0, data: Vec::with_capacity(capacity), capacity: capacity }
    }

    pub fn push(&mut self, item: T)
        requires
            old(self).wf(),
            old(self).size < usize::MAX,
        ensures
            final(self).wf(),
            final(self).data@ == old(self).data@.push(item),
            final(self).capacity == old(self).capacity,
    {
        self.data.push(item);
        self.size = self.size + 1;
    }

    pub fn pop(&mut self) -> (item: T)
        requires
            old(self).wf(),
            old(self).size > 0,
        ensures
            final(self).wf(),
            final(self).data@ == old(self).data@.drop_last(),
            item == old(self).data@.last(),
            final(self).capacity == old(self).capacity,
    {
        self.size = self.size - 1;
        self.data.pop().unwrap()
    }

    pub fn is_empty(&self) -> (r: bool)
        ensures
            r == (self.size == 0),
    {
        self.size == 0
    }

    pub fn size(&self) -> (r: usize)
        ensures
            r == self.size,
    {
        self.size
    }

    pub fn capacity(&self) -> (r: usize)
        ensures
            r == self.capacity,
    {
        self.capacity
    }
}

} // verus!
