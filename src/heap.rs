//! Fixed-capacity descriptor heap: slots are handed out from a free list (last freed,
//! first reused) or, when it is empty, by bumping an offset through the heap.
use vstd::prelude::*;

verus! {

/// A contiguous table of `capacity` descriptor slots, each `increment_size` bytes apart
/// from `base_address`. Handles are slot addresses.
pub struct Heap {
    base_address: usize,
    increment_size: usize,
    capacity: usize,
    next_slot: usize,
    free_list: Vec<usize>,
}

impl Heap {
    pub closed spec fn base(&self) -> int {
        self.base_address as int
    }

    pub closed spec fn increment(&self) -> int {
        self.increment_size as int
    }

    /// Number of slots in the heap.
    pub closed spec fn slots(&self) -> int {
        self.capacity as int
    }

    /// Number of slots handed out by bumping so far.
    pub closed spec fn bumped(&self) -> int {
        self.next_slot as int
    }

    /// Handles waiting to be reused; the last one is reused first.
    pub closed spec fn free(&self) -> Seq<usize> {
        self.free_list@
    }

    /// Address of slot `index`.
    pub open spec fn address(&self, index: int) -> int {
        self.base() + self.increment() * index
    }

    /// `h` is the address of one of the heap's slots.
    pub open spec fn is_handle(&self, h: int) -> bool {
        exists|i: int| 0 <= i < self.slots() && h == #[trigger] self.address(i)
    }

    /// Two heaps with the same layout have the same handles.
    pub proof fn lemma_same_layout(a: &Heap, b: &Heap, h: int)
        requires
            a.base() == b.base(),
            a.increment() == b.increment(),
            a.slots() == b.slots(),
            a.is_handle(h),
        ensures
            b.is_handle(h),
    {
        let i = choose|i: int| 0 <= i < a.slots() && h == #[trigger] a.address(i);
        assert(b.address(i) == a.address(i));
    }

    pub open spec fn wf(&self) -> bool {
        &&& self.increment() > 0
        &&& 0 <= self.bumped() <= self.slots()
        &&& self.base() + self.increment() * self.slots() <= usize::MAX
        &&& forall|k: int| 0 <= k < self.free().len() ==> self.is_handle(#[trigger] self.free()[k] as int)
    }

    /// A heap of `capacity` slots starting at `base_address`.
    pub fn new(base_address: usize, increment_size: usize, capacity: usize) -> (r: Self)
        requires
            increment_size > 0,
            base_address + increment_size * capacity <= usize::MAX,
        ensures
            r.wf(),
            r.base() == base_address,
            r.increment() == increment_size,
            r.slots() == capacity,
            r.bumped() == 0,
            r.free() == Seq::<usize>::empty(),
    {
        Heap { base_address, increment_size, capacity, next_slot: 0, free_list: Vec::new() }
    }

    /// Whether `allocate` has a slot to give.
    pub fn can_allocate(&self) -> (r: bool)
        ensures
            r == (self.free().len() > 0 || self.bumped() < self.slots()),
    {
        !self.free_list.is_empty() || self.next_slot < self.capacity
    }

    /// Hands out the most recently freed handle, or else the next slot never handed out.
    pub fn allocate(&mut self) -> (r: usize)
        requires
            old(self).wf(),
            old(self).free().len() > 0 || old(self).bumped() < old(self).slots(),
        ensures
            final(self).wf(),
            final(self).base() == old(self).base(),
            final(self).increment() == old(self).increment(),
            final(self).slots() == old(self).slots(),
            old(self).is_handle(r as int),
            old(self).free().len() > 0 ==> {
                &&& r == old(self).free().last()
                &&& final(self).free() == old(self).free().drop_last()
                &&& final(self).bumped() == old(self).bumped()
            },
            old(self).free().len() == 0 ==> {
                &&& r == old(self).address(old(self).bumped())
                &&& final(self).free() == old(self).free()
                &&& final(self).bumped() == old(self).bumped() + 1
            },
    {
        match self.free_list.pop() {
            Some(handle) => {
                assert(old(self).free()[old(self).free().len() - 1] == handle);
                assert forall|k: int| 0 <= k < self.free().len() implies self.is_handle(#[trigger] self.free()[k] as int) by {
                    assert(self.free()[k] == old(self).free()[k]);
                    Heap::lemma_same_layout(old(self), self, self.free()[k] as int);
                }
                handle
            },
            None => {
                let n = self.next_slot;
                proof {
                    let b = self.base_address as int;
                    let inc = self.increment_size as int;
                    let cap = self.capacity as int;
                    assert(inc * n <= inc * cap) by (nonlinear_arith)
                        requires
                            n < cap,
                            inc > 0,
                    ;
                }
                let handle = self.base_address + self.increment_size * n;
                self.next_slot = n + 1;
                assert(old(self).address(n as int) == handle);
                assert forall|k: int| 0 <= k < self.free().len() implies self.is_handle(#[trigger] self.free()[k] as int) by {
                    Heap::lemma_same_layout(old(self), self, self.free()[k] as int);
                }
                handle
            },
        }
    }

    /// Slot index of a handle of this heap.
    pub fn get_handle_index(&self, handle: usize) -> (r: usize)
        requires
            self.wf(),
            handle >= self.base(),
        ensures
            r == (handle - self.base()) / self.increment(),
            self.is_handle(handle as int) ==> r < self.slots() && self.address(r as int) == handle,
    {
        proof {
            if self.is_handle(handle as int) {
                let i = choose|i: int| 0 <= i < self.slots() && handle == #[trigger] self.address(i);
                let inc = self.increment();
                assert((inc * i) / inc == i) by (nonlinear_arith)
                    requires
                        inc > 0,
                ;
            }
        }
        (handle - self.base_address) / self.increment_size
    }

    /// Returns a handle to the free list.
    pub fn deallocate_internal(&mut self, handle: usize)
        requires
            old(self).wf(),
            old(self).is_handle(handle as int),
        ensures
            final(self).wf(),
            final(self).base() == old(self).base(),
            final(self).increment() == old(self).increment(),
            final(self).slots() == old(self).slots(),
            final(self).bumped() == old(self).bumped(),
            final(self).free() == old(self).free().push(handle),
    {
        self.free_list.push(handle);
        assert forall|k: int| 0 <= k < self.free().len() implies self.is_handle(#[trigger] self.free()[k] as int) by {
            if k < old(self).free().len() {
                assert(self.free()[k] == old(self).free()[k]);
            }
            Heap::lemma_same_layout(old(self), self, self.free()[k] as int);
        }
    }

    /// Returns the slot at `index` to the free list.
    pub fn deallocate(&mut self, index: usize)
        requires
            old(self).wf(),
            index < old(self).slots(),
        ensures
            final(self).wf(),
            final(self).base() == old(self).base(),
            final(self).increment() == old(self).increment(),
            final(self).slots() == old(self).slots(),
            final(self).bumped() == old(self).bumped(),
            final(self).free() == old(self).free().push(old(self).address(index as int) as usize),
    {
        proof {
            let inc = self.increment_size as int;
            let cap = self.capacity as int;
            assert(inc * index <= inc * cap) by (nonlinear_arith)
                requires
                    index < cap,
                    inc > 0,
            ;
        }
        let handle = self.base_address + self.increment_size * index;
        assert(self.address(index as int) == handle);
        self.deallocate_internal(handle);
    }
}

} // verus!
