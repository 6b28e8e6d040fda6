//! The heap that nodes live in.
//!
//! A heap maps addresses to values. It hands out the addresses itself, in
//! rising order, each aligned for the type it holds and none of them twice:
//! an address that was freed is never live again. When the addresses of the
//! machine are used up, the heap has no room left.
use vstd::prelude::*;
use std::collections::HashMap;
use crate::hp::atomic::{aligned, low_bits, spec_low_bits};

verus! {

broadcast use vstd::std_specs::hash::group_hash_axioms;

/// The frontier after the address `addr` was handed out: the next aligned
/// address, or zero where there is none.
pub open spec fn spec_bump<T>(addr: usize) -> usize {
    if addr + spec_low_bits::<T>() + 1 <= usize::MAX {
        (addr + spec_low_bits::<T>() + 1) as usize
    } else {
        0
    }
}

/// Values of one type, each at an address of its own.
pub struct Heap<T> {
    nodes: HashMap<usize, T>,
    next: usize,
}

impl<T> View for Heap<T> {
    type V = Map<usize, T>;

    /// The live addresses and what each holds.
    closed spec fn view(&self) -> Map<usize, T> {
        self.nodes@
    }
}

impl<T> Heap<T> {
    /// The address that the next allocation gets, or zero when no address is
    /// left. Every address that was ever handed out lies below it.
    pub closed spec fn frontier(&self) -> usize {
        self.next
    }

    /// Every live address is not null, aligned and below the frontier.
    pub open spec fn wf(&self) -> bool {
        &&& aligned::<T>(self.frontier())
        &&& forall|a: usize|
            (#[trigger] self@.contains_key(a)) ==> a != 0 && aligned::<T>(a) && (self.frontier()
                != 0 ==> a < self.frontier())
    }

    /// The live addresses are finitely many.
    pub proof fn lemma_finite(&self)
        ensures
            self@.dom().finite(),
    {
    }

    /// Whether one more address can be handed out.
    pub open spec fn has_room(&self) -> bool {
        self.frontier() != 0
    }

    /// An empty heap.
    pub fn new() -> (heap: Self)
        ensures
            heap.wf(),
            heap.has_room(),
            heap@ == Map::<usize, T>::empty(),
            heap.frontier() == spec_low_bits::<T>() + 1,
    {
        let mask = low_bits::<T>();
        Heap { nodes: HashMap::new(), next: mask + 1 }
    }

    /// Tells whether one more address can be handed out.
    pub fn room(&self) -> (b: bool)
        ensures
            b == self.has_room(),
    {
        self.next != 0
    }

    /// The number of live addresses.
    pub fn len(&self) -> (n: usize)
        ensures
            n == self@.len(),
    {
        self.nodes.len()
    }

    /// Tells whether `addr` is live.
    pub fn contains(&self, addr: usize) -> (b: bool)
        ensures
            b == self@.contains_key(addr),
    {
        self.nodes.contains_key(&addr)
    }

    /// Puts `value` at a fresh address and returns the address.
    pub fn allocate(&mut self, value: T) -> (addr: usize)
        requires
            old(self).wf(),
            old(self).has_room(),
        ensures
            final(self).wf(),
            addr == old(self).frontier(),
            addr != 0,
            aligned::<T>(addr),
            !old(self)@.contains_key(addr),
            final(self)@ == old(self)@.insert(addr, value),
            final(self).frontier() == spec_bump::<T>(addr),
    {
        let mask = low_bits::<T>();
        let addr = self.next;
        let next = if addr < usize::MAX - mask {
            addr + (mask + 1)
        } else {
            0
        };
        proof {
            let al = (mask + 1) as usize;
            if next != 0 {
                assert(al != 0 && mask == (al - 1) as usize && al & mask == 0 && addr & mask == 0
                    && next == (addr + al) as usize ==> next & mask == 0) by (bit_vector);
            } else {
                assert(0usize & mask == 0) by (bit_vector);
            }
        }
        self.nodes.insert(addr, value);
        self.next = next;
        proof {
            assert(self.nodes@ == old(self).nodes@.insert(addr, value));
            assert forall|a: usize| (#[trigger] self@.contains_key(a)) implies a != 0 && aligned::<
                T,
            >(a) && (self.frontier() != 0 ==> a < self.frontier()) by {
                if a != addr {
                    assert(old(self)@.contains_key(a));
                }
            }
        }
        addr
    }

    /// The value at `addr`.
    pub fn get(&self, addr: usize) -> (value: &T)
        requires
            self@.contains_key(addr),
        ensures
            *value == self@[addr],
    {
        let found = self.nodes.get(&addr);
        found.unwrap()
    }

    /// Puts `value` at the live address `addr` and returns what was there.
    pub fn replace(&mut self, addr: usize, value: T) -> (prev: T)
        requires
            old(self).wf(),
            old(self)@.contains_key(addr),
        ensures
            final(self).wf(),
            prev == old(self)@[addr],
            final(self)@ == old(self)@.insert(addr, value),
            final(self).frontier() == old(self).frontier(),
    {
        let prev = self.nodes.insert(addr, value);
        prev.unwrap()
    }

    /// Frees `addr` and returns what it held. The address is never live again.
    pub fn take(&mut self, addr: usize) -> (value: T)
        requires
            old(self).wf(),
            old(self)@.contains_key(addr),
        ensures
            final(self).wf(),
            value == old(self)@[addr],
            final(self)@ == old(self)@.remove(addr),
            final(self).frontier() == old(self).frontier(),
    {
        let value = self.nodes.remove(&addr);
        value.unwrap()
    }
}

} // verus!
