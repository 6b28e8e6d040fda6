//! The tagged pointer word and its owned, borrowed and atomic forms.
//!
//! An address of a `T` is a multiple of the alignment of `T`, so its low bits
//! are free to hold a tag. A word is an address with a tag in those bits.
use vstd::prelude::*;
use vstd::layout::layout_for_type_is_valid;
use vstd::arithmetic::power2::is_pow2;
use std::marker::PhantomData;
use std::sync::atomic::Ordering;
use crate::heap::Heap;
use crate::hp::{
    Registry, Garbage, NUM_HP, SWEEP_PERIOD, first_index, spec_protect, spec_release, sweep,
};

verus! {

/// The mask of the low bits that an address of a `T` leaves unused: one less
/// than the alignment of `T`.
pub open spec fn spec_low_bits<T>() -> usize {
    (vstd::layout::align_of::<T>() - 1) as usize
}

/// The address part of a word.
pub open spec fn spec_raw<T>(data: usize) -> usize {
    data & !spec_low_bits::<T>()
}

/// The tag part of a word.
pub open spec fn spec_tag<T>(data: usize) -> usize {
    data & spec_low_bits::<T>()
}

/// The word with the address of `data` and the tag `tag`, cut to the bits
/// that are free.
pub open spec fn spec_with_tag<T>(data: usize, tag: usize) -> usize {
    (data & !spec_low_bits::<T>()) | (tag & spec_low_bits::<T>())
}

/// Whether `raw` can be the address of a `T`: its low bits are zero.
pub open spec fn aligned<T>(raw: usize) -> bool {
    raw & spec_low_bits::<T>() == 0
}

/// A power of two shares no bit with its predecessor.
pub proof fn lemma_pow2_mask(n: usize)
    requires
        is_pow2(n as int),
    ensures
        n != 0,
        n & ((n - 1) as usize) == 0,
    decreases n,
{
    reveal(is_pow2);
    if n == 1 {
        assert(1usize & ((1usize - 1) as usize) == 0) by (bit_vector);
    } else {
        let h: usize = (n / 2) as usize;
        lemma_pow2_mask(h);
        let hm = (h - 1) as usize;
        let nm = (n - 1) as usize;
        assert(h != 0 && h & hm == 0 && hm == (h - 1) as usize && n == (2 * h) as usize && nm == (n
            - 1) as usize && h <= n ==> n & nm == 0) by (bit_vector);
    }
}

/// The tag and the address of a word are independent of each other.
pub proof fn lemma_tag_laws<T>(data: usize, tag: usize)
    ensures
        spec_tag::<T>(spec_with_tag::<T>(data, tag)) == tag & spec_low_bits::<T>(),
        spec_raw::<T>(spec_with_tag::<T>(data, tag)) == spec_raw::<T>(data),
        aligned::<T>(spec_raw::<T>(data)),
        spec_raw::<T>(spec_raw::<T>(data)) == spec_raw::<T>(data),
        aligned::<T>(data) ==> spec_raw::<T>(data) == data && spec_tag::<T>(data) == 0,
        spec_tag::<T>(data) == 0 ==> spec_raw::<T>(data) == data,
        spec_with_tag::<T>(data, spec_tag::<T>(data)) == data,
        spec_with_tag::<T>(data, 0) == spec_raw::<T>(data),
        spec_with_tag::<T>(spec_with_tag::<T>(data, tag), 0) == spec_raw::<T>(data),
{
    let m = spec_low_bits::<T>();
    let d = data;
    let t = tag;
    assert(((d & !m) | (t & m)) & m == t & m) by (bit_vector);
    assert(((d & !m) | (t & m)) & !m == d & !m) by (bit_vector);
    assert((d & !m) & m == 0) by (bit_vector);
    assert((d & !m) & !m == d & !m) by (bit_vector);
    assert(d & m == 0 ==> d & !m == d) by (bit_vector);
    assert((d & !m) | ((d & m) & m) == d) by (bit_vector);
    assert((d & !m) | (0usize & m) == d & !m) by (bit_vector);
    assert((((d & !m) | (t & m)) & !m) | (0usize & m) == d & !m) by (bit_vector);
}

/// The null word has no address and no tag, and the tag zero changes no word
/// that has none.
pub proof fn lemma_zero<T>(data: usize)
    ensures
        spec_raw::<T>(0) == 0,
        spec_tag::<T>(0) == 0,
        spec_tag::<T>(spec_with_tag::<T>(data, 0)) == 0,
        spec_tag::<T>(spec_raw::<T>(data)) == 0,
        spec_tag::<T>(data) == 0 ==> spec_with_tag::<T>(data, 0) == data,
        spec_raw::<T>(spec_with_tag::<T>(data, 1)) == spec_raw::<T>(data),
        spec_with_tag::<T>(spec_with_tag::<T>(data, 1), 0) == spec_raw::<T>(data),
        spec_raw::<T>(data) == 0 && spec_tag::<T>(data) == 0 ==> data == 0,
{
    let m = spec_low_bits::<T>();
    let d = data;
    assert(d & !m == 0 && d & m == 0 ==> d == 0) by (bit_vector);
    assert(0usize & !m == 0) by (bit_vector);
    assert(0usize & m == 0) by (bit_vector);
    assert(((d & !m) | (0usize & m)) & m == 0) by (bit_vector);
    assert((d & !m) & m == 0) by (bit_vector);
    assert(d & m == 0 ==> (d & !m) | (0usize & m) == d) by (bit_vector);
    assert(((d & !m) | (1usize & m)) & !m == d & !m) by (bit_vector);
    assert((((d & !m) | (1usize & m)) & !m) | (0usize & m) == d & !m) by (bit_vector);
}

/// The mask of the low bits that an address of a `T` leaves unused.
pub fn low_bits<T>() -> (mask: usize)
    ensures
        mask == spec_low_bits::<T>(),
        mask < usize::MAX,
        mask + 1 == vstd::layout::align_of::<T>(),
        (mask + 1) as usize & mask == 0,
{
    layout_for_type_is_valid::<T>();
    let align = core::mem::align_of::<T>();
    proof {
        lemma_pow2_mask(align);
    }
    align - 1
}

/// The word `data` with its tag replaced by `tag`. The tag is cut to the
/// bits that an address of a `T` leaves unused.
pub fn data_with_tag<T>(data: usize, tag: usize) -> (word: usize)
    ensures
        word == spec_with_tag::<T>(data, tag),
{
    (data & !low_bits::<T>()) | (tag & low_bits::<T>())
}

/// Tells whether `raw` is aligned as an address of a `T` has to be.
pub fn ensure_aligned<T>(raw: usize) -> (ok: bool)
    ensures
        ok == aligned::<T>(raw),
{
    raw & low_bits::<T>() == 0
}

} // verus!

verus! {

/// A borrowed word: an address with a tag, which owns nothing. It may be
/// null, and it may outlive what it points to; whoever follows it into a heap
/// has to know that the address is live there.
pub struct Ptr<T> {
    pub data: usize,
    _marker: PhantomData<T>,
}

impl<T> View for Ptr<T> {
    type V = usize;

    /// The word itself.
    closed spec fn view(&self) -> usize {
        self.data
    }
}

impl<T> Clone for Ptr<T> {
    fn clone(&self) -> (r: Self)
        ensures
            r@ == self@,
    {
        Ptr { data: self.data, _marker: PhantomData }
    }
}

impl<T> Copy for Ptr<T> {

}

impl<T> Ptr<T> {
    /// The address part of the word.
    pub open spec fn spec_as_raw(&self) -> usize {
        spec_raw::<T>(self@)
    }

    /// The tag part of the word.
    pub open spec fn spec_tag(&self) -> usize {
        spec_tag::<T>(self@)
    }

    /// Whether the address part is zero.
    pub open spec fn spec_is_null(&self) -> bool {
        self.spec_as_raw() == 0
    }

    /// The pointer that holds the word `data`.
    pub fn from_data(data: usize) -> (p: Self)
        ensures
            p@ == data,
    {
        Ptr { data: data, _marker: PhantomData }
    }

    /// The word of the pointer.
    pub fn word(&self) -> (data: usize)
        ensures
            data == self@,
    {
        self.data
    }

    /// The null pointer, with tag zero.
    pub fn null() -> (p: Self)
        ensures
            p@ == 0,
            p.spec_is_null(),
            p.spec_tag() == 0,
    {
        proof {
            let m = spec_low_bits::<T>();
            assert(0usize & !m == 0) by (bit_vector);
            assert(0usize & m == 0) by (bit_vector);
        }
        Ptr { data: 0, _marker: PhantomData }
    }

    /// The pointer to the address `raw`, with tag zero.
    pub fn from_raw(raw: usize) -> (p: Self)
        requires
            aligned::<T>(raw),
        ensures
            p@ == raw,
            p.spec_as_raw() == raw,
            p.spec_tag() == 0,
    {
        proof {
            lemma_tag_laws::<T>(raw, 0);
        }
        Ptr { data: raw, _marker: PhantomData }
    }

    /// Tells whether the address part is zero.
    pub fn is_null(&self) -> (b: bool)
        ensures
            b == self.spec_is_null(),
    {
        self.as_raw() == 0
    }

    /// The address part of the word, without the tag.
    pub fn as_raw(&self) -> (raw: usize)
        ensures
            raw == self.spec_as_raw(),
            aligned::<T>(raw),
    {
        proof {
            lemma_tag_laws::<T>(self.data, 0);
        }
        self.data & !low_bits::<T>()
    }

    /// The tag part of the word.
    pub fn tag(&self) -> (tag: usize)
        ensures
            tag == self.spec_tag(),
            tag <= spec_low_bits::<T>(),
    {
        let mask = low_bits::<T>();
        let data = self.data;
        assert(data & mask <= mask) by (bit_vector);
        data & mask
    }

    /// The same address with the tag `tag`, cut to the bits that are free.
    pub fn with_tag(&self, tag: usize) -> (p: Self)
        ensures
            p@ == spec_with_tag::<T>(self@, tag),
            p.spec_as_raw() == self.spec_as_raw(),
            p.spec_tag() == tag & spec_low_bits::<T>(),
    {
        proof {
            lemma_tag_laws::<T>(self.data, tag);
        }
        Self::from_data(data_with_tag::<T>(self.data, tag))
    }
}

} // verus!

verus! {

/// An owned value that is in no heap yet, or no longer. It carries a word as
/// a pointer does: the tag it will be published with, and the address it had
/// in the heap it was taken from (zero for a value that never was in one).
pub struct Owned<T> {
    pub data: usize,
    pub value: T,
}

impl<T> Owned<T> {
    /// Owns `value`, with the word zero.
    pub fn new(value: T) -> (o: Self)
        ensures
            o.data == 0,
            o.value == value,
    {
        Owned { data: 0, value: value }
    }

    /// Owns what `b` holds, with the word zero.
    pub fn from_box(b: Box<T>) -> (o: Self)
        ensures
            o.data == 0,
            o.value == *b,
    {
        Owned { data: 0, value: *b }
    }

    /// Puts the value into `heap` and returns the pointer to it, which keeps
    /// the tag of `self`.
    pub fn into_ptr(self, heap: &mut Heap<T>) -> (p: Ptr<T>)
        requires
            old(heap).wf(),
            old(heap).has_room(),
        ensures
            final(heap).wf(),
            final(heap)@ == old(heap)@.insert(old(heap).frontier(), self.value),
            final(heap).frontier() == crate::heap::spec_bump::<T>(old(heap).frontier()),
            p@ == spec_with_tag::<T>(old(heap).frontier(), self.data),
            p.spec_as_raw() == old(heap).frontier(),
            p.spec_tag() == spec_tag::<T>(self.data),
            !p.spec_is_null(),
    {
        let tag = self.data;
        let addr = heap.allocate(self.value);
        proof {
            lemma_tag_laws::<T>(addr, tag);
            lemma_tag_laws::<T>(tag, 0);
            let m = spec_low_bits::<T>();
            assert((tag & m) & m == tag & m) by (bit_vector);
        }
        Ptr::from_data(data_with_tag::<T>(addr, tag))
    }

    /// The tag part of the word.
    pub fn tag(&self) -> (tag: usize)
        ensures
            tag == spec_tag::<T>(self.data),
    {
        self.data & low_bits::<T>()
    }

    /// The same value with the tag `tag`, cut to the bits that are free.
    pub fn with_tag(self, tag: usize) -> (o: Self)
        ensures
            o.data == spec_with_tag::<T>(self.data, tag),
            o.value == self.value,
            spec_tag::<T>(o.data) == tag & spec_low_bits::<T>(),
    {
        proof {
            lemma_tag_laws::<T>(self.data, tag);
        }
        Owned { data: data_with_tag::<T>(self.data, tag), value: self.value }
    }

    /// The value.
    pub fn as_ref(&self) -> (value: &T)
        ensures
            *value == self.value,
    {
        &self.value
    }

    /// Gives the value up.
    pub fn into_inner(self) -> (value: T)
        ensures
            value == self.value,
    {
        self.value
    }
}

impl<T> Ptr<T> {
    /// The value that the pointer points to in `heap`.
    pub fn deref<'a>(&self, heap: &'a Heap<T>) -> (value: &'a T)
        requires
            heap@.contains_key(self.spec_as_raw()),
        ensures
            *value == heap@[self.spec_as_raw()],
    {
        heap.get(self.as_raw())
    }

    /// The value that the pointer points to in `heap`, or `None` for the null
    /// pointer.
    pub fn as_ref<'a>(&self, heap: &'a Heap<T>) -> (value: Option<&'a T>)
        requires
            self.spec_is_null() || heap@.contains_key(self.spec_as_raw()),
        ensures
            self.spec_is_null() ==> value is None,
            !self.spec_is_null() ==> value == Some(&heap@[self.spec_as_raw()]),
    {
        if self.is_null() {
            None
        } else {
            Some(heap.get(self.as_raw()))
        }
    }

    /// Takes the value out of `heap` and frees its address. The owned value
    /// keeps the word of the pointer.
    pub fn into_owned(self, heap: &mut Heap<T>) -> (o: Owned<T>)
        requires
            old(heap).wf(),
            old(heap)@.contains_key(self.spec_as_raw()),
        ensures
            final(heap).wf(),
            final(heap)@ == old(heap)@.remove(self.spec_as_raw()),
            final(heap).frontier() == old(heap).frontier(),
            o.data == self@,
            o.value == old(heap)@[self.spec_as_raw()],
    {
        let value = heap.take(self.as_raw());
        Owned { data: self.data, value: value }
    }
}

/// A cell that holds a word. Its content is read by `load` and replaced by
/// the other operations, each in one step.
pub struct Atomic<T> {
    pub data: usize,
    _marker: PhantomData<T>,
}

impl<T> View for Atomic<T> {
    type V = usize;

    /// The word in the cell.
    closed spec fn view(&self) -> usize {
        self.data
    }
}

impl<T> Atomic<T> {
    /// The cell that holds the word `data`.
    pub fn from_data(data: usize) -> (a: Self)
        ensures
            a@ == data,
    {
        Atomic { data: data, _marker: PhantomData }
    }

    /// The cell that holds the null pointer.
    pub fn null() -> (a: Self)
        ensures
            a@ == 0,
    {
        Atomic { data: 0, _marker: PhantomData }
    }

    /// Gives the cell up for the word in it.
    pub fn into_data(self) -> (data: usize)
        ensures
            data == self@,
    {
        self.data
    }

    /// Puts `value` into `heap` and returns a cell that points to it.
    pub fn new(value: T, heap: &mut Heap<T>) -> (a: Self)
        requires
            old(heap).wf(),
            old(heap).has_room(),
        ensures
            final(heap).wf(),
            final(heap)@ == old(heap)@.insert(old(heap).frontier(), value),
            a@ == old(heap).frontier(),
    {
        proof {
            lemma_tag_laws::<T>(heap.frontier(), 0);
        }
        Self::from_owned(Owned::new(value), heap)
    }

    /// Puts the value of `owned` into `heap` and returns a cell that points to
    /// it, with the tag of `owned`.
    pub fn from_owned(owned: Owned<T>, heap: &mut Heap<T>) -> (a: Self)
        requires
            old(heap).wf(),
            old(heap).has_room(),
        ensures
            final(heap).wf(),
            final(heap)@ == old(heap)@.insert(old(heap).frontier(), owned.value),
            a@ == spec_with_tag::<T>(old(heap).frontier(), owned.data),
    {
        let p = owned.into_ptr(heap);
        Self::from_data(p.data)
    }

    /// The cell that holds the word of `ptr`.
    pub fn from_ptr(ptr: Ptr<T>) -> (a: Self)
        ensures
            a@ == ptr@,
    {
        Self::from_data(ptr.data)
    }

    /// Reads the cell.
    pub fn load(&self, ord: Ordering) -> (p: Ptr<T>)
        ensures
            p@ == self@,
    {
        Ptr::from_data(self.data)
    }

    /// Writes the word of `new` into the cell.
    pub fn store(&mut self, new: Ptr<T>, ord: Ordering)
        ensures
            final(self)@ == new@,
    {
        self.data = new.data;
    }

    /// Puts the value of `new` into `heap` and writes its address into the
    /// cell, with the tag of `new`.
    pub fn store_owned(&mut self, new: Owned<T>, ord: Ordering, heap: &mut Heap<T>)
        requires
            old(heap).wf(),
            old(heap).has_room(),
        ensures
            final(heap).wf(),
            final(heap)@ == old(heap)@.insert(old(heap).frontier(), new.value),
            final(self)@ == spec_with_tag::<T>(old(heap).frontier(), new.data),
    {
        let p = new.into_ptr(heap);
        self.data = p.data;
    }

    /// Writes the word of `new` into the cell and returns what was there.
    pub fn swap(&mut self, new: Ptr<T>, ord: Ordering) -> (prev: Ptr<T>)
        ensures
            prev@ == old(self)@,
            final(self)@ == new@,
    {
        let prev = Ptr::from_data(self.data);
        self.data = new.data;
        prev
    }

    /// Writes the word of `new` into the cell if the cell holds the word of
    /// `current`. If it holds another word, the cell stays as it is and that
    /// word comes back.
    pub fn compare_and_set(&mut self, current: Ptr<T>, new: Ptr<T>, ord: Ordering) -> (r: Result<
        (),
        Ptr<T>,
    >)
        ensures
            old(self)@ == current@ ==> r is Ok && final(self)@ == new@,
            old(self)@ != current@ ==> final(self)@ == old(self)@ && (r matches Err(p) && p@
                == old(self)@),
    {
        if self.data == current.data {
            self.data = new.data;
            Ok(())
        } else {
            Err(Ptr::from_data(self.data))
        }
    }

    /// As `compare_and_set`. This cell never fails without cause.
    pub fn compare_and_set_weak(&mut self, current: Ptr<T>, new: Ptr<T>, ord: Ordering) -> (r:
        Result<(), Ptr<T>>)
        ensures
            old(self)@ == current@ ==> r is Ok && final(self)@ == new@,
            old(self)@ != current@ ==> final(self)@ == old(self)@ && (r matches Err(p) && p@
                == old(self)@),
    {
        self.compare_and_set(current, new, ord)
    }

    /// Publishes `new` if the cell holds the word of `current`: its value goes
    /// into `heap`, its address with its tag into the cell, and the pointer
    /// that was written comes back. If the cell holds another word, nothing
    /// changes, and that word comes back together with `new`.
    pub fn compare_and_set_owned(
        &mut self,
        current: Ptr<T>,
        new: Owned<T>,
        ord: Ordering,
        heap: &mut Heap<T>,
    ) -> (r: Result<Ptr<T>, (Ptr<T>, Owned<T>)>)
        requires
            old(heap).wf(),
            old(heap).has_room(),
        ensures
            final(heap).wf(),
            old(self)@ == current@ ==> {
                &&& final(heap)@ == old(heap)@.insert(old(heap).frontier(), new.value)
                &&& final(self)@ == spec_with_tag::<T>(old(heap).frontier(), new.data)
                &&& r matches Ok(p) && p@ == final(self)@
            },
            old(self)@ != current@ ==> {
                &&& final(heap)@ == old(heap)@
                &&& final(heap).frontier() == old(heap).frontier()
                &&& final(self)@ == old(self)@
                &&& r matches Err((p, o)) && p@ == old(self)@ && o == new
            },
    {
        if self.data == current.data {
            let p = new.into_ptr(heap);
            self.data = p.data;
            Ok(p)
        } else {
            Err((Ptr::from_data(self.data), new))
        }
    }

    /// As `compare_and_set_owned`. This cell never fails without cause.
    pub fn compare_and_set_weak_owned(
        &mut self,
        current: Ptr<T>,
        new: Owned<T>,
        ord: Ordering,
        heap: &mut Heap<T>,
    ) -> (r: Result<Ptr<T>, (Ptr<T>, Owned<T>)>)
        requires
            old(heap).wf(),
            old(heap).has_room(),
        ensures
            final(heap).wf(),
            old(self)@ == current@ ==> {
                &&& final(heap)@ == old(heap)@.insert(old(heap).frontier(), new.value)
                &&& final(self)@ == spec_with_tag::<T>(old(heap).frontier(), new.data)
                &&& r matches Ok(p) && p@ == final(self)@
            },
            old(self)@ != current@ ==> {
                &&& final(heap)@ == old(heap)@
                &&& final(heap).frontier() == old(heap).frontier()
                &&& final(self)@ == old(self)@
                &&& r matches Err((p, o)) && p@ == old(self)@ && o == new
            },
    {
        self.compare_and_set_owned(current, new, ord, heap)
    }

    /// Clears the tag bits that `val` does not hold, and returns the pointer
    /// that was in the cell. The address stays.
    pub fn fetch_and(&mut self, val: usize, ord: Ordering) -> (prev: Ptr<T>)
        ensures
            prev@ == old(self)@,
            final(self)@ == old(self)@ & (val | !spec_low_bits::<T>()),
            spec_raw::<T>(final(self)@) == spec_raw::<T>(old(self)@),
            spec_tag::<T>(final(self)@) == spec_tag::<T>(old(self)@) & val,
    {
        let mask = low_bits::<T>();
        let d = self.data;
        assert((d & (val | !mask)) & !mask == d & !mask) by (bit_vector);
        assert((d & (val | !mask)) & mask == (d & mask) & val) by (bit_vector);
        self.data = d & (val | !mask);
        Ptr::from_data(d)
    }

    /// Sets the tag bits that `val` holds, and returns the pointer that was in
    /// the cell. The address stays.
    pub fn fetch_or(&mut self, val: usize, ord: Ordering) -> (prev: Ptr<T>)
        ensures
            prev@ == old(self)@,
            final(self)@ == old(self)@ | (val & spec_low_bits::<T>()),
            spec_raw::<T>(final(self)@) == spec_raw::<T>(old(self)@),
            spec_tag::<T>(final(self)@) == spec_tag::<T>(old(self)@) | (val & spec_low_bits::<
                T,
            >()),
    {
        let mask = low_bits::<T>();
        let d = self.data;
        assert((d | (val & mask)) & !mask == d & !mask) by (bit_vector);
        assert((d | (val & mask)) & mask == (d & mask) | (val & mask)) by (bit_vector);
        self.data = d | (val & mask);
        Ptr::from_data(d)
    }

    /// Flips the tag bits that `val` holds, and returns the pointer that was
    /// in the cell. The address stays.
    pub fn fetch_xor(&mut self, val: usize, ord: Ordering) -> (prev: Ptr<T>)
        ensures
            prev@ == old(self)@,
            final(self)@ == old(self)@ ^ (val & spec_low_bits::<T>()),
            spec_raw::<T>(final(self)@) == spec_raw::<T>(old(self)@),
            spec_tag::<T>(final(self)@) == spec_tag::<T>(old(self)@) ^ (val & spec_low_bits::<
                T,
            >()),
    {
        let mask = low_bits::<T>();
        let d = self.data;
        assert((d ^ (val & mask)) & !mask == d & !mask) by (bit_vector);
        assert((d ^ (val & mask)) & mask == (d & mask) ^ (val & mask)) by (bit_vector);
        self.data = d ^ (val & mask);
        Ptr::from_data(d)
    }
}

} // verus!

verus! {

/// The claim of one thread on one address. While the address stands in a
/// slot of the thread, no sweep frees the node at it. The claim is given
/// back by `release`, or together with the node by `free`.
pub struct HazardPtr<T> {
    data: usize,
    _marker: PhantomData<T>,
}

impl<T> View for HazardPtr<T> {
    type V = usize;

    /// The address that is claimed.
    closed spec fn view(&self) -> usize {
        self.data
    }
}

impl<T> HazardPtr<T> {
    /// Publishes the address in the first free slot of `thread`. Fails where
    /// no slot is free.
    pub fn register<G>(&self, reg: &mut Registry<G>, thread: usize) -> (r: Result<(), ()>)
        requires
            old(reg).wf(),
            old(reg).registered(thread),
        ensures
            final(reg).wf(),
            final(reg).registered(thread),
            final(reg).deferred() == old(reg).deferred(),
            final(reg).same_others(old(reg), thread),
            final(reg).pace(thread) == old(reg).pace(thread),
            final(reg).slots(thread) == spec_protect(old(reg).slots(thread), self@),
            r is Ok <==> first_index(old(reg).slots(thread), 0, 0) < NUM_HP,
    {
        match reg.protect(thread, self.data) {
            Ok(()) => Ok(()),
            Err(_) => Err(()),
        }
    }

    /// Clears the first slot of `thread` that holds the address. Fails where
    /// none does.
    pub fn deregister<G>(&self, reg: &mut Registry<G>, thread: usize) -> (r: Result<(), ()>)
        requires
            old(reg).wf(),
            old(reg).registered(thread),
        ensures
            final(reg).wf(),
            final(reg).registered(thread),
            final(reg).deferred() == old(reg).deferred(),
            final(reg).same_others(old(reg), thread),
            final(reg).pace(thread) == old(reg).pace(thread),
            final(reg).slots(thread) == spec_release(old(reg).slots(thread), self@),
            r is Ok <==> first_index(old(reg).slots(thread), self@, 0) < NUM_HP,
    {
        match reg.release(thread, self.data) {
            Ok(()) => Ok(()),
            Err(_) => Err(()),
        }
    }

    /// Tells whether a slot of some thread holds the address. A claim that is
    /// still registered counts too.
    pub fn scan<G>(&self, reg: &Registry<G>) -> (b: bool)
        requires
            reg.wf(),
        ensures
            b == reg.hazardous(self@),
    {
        reg.scan_addr(self.data)
    }

    /// Tells whether a slot of some thread holds `addr`.
    pub fn scan_addr<G>(addr: usize, reg: &Registry<G>) -> (b: bool)
        requires
            reg.wf(),
        ensures
            b == reg.hazardous(addr),
    {
        reg.scan_addr(addr)
    }

    /// Returns at once: nodes are not waited for but queued, and `free` does
    /// that.
    pub fn wait(&self) {
    }

    /// Gives the claim back and returns once no slot of any thread holds the
    /// address. Nothing else runs meanwhile, so no slot may hold it by then.
    pub fn spin<G>(&self, reg: &mut Registry<G>, thread: usize)
        requires
            old(reg).wf(),
            old(reg).registered(thread),
            first_index(old(reg).slots(thread), self@, 0) < NUM_HP,
            !spec_release(old(reg).slots(thread), self@).contains(self@),
            forall|t: usize|
                t != thread && #[trigger] old(reg).registered(t) ==> !old(reg).slots(t).contains(
                    self@,
                ),
        ensures
            final(reg).wf(),
            final(reg).registered(thread),
            final(reg).deferred() == old(reg).deferred(),
            final(reg).same_others(old(reg), thread),
            final(reg).pace(thread) == old(reg).pace(thread),
            final(reg).slots(thread) == spec_release(old(reg).slots(thread), self@),
            !final(reg).hazardous(self@),
    {
        let _ = self.deregister(reg, thread);
        proof {
            if reg.hazardous(self@) {
                let t = choose|t: usize| #[trigger]
                    crate::hp::has_entry(reg.entries(), t) && reg.slots(t).contains(self@);
                if t != thread {
                    assert(old(reg).registered(t));
                }
            }
        }
        while self.scan(reg)
            invariant
                reg.wf(),
                !reg.hazardous(self@),
            decreases 0int,
        {
        }
    }

    /// Claims the address `ptr` for `thread`.
    pub fn from_raw<G>(ptr: usize, reg: &mut Registry<G>, thread: usize) -> (hp: Self)
        requires
            old(reg).wf(),
            old(reg).registered(thread),
            first_index(old(reg).slots(thread), 0, 0) < NUM_HP,
        ensures
            hp@ == ptr,
            final(reg).wf(),
            final(reg).registered(thread),
            final(reg).deferred() == old(reg).deferred(),
            final(reg).same_others(old(reg), thread),
            final(reg).pace(thread) == old(reg).pace(thread),
            final(reg).slots(thread) == spec_protect(old(reg).slots(thread), ptr),
    {
        let hp = HazardPtr { data: ptr, _marker: PhantomData };
        let _ = hp.register(reg, thread);
        hp
    }

    /// A claim on the address `ptr` that stands in no slot.
    pub fn fake(ptr: usize) -> (hp: Self)
        ensures
            hp@ == ptr,
    {
        HazardPtr { data: ptr, _marker: PhantomData }
    }

    /// A claim on the address `data` that stands in no slot.
    pub fn from_data(data: usize) -> (hp: Self)
        ensures
            hp@ == data,
    {
        HazardPtr { data: data, _marker: PhantomData }
    }

    /// Claims the address of `ptr` for `thread`.
    pub fn from_ptr<G>(ptr: Ptr<T>, reg: &mut Registry<G>, thread: usize) -> (hp: Self)
        requires
            old(reg).wf(),
            old(reg).registered(thread),
            first_index(old(reg).slots(thread), 0, 0) < NUM_HP,
        ensures
            hp@ == ptr.spec_as_raw(),
            final(reg).wf(),
            final(reg).registered(thread),
            final(reg).deferred() == old(reg).deferred(),
            final(reg).same_others(old(reg), thread),
            final(reg).pace(thread) == old(reg).pace(thread),
            final(reg).slots(thread) == spec_protect(old(reg).slots(thread), ptr.spec_as_raw()),
    {
        Self::from_raw(ptr.as_raw(), reg, thread)
    }

    /// Puts the value of `ptr` into `heap` and claims its address for
    /// `thread`.
    pub fn from_owned<G>(ptr: Owned<T>, reg: &mut Registry<G>, thread: usize, heap: &mut Heap<T>) -> (hp:
        Self)
        requires
            old(reg).wf(),
            old(reg).registered(thread),
            first_index(old(reg).slots(thread), 0, 0) < NUM_HP,
            old(heap).wf(),
            old(heap).has_room(),
        ensures
            hp@ == old(heap).frontier(),
            final(heap).wf(),
            final(heap)@ == old(heap)@.insert(old(heap).frontier(), ptr.value),
            final(reg).wf(),
            final(reg).registered(thread),
            final(reg).deferred() == old(reg).deferred(),
            final(reg).same_others(old(reg), thread),
            final(reg).pace(thread) == old(reg).pace(thread),
            final(reg).slots(thread) == spec_protect(old(reg).slots(thread), hp@),
    {
        let p = ptr.into_ptr(heap);
        Self::from_raw(p.as_raw(), reg, thread)
    }

    /// Gives the claim back.
    pub fn release<G>(self, reg: &mut Registry<G>, thread: usize)
        requires
            old(reg).wf(),
            old(reg).registered(thread),
        ensures
            final(reg).wf(),
            final(reg).registered(thread),
            final(reg).deferred() == old(reg).deferred(),
            final(reg).same_others(old(reg), thread),
            final(reg).pace(thread) == old(reg).pace(thread),
            final(reg).slots(thread) == spec_release(old(reg).slots(thread), self@),
    {
        let _ = self.deregister(reg, thread);
    }

    /// Gives the claim back and takes the node at the address out of `heap`.
    pub fn into_owned<G>(self, reg: &mut Registry<G>, thread: usize, heap: &mut Heap<T>) -> (o:
        Owned<T>)
        requires
            old(reg).wf(),
            old(reg).registered(thread),
            old(heap).wf(),
            old(heap)@.contains_key(spec_raw::<T>(self@)),
        ensures
            final(reg).wf(),
            final(reg).registered(thread),
            final(reg).deferred() == old(reg).deferred(),
            final(reg).same_others(old(reg), thread),
            final(reg).pace(thread) == old(reg).pace(thread),
            final(reg).slots(thread) == spec_release(old(reg).slots(thread), self@),
            final(heap).wf(),
            final(heap)@ == old(heap)@.remove(spec_raw::<T>(self@)),
            final(heap).frontier() == old(heap).frontier(),
            o.data == self@,
            o.value == old(heap)@[spec_raw::<T>(self@)],
    {
        let _ = self.deregister(reg, thread);
        Ptr::from_data(self.data).into_owned(heap)
    }

    /// Retires the node at the address: the claim is given back, the node
    /// leaves `heap` for the queue of `reg`, and the retirement is counted,
    /// which at every `SWEEP_PERIOD`-th time sweeps that queue.
    pub fn free(self, reg: &mut Registry<T>, thread: usize, heap: &mut Heap<T>)
        requires
            old(reg).wf(),
            old(reg).registered(thread),
            old(heap).wf(),
            old(heap)@.contains_key(spec_raw::<T>(self@)),
        ensures
            final(reg).wf(),
            final(reg).registered(thread),
            final(reg).same_others(old(reg), thread),
            final(reg).slots(thread) == spec_release(old(reg).slots(thread), self@),
            final(heap).wf(),
            final(heap)@ == old(heap)@.remove(spec_raw::<T>(self@)),
            final(heap).frontier() == old(heap).frontier(),
            final(reg).deferred() == spec_retire(
                old(reg).deferred(),
                Garbage(
                    (Owned { data: self@, value: old(heap)@[spec_raw::<T>(self@)] }),
                    self@,
                ),
                old(reg).pace(thread),
                final(reg).hazards(),
            ),
            final(reg).pace(thread) == spec_tick(old(reg).pace(thread)),
    {
        defer_hp(self, reg, thread, heap);
        reg.free_from_queue(thread);
    }
}

/// The pace of a thread after one more retirement.
pub open spec fn spec_tick(pace: usize) -> usize {
    if pace + 1 == SWEEP_PERIOD {
        0
    } else {
        (pace + 1) as usize
    }
}

/// The queue after `garbage` was retired by a thread of pace `pace`: the
/// garbage joins the queue, which is swept if the thread is due.
pub open spec fn spec_retire<G>(
    queue: Seq<Garbage<G>>,
    garbage: Garbage<G>,
    pace: usize,
    hazards: Set<usize>,
) -> Seq<Garbage<G>> {
    if pace + 1 == SWEEP_PERIOD {
        sweep(queue.push(garbage), hazards, SWEEP_PERIOD as nat)
    } else {
        queue.push(garbage)
    }
}

/// Gives the claim `hp` back and moves the node at its address from `heap`
/// to the back of the queue of `reg`.
pub fn defer_hp<T>(hp: HazardPtr<T>, reg: &mut Registry<T>, thread: usize, heap: &mut Heap<T>)
    requires
        old(reg).wf(),
        old(reg).registered(thread),
        old(heap).wf(),
        old(heap)@.contains_key(spec_raw::<T>(hp@)),
    ensures
        final(reg).wf(),
        final(reg).registered(thread),
        final(reg).same_others(old(reg), thread),
        final(reg).pace(thread) == old(reg).pace(thread),
        final(reg).slots(thread) == spec_release(old(reg).slots(thread), hp@),
        final(heap).wf(),
        final(heap)@ == old(heap)@.remove(spec_raw::<T>(hp@)),
        final(heap).frontier() == old(heap).frontier(),
        final(reg).deferred() == old(reg).deferred().push(
            Garbage((Owned { data: hp@, value: old(heap)@[spec_raw::<T>(hp@)] }), hp@),
        ),
{
    let owned = hp.into_owned(reg, thread, heap);
    reg.defer(Garbage::new(owned));
}

impl<T> Ptr<T> {
    /// Claims the address of the pointer for `thread`.
    pub fn hazard<G>(self, reg: &mut Registry<G>, thread: usize) -> (hp: HazardPtr<T>)
        requires
            old(reg).wf(),
            old(reg).registered(thread),
            first_index(old(reg).slots(thread), 0, 0) < NUM_HP,
        ensures
            hp@ == self.spec_as_raw(),
            final(reg).wf(),
            final(reg).registered(thread),
            final(reg).deferred() == old(reg).deferred(),
            final(reg).same_others(old(reg), thread),
            final(reg).pace(thread) == old(reg).pace(thread),
            final(reg).slots(thread) == spec_protect(old(reg).slots(thread), self.spec_as_raw()),
    {
        HazardPtr::from_ptr(self, reg, thread)
    }
}

impl<T> Owned<T> {
    /// Puts the value into `heap` and claims its address for `thread`.
    pub fn hazard<G>(self, reg: &mut Registry<G>, thread: usize, heap: &mut Heap<T>) -> (hp:
        HazardPtr<T>)
        requires
            old(reg).wf(),
            old(reg).registered(thread),
            first_index(old(reg).slots(thread), 0, 0) < NUM_HP,
            old(heap).wf(),
            old(heap).has_room(),
        ensures
            hp@ == old(heap).frontier(),
            final(heap).wf(),
            final(heap)@ == old(heap)@.insert(old(heap).frontier(), self.value),
            final(reg).wf(),
            final(reg).registered(thread),
            final(reg).deferred() == old(reg).deferred(),
            final(reg).same_others(old(reg), thread),
            final(reg).pace(thread) == old(reg).pace(thread),
            final(reg).slots(thread) == spec_protect(old(reg).slots(thread), hp@),
    {
        HazardPtr::from_owned(self, reg, thread, heap)
    }
}

} // verus!
