//! Hazard pointers, with a fixed number of slots for each thread.
//!
//! A thread publishes the address it is about to follow in one of its slots.
//! A node that was unlinked is retired: it waits in a queue, and a sweep of
//! that queue frees it only if no slot of any thread holds its address.
use vstd::prelude::*;
use std::collections::VecDeque;
use vstd::multiset::Multiset;
use crate::hp::atomic::Owned;

pub mod atomic;
pub mod list;
pub mod queue;

verus! {

/// The number of hazard slots of each thread.
pub const NUM_HP: usize = 5;

/// The number of retirements of one thread between two sweeps, and the
/// number of nodes that one sweep looks at.
pub const SWEEP_PERIOD: usize = 32;

/// Why a slot could not be taken or given back.
#[derive(Debug, Clone, Copy)]
pub enum HazardError {
    /// Every slot of the thread is taken.
    NoSpace,
    /// No slot of the thread holds the address.
    NotFound,
}

/// The hazard slots of one thread. A slot holds an address, or zero when it
/// is free.
#[derive(Debug)]
pub struct ThreadEntry {
    hazard_pointers: [usize; NUM_HP],
    thread_id: usize,
    retired: usize,
}

/// The first index from `from` on at which `slots` holds `addr`, or the
/// length of `slots` if there is none.
pub open spec fn first_index(slots: Seq<usize>, addr: usize, from: int) -> int
    decreases slots.len() - from,
{
    if from < 0 || from >= slots.len() {
        slots.len() as int
    } else if slots[from] == addr {
        from
    } else {
        first_index(slots, addr, from + 1)
    }
}

/// `first_index` finds the first place, and only a place that holds `addr`.
pub proof fn lemma_first_index(slots: Seq<usize>, addr: usize, from: int)
    requires
        0 <= from <= slots.len(),
    ensures
        from <= first_index(slots, addr, from) <= slots.len(),
        first_index(slots, addr, from) < slots.len() ==> slots[first_index(slots, addr, from)]
            == addr,
        forall|j: int| from <= j < first_index(slots, addr, from) ==> slots[j] != addr,
    decreases slots.len() - from,
{
    if from < slots.len() && slots[from] != addr {
        lemma_first_index(slots, addr, from + 1);
    }
}

/// The slots after `addr` was published in the first free one. Nothing
/// changes where no slot is free.
pub open spec fn spec_protect(slots: Seq<usize>, addr: usize) -> Seq<usize> {
    let i = first_index(slots, 0, 0);
    if i < slots.len() {
        slots.update(i, addr)
    } else {
        slots
    }
}

/// The slots after the first one that holds `addr` was cleared. Nothing
/// changes where no slot holds it.
pub open spec fn spec_release(slots: Seq<usize>, addr: usize) -> Seq<usize> {
    let i = first_index(slots, addr, 0);
    if i < slots.len() {
        slots.update(i, 0)
    } else {
        slots
    }
}

/// The number of free slots.
pub open spec fn free_slots(slots: Seq<usize>) -> nat {
    slots.to_multiset().count(0)
}

impl ThreadEntry {
    /// The slots, in their order.
    pub closed spec fn slots(&self) -> Seq<usize> {
        self.hazard_pointers@
    }

    /// The thread that the entry belongs to.
    pub closed spec fn id(&self) -> usize {
        self.thread_id
    }

    /// How many nodes the thread has retired since its last sweep.
    pub closed spec fn pace(&self) -> usize {
        self.retired
    }

    /// The entry has its slots, and its pace is below the period.
    pub open spec fn wf(&self) -> bool {
        &&& self.slots().len() == NUM_HP
        &&& self.pace() < SWEEP_PERIOD
    }

    /// An entry for the thread `id`, with every slot free.
    pub fn new(id: usize) -> (entry: Self)
        ensures
            entry.wf(),
            entry.id() == id,
            entry.pace() == 0,
            forall|i: int| 0 <= i < NUM_HP ==> entry.slots()[i] == 0,
    {
        ThreadEntry { hazard_pointers: [0, 0, 0, 0, 0], thread_id: id, retired: 0 }
    }

    /// Publishes `addr` in the first free slot.
    pub fn protect(&mut self, addr: usize) -> (r: Result<(), HazardError>)
        requires
            old(self).wf(),
        ensures
            final(self).wf(),
            final(self).id() == old(self).id(),
            final(self).pace() == old(self).pace(),
            final(self).slots() == spec_protect(old(self).slots(), addr),
            first_index(old(self).slots(), 0, 0) < NUM_HP ==> r is Ok,
            first_index(old(self).slots(), 0, 0) >= NUM_HP ==> r == Err::<(), HazardError>(
                HazardError::NoSpace,
            ),
    {
        let mut i: usize = 0;
        while i < NUM_HP
            invariant
                i <= NUM_HP,
                self.wf(),
                *self == *old(self),
                first_index(self.slots(), 0, 0) == first_index(self.slots(), 0, i as int),
            decreases NUM_HP - i,
        {
            if self.hazard_pointers[i] == 0 {
                self.hazard_pointers[i] = addr;
                assert(self.slots() =~= old(self).slots().update(i as int, addr));
                return Ok(());
            }
            i += 1;
        }
        Err(HazardError::NoSpace)
    }

    /// Clears the first slot that holds `addr`.
    pub fn release(&mut self, addr: usize) -> (r: Result<(), HazardError>)
        requires
            old(self).wf(),
        ensures
            final(self).wf(),
            final(self).id() == old(self).id(),
            final(self).pace() == old(self).pace(),
            final(self).slots() == spec_release(old(self).slots(), addr),
            first_index(old(self).slots(), addr, 0) < NUM_HP ==> r is Ok,
            first_index(old(self).slots(), addr, 0) >= NUM_HP ==> r == Err::<(), HazardError>(
                HazardError::NotFound,
            ),
    {
        let mut i: usize = 0;
        while i < NUM_HP
            invariant
                i <= NUM_HP,
                self.wf(),
                *self == *old(self),
                first_index(self.slots(), addr, 0) == first_index(self.slots(), addr, i as int),
            decreases NUM_HP - i,
        {
            if self.hazard_pointers[i] == addr {
                self.hazard_pointers[i] = 0;
                assert(self.slots() =~= old(self).slots().update(i as int, 0));
                return Ok(());
            }
            i += 1;
        }
        Err(HazardError::NotFound)
    }

    /// Tells whether a slot holds `addr`.
    pub fn holds(&self, addr: usize) -> (b: bool)
        requires
            self.wf(),
        ensures
            b == self.slots().contains(addr),
    {
        let mut i: usize = 0;
        while i < NUM_HP
            invariant
                i <= NUM_HP,
                self.wf(),
                forall|j: int| 0 <= j < i ==> self.slots()[j] != addr,
            decreases NUM_HP - i,
        {
            if self.hazard_pointers[i] == addr {
                return true;
            }
            i += 1;
        }
        false
    }
}

} // verus!


verus! {

/// A retired object together with the address it had.
pub struct Garbage<G>(pub Owned<G>, pub usize);

impl<G> Garbage<G> {
    /// The garbage that holds `t`, under the word of `t` as its address.
    pub fn new(t: Owned<G>) -> (g: Self)
        ensures
            g.0 == t,
            g.1 == t.data,
    {
        let d = t.data;
        Garbage(t, d)
    }

    /// The address that the object had.
    pub fn address(&self) -> (a: usize)
        ensures
            a == self.1,
    {
        self.1
    }
}

/// The queue after a sweep has looked at up to `n` objects from its front.
/// One whose address is in `hazards` goes to the back of the queue; any
/// other one is freed.
pub open spec fn sweep<G>(queue: Seq<Garbage<G>>, hazards: Set<usize>, n: nat) -> Seq<Garbage<G>>
    decreases n,
{
    if n == 0 || queue.len() == 0 {
        queue
    } else if hazards.contains(queue[0].1) {
        sweep(queue.drop_first().push(queue[0]), hazards, (n - 1) as nat)
    } else {
        sweep(queue.drop_first(), hazards, (n - 1) as nat)
    }
}

/// Whether `thread` has an entry among `entries`.
pub open spec fn has_entry(entries: Seq<Option<ThreadEntry>>, thread: usize) -> bool {
    thread < entries.len() && entries[thread as int] is Some
}

/// Whether a slot of some entry holds `addr`.
pub open spec fn held(entries: Seq<Option<ThreadEntry>>, addr: usize) -> bool {
    exists|t: usize| #[trigger] has_entry(entries, t) && entries[t as int]->0.slots().contains(addr)
}

/// Every entry is well formed and sits at the index of its thread.
pub open spec fn entries_wf(entries: Seq<Option<ThreadEntry>>) -> bool {
    forall|t: usize| #[trigger]
        has_entry(entries, t) ==> entries[t as int]->0.wf() && entries[t as int]->0.id() == t
}

/// The entries of all threads and the queue of retired objects.
pub struct Registry<G> {
    entries: Vec<Option<ThreadEntry>>,
    queue: VecDeque<Garbage<G>>,
}

impl<G> Registry<G> {
    /// The entry of each thread id that was given out, `None` where the
    /// thread has no entry.
    pub closed spec fn entries(&self) -> Seq<Option<ThreadEntry>> {
        self.entries@
    }

    /// The retired objects that wait to be freed, oldest first.
    pub closed spec fn deferred(&self) -> Seq<Garbage<G>> {
        self.queue@
    }

    /// Whether `thread` has an entry.
    pub open spec fn registered(&self, thread: usize) -> bool {
        has_entry(self.entries(), thread)
    }

    /// The slots of `thread`.
    pub open spec fn slots(&self, thread: usize) -> Seq<usize> {
        self.entries()[thread as int]->0.slots()
    }

    /// How many nodes `thread` has retired since its last sweep.
    pub open spec fn pace(&self, thread: usize) -> usize {
        self.entries()[thread as int]->0.pace()
    }

    /// Whether a slot of some thread holds `addr`.
    pub open spec fn hazardous(&self, addr: usize) -> bool {
        held(self.entries(), addr)
    }

    /// The addresses that the slots of all threads hold.
    pub open spec fn hazards(&self) -> Set<usize> {
        Set::new(|addr: usize| held(self.entries(), addr))
    }

    /// Every entry is well formed and sits at the index of its thread.
    pub open spec fn wf(&self) -> bool {
        entries_wf(self.entries())
    }

    /// The entries other than that of `thread` are those of `prev`.
    pub open spec fn same_others(&self, prev: &Self, thread: usize) -> bool {
        &&& self.entries().len() == prev.entries().len()
        &&& forall|t: int|
            0 <= t < prev.entries().len() && t != thread ==> self.entries()[t] == prev.entries()[t]
    }

    /// A registry without threads and without garbage.
    pub fn new() -> (r: Self)
        ensures
            r.wf(),
            r.entries().len() == 0,
            r.deferred().len() == 0,
    {
        Registry { entries: Vec::new(), queue: VecDeque::new() }
    }

    /// Gives out the next thread id. The thread has no entry yet.
    pub fn get_next_thread_id(&mut self) -> (id: usize)
        requires
            old(self).wf(),
        ensures
            final(self).wf(),
            id == old(self).entries().len(),
            final(self).entries() == old(self).entries().push(None),
            final(self).deferred() == old(self).deferred(),
    {
        let id = self.entries.len();
        self.entries.push(None);
        proof {
            assert forall|t: usize| #[trigger] has_entry(self.entries(), t) implies self.entries()[t as int]->0.wf()
                && self.entries()[t as int]->0.id() == t by {
                assert(has_entry(old(self).entries(), t));
            }
        }
        id
    }

    /// Makes sure that `thread` has an entry: one that has none gets a fresh
    /// one, with every slot free.
    pub fn marker(&mut self, thread: usize)
        requires
            old(self).wf(),
            thread < old(self).entries().len(),
        ensures
            final(self).wf(),
            final(self).registered(thread),
            final(self).deferred() == old(self).deferred(),
            final(self).same_others(old(self), thread),
            old(self).registered(thread) ==> final(self).entries() == old(self).entries(),
            !old(self).registered(thread) ==> final(self).pace(thread) == 0 && forall|i: int|
                0 <= i < NUM_HP ==> final(self).slots(thread)[i] == 0,
    {
        if self.entries[thread].is_none() {
            self.entries[thread] = Some(ThreadEntry::new(thread));
        } else {
            assert(self.entries() =~= old(self).entries());
        }
        proof {
            assert forall|t: usize| #[trigger] has_entry(self.entries(), t) implies self.entries()[t as int]->0.wf()
                && self.entries()[t as int]->0.id() == t by {
                if t != thread {
                    assert(has_entry(old(self).entries(), t));
                }
            }
        }
    }

    /// Takes the entry of `thread` away, with whatever its slots hold.
    pub fn remove_thread_local(&mut self, thread: usize)
        requires
            old(self).wf(),
            thread < old(self).entries().len(),
        ensures
            final(self).wf(),
            !final(self).registered(thread),
            final(self).deferred() == old(self).deferred(),
            final(self).entries() == old(self).entries().update(thread as int, None),
    {
        self.entries[thread] = None;
        proof {
            assert forall|t: usize| #[trigger] has_entry(self.entries(), t) implies self.entries()[t as int]->0.wf()
                && self.entries()[t as int]->0.id() == t by {
                assert(has_entry(old(self).entries(), t));
            }
        }
    }

    /// Publishes `addr` in the first free slot of `thread`.
    pub fn protect(&mut self, thread: usize, addr: usize) -> (r: Result<(), HazardError>)
        requires
            old(self).wf(),
            old(self).registered(thread),
        ensures
            final(self).wf(),
            final(self).registered(thread),
            final(self).deferred() == old(self).deferred(),
            final(self).same_others(old(self), thread),
            final(self).pace(thread) == old(self).pace(thread),
            final(self).slots(thread) == spec_protect(old(self).slots(thread), addr),
            first_index(old(self).slots(thread), 0, 0) < NUM_HP ==> r is Ok,
            first_index(old(self).slots(thread), 0, 0) >= NUM_HP ==> r == Err::<(), HazardError>(
                HazardError::NoSpace,
            ),
    {
        let r = match &mut self.entries[thread] {
            Some(entry) => entry.protect(addr),
            None => Err(HazardError::NoSpace),
        };
        proof {
            assert forall|t: usize| #[trigger] has_entry(self.entries(), t) implies self.entries()[t as int]->0.wf()
                && self.entries()[t as int]->0.id() == t by {
                assert(has_entry(old(self).entries(), t));
            }
        }
        r
    }

    /// Clears the first slot of `thread` that holds `addr`.
    pub fn release(&mut self, thread: usize, addr: usize) -> (r: Result<(), HazardError>)
        requires
            old(self).wf(),
            old(self).registered(thread),
        ensures
            final(self).wf(),
            final(self).registered(thread),
            final(self).deferred() == old(self).deferred(),
            final(self).same_others(old(self), thread),
            final(self).pace(thread) == old(self).pace(thread),
            final(self).slots(thread) == spec_release(old(self).slots(thread), addr),
            first_index(old(self).slots(thread), addr, 0) < NUM_HP ==> r is Ok,
            first_index(old(self).slots(thread), addr, 0) >= NUM_HP ==> r == Err::<
                (),
                HazardError,
            >(HazardError::NotFound),
    {
        let r = match &mut self.entries[thread] {
            Some(entry) => entry.release(addr),
            None => Err(HazardError::NotFound),
        };
        proof {
            assert forall|t: usize| #[trigger] has_entry(self.entries(), t) implies self.entries()[t as int]->0.wf()
                && self.entries()[t as int]->0.id() == t by {
                assert(has_entry(old(self).entries(), t));
            }
        }
        r
    }

    /// Tells whether a slot of some thread holds `addr`.
    pub fn scan_addr(&self, addr: usize) -> (b: bool)
        requires
            self.wf(),
        ensures
            b == self.hazardous(addr),
    {
        let mut t: usize = 0;
        while t < self.entries.len()
            invariant
                t <= self.entries().len(),
                self.wf(),
                forall|u: usize|
                    u < t && #[trigger] has_entry(self.entries(), u) ==> !self.slots(u).contains(
                        addr,
                    ),
            decreases self.entries().len() - t,
        {
            match &self.entries[t] {
                Some(entry) => {
                    assert(has_entry(self.entries(), t));
                    if entry.holds(addr) {
                        assert(self.slots(t).contains(addr));
                        return true;
                    }
                },
                None => {},
            }
            t += 1;
        }
        false
    }

    /// Puts a retired object at the back of the queue.
    pub fn defer(&mut self, garbage: Garbage<G>)
        ensures
            final(self).entries() == old(self).entries(),
            final(self).deferred() == old(self).deferred().push(garbage),
    {
        self.queue.push_back(garbage);
    }

    /// Counts one retirement of `thread`. At every `SWEEP_PERIOD`-th one the
    /// queue is swept: up to `SWEEP_PERIOD` objects are taken from its front,
    /// and each is freed unless a slot of some thread holds its address, in
    /// which case it goes to the back.
    pub fn free_from_queue(&mut self, thread: usize)
        requires
            old(self).wf(),
            old(self).registered(thread),
        ensures
            final(self).wf(),
            final(self).registered(thread),
            final(self).same_others(old(self), thread),
            final(self).slots(thread) == old(self).slots(thread),
            final(self).hazards() == old(self).hazards(),
            old(self).pace(thread) + 1 < SWEEP_PERIOD ==> final(self).pace(thread) == old(self).pace(thread) + 1 && final(self).deferred() == old(self).deferred(),
            old(self).pace(thread) + 1 == SWEEP_PERIOD ==> final(self).pace(thread) == 0
                && final(self).deferred() == sweep(
                old(self).deferred(),
                old(self).hazards(),
                SWEEP_PERIOD as nat,
            ),
    {
        let due = match &mut self.entries[thread] {
            Some(entry) => entry.tick(),
            None => false,
        };
        proof {
            assert forall|t: usize| #[trigger] has_entry(self.entries(), t) implies self.entries()[t as int]->0.wf()
                && self.entries()[t as int]->0.id() == t && has_entry(old(self).entries(), t)
                && self.slots(t) == old(self).slots(t) by {
                assert(has_entry(old(self).entries(), t));
            }
            assert forall|a: usize| #[trigger]
                held(self.entries(), a) == held(old(self).entries(), a) by {
                if self.hazardous(a) {
                    let t = choose|t: usize| #[trigger]
                        has_entry(self.entries(), t) && self.slots(t).contains(a);
                    assert(has_entry(old(self).entries(), t) && old(self).slots(t).contains(a));
                }
                if old(self).hazardous(a) {
                    let t = choose|t: usize| #[trigger]
                        has_entry(old(self).entries(), t) && old(self).slots(t).contains(a);
                    assert(has_entry(self.entries(), t) && self.slots(t).contains(a));
                }
            }
            assert(self.hazards() =~= old(self).hazards());
        }
        if due {
            let ghost hz = self.hazards();
            let ghost ents = self.entries();
            let ghost start = self.deferred();
            let mut k: usize = 0;
            while k < SWEEP_PERIOD
                invariant
                    k <= SWEEP_PERIOD,
                    self.wf(),
                    self.entries() == ents,
                    hz == Set::new(|addr: usize| held(ents, addr)),
                    hz == old(self).hazards(),
                    start == old(self).deferred(),
                    old(self).pace(thread) + 1 == SWEEP_PERIOD,
                    has_entry(ents, thread),
                    ents.len() == old(self).entries().len(),
                    forall|t: int|
                        0 <= t < ents.len() && t != thread ==> ents[t] == old(self).entries()[t],
                    ents[thread as int]->0.pace() == 0,
                    ents[thread as int]->0.slots() == old(self).slots(thread),
                    sweep(self.deferred(), hz, (SWEEP_PERIOD - k) as nat) == sweep(
                        start,
                        hz,
                        SWEEP_PERIOD as nat,
                    ),
                decreases SWEEP_PERIOD - k,
            {
                let ghost before = self.deferred();
                match self.queue.pop_front() {
                    Some(garbage) => {
                        assert(self.deferred() =~= before.drop_first());
                        if self.scan_addr(garbage.address()) {
                            self.queue.push_back(garbage);
                        }
                    },
                    None => {
                        return ;
                    },
                }
                k += 1;
            }
        }
    }
}

impl ThreadEntry {
    /// Counts one retirement and tells whether a sweep is due.
    pub fn tick(&mut self) -> (due: bool)
        requires
            old(self).wf(),
        ensures
            final(self).wf(),
            final(self).id() == old(self).id(),
            final(self).slots() == old(self).slots(),
            due == (old(self).pace() + 1 == SWEEP_PERIOD),
            due ==> final(self).pace() == 0,
            !due ==> final(self).pace() == old(self).pace() + 1,
    {
        if self.retired + 1 == SWEEP_PERIOD {
            self.retired = 0;
            true
        } else {
            self.retired = self.retired + 1;
            false
        }
    }
}

} // verus!

verus! {

/// A slot is free where the first-free search finds one.
pub proof fn lemma_free_slot(slots: Seq<usize>)
    ensures
        first_index(slots, 0, 0) < slots.len() <==> free_slots(slots) > 0,
{
    broadcast use vstd::seq_lib::group_to_multiset_ensures;

    lemma_first_index(slots, 0, 0);
    let i = first_index(slots, 0, 0);
    if i < slots.len() {
        assert(slots.contains(0usize));
    }
    if free_slots(slots) > 0 {
        assert(slots.contains(0usize));
        let k = choose|k: int| 0 <= k < slots.len() && slots[k] == 0usize;
        assert(i < slots.len());
    }
}

/// To publish an address takes one free slot and holds the address in it.
pub proof fn lemma_protect(slots: Seq<usize>, addr: usize)
    requires
        free_slots(slots) > 0,
    ensures
        spec_protect(slots, addr).len() == slots.len(),
        spec_protect(slots, addr).to_multiset() == slots.to_multiset().remove(0).insert(addr),
        spec_protect(slots, addr).contains(addr),
{
    broadcast use vstd::seq_lib::group_to_multiset_ensures;

    lemma_free_slot(slots);
    lemma_first_index(slots, 0, 0);
    let i = first_index(slots, 0, 0);
    let s1 = slots.update(i, addr);
    assert(s1[i] == addr);
    assert(s1.to_multiset() =~= slots.to_multiset().remove(0).insert(addr));
}

/// To give an address back frees one slot that held it.
pub proof fn lemma_release(slots: Seq<usize>, addr: usize)
    requires
        slots.contains(addr),
    ensures
        spec_release(slots, addr).len() == slots.len(),
        spec_release(slots, addr).to_multiset() == slots.to_multiset().remove(addr).insert(0),
        first_index(slots, addr, 0) < slots.len(),
{
    broadcast use vstd::seq_lib::group_to_multiset_ensures;

    lemma_first_index(slots, addr, 0);
    let i = first_index(slots, addr, 0);
    let k = choose|k: int| 0 <= k < slots.len() && slots[k] == addr;
    assert(i < slots.len());
    let s1 = slots.update(i, 0);
    assert(s1.to_multiset() =~= slots.to_multiset().remove(addr).insert(0));
}

/// The addresses that are held stay the same where one thread holds the same
/// addresses as before, each as often, and the other threads are untouched.
pub proof fn lemma_same_hazards(
    e1: Seq<Option<ThreadEntry>>,
    e2: Seq<Option<ThreadEntry>>,
    thread: usize,
)
    requires
        e1.len() == e2.len(),
        has_entry(e1, thread),
        has_entry(e2, thread),
        forall|t: int| 0 <= t < e1.len() && t != thread ==> e1[t] == e2[t],
        e1[thread as int]->0.slots().to_multiset() == e2[thread as int]->0.slots().to_multiset(),
    ensures
        forall|a: usize| held(e1, a) == held(e2, a),
        Set::new(|a: usize| held(e1, a)) == Set::new(|a: usize| held(e2, a)),
{
    broadcast use vstd::seq_lib::group_to_multiset_ensures;

    assert forall|a: usize| held(e1, a) == held(e2, a) by {
        if held(e1, a) {
            let t = choose|t: usize| #[trigger] has_entry(e1, t) && e1[t as int]->0.slots().contains(a);
            if t == thread {
                assert(e1[t as int]->0.slots().to_multiset().count(a) > 0);
                assert(e2[t as int]->0.slots().contains(a));
            }
            assert(has_entry(e2, t) && e2[t as int]->0.slots().contains(a));
        }
        if held(e2, a) {
            let t = choose|t: usize| #[trigger] has_entry(e2, t) && e2[t as int]->0.slots().contains(a);
            if t == thread {
                assert(e2[t as int]->0.slots().to_multiset().count(a) > 0);
                assert(e1[t as int]->0.slots().contains(a));
            }
            assert(has_entry(e1, t) && e1[t as int]->0.slots().contains(a));
        }
    }
    assert(Set::new(|a: usize| held(e1, a)) =~= Set::new(|a: usize| held(e2, a)));
}

} // verus!

verus! {

/// The slots `now` are the slots `prev` with the addresses of `held`
/// published in slots that were free.
pub open spec fn lent(now: Seq<usize>, prev: Seq<usize>, held: Multiset<usize>) -> bool {
    &&& now.len() == prev.len()
    &&& forall|x: usize|
        #![trigger now.to_multiset().count(x)]
        #![trigger prev.to_multiset().count(x)]
        now.to_multiset().count(x) + (if x == 0 {
            held.len()
        } else {
            0
        }) == prev.to_multiset().count(x) + held.count(x)
}

/// One more address is lent once it was published.
pub proof fn lemma_lent_protect(now: Seq<usize>, prev: Seq<usize>, held: Multiset<usize>, a: usize)
    requires
        lent(now, prev, held),
        free_slots(now) > 0,
    ensures
        lent(spec_protect(now, a), prev, held.insert(a)),
        first_index(now, 0, 0) < now.len(),
{
    lemma_protect(now, a);
    lemma_free_slot(now);
    let n2 = spec_protect(now, a);
    assert forall|x: usize|
        n2.to_multiset().count(x) + (if x == 0 {
            held.insert(a).len()
        } else {
            0
        }) == prev.to_multiset().count(x) + held.insert(a).count(x) by {
        assert(now.to_multiset().count(x) + (if x == 0 {
            held.len()
        } else {
            0
        }) == prev.to_multiset().count(x) + held.count(x));
    }
}

/// An address is lent no longer once it was given back.
pub proof fn lemma_lent_release(now: Seq<usize>, prev: Seq<usize>, held: Multiset<usize>, a: usize)
    requires
        lent(now, prev, held),
        held.count(a) > 0,
    ensures
        lent(spec_release(now, a), prev, held.remove(a)),
{
    broadcast use vstd::seq_lib::group_to_multiset_ensures;

    assert(now.to_multiset().count(a) + (if a == 0 {
        held.len()
    } else {
        0
    }) == prev.to_multiset().count(a) + held.count(a));
    let n2 = spec_release(now, a);
    lemma_first_index(now, a, 0);
    if a == 0 {
        assert(n2 =~= now);
    } else {
        assert(now.contains(a));
        lemma_release(now, a);
    }
    assert forall|x: usize|
        n2.to_multiset().count(x) + (if x == 0 {
            held.remove(a).len()
        } else {
            0
        }) == prev.to_multiset().count(x) + held.remove(a).count(x) by {
        assert(now.to_multiset().count(x) + (if x == 0 {
            held.len()
        } else {
            0
        }) == prev.to_multiset().count(x) + held.count(x));
    }
}

/// Each address that is lent and not null takes one of the slots that were
/// free.
pub proof fn lemma_lent_free(now: Seq<usize>, prev: Seq<usize>, held: Multiset<usize>)
    requires
        lent(now, prev, held),
    ensures
        free_slots(now) + held.len() == free_slots(prev) + held.count(0),
{
    assert(now.to_multiset().count(0) + held.len() == prev.to_multiset().count(0) + held.count(0));
}

/// With nothing lent, the slots hold what they held, each address as often.
pub proof fn lemma_lent_done(now: Seq<usize>, prev: Seq<usize>)
    requires
        lent(now, prev, Multiset::empty()),
    ensures
        now.to_multiset() == prev.to_multiset(),
{
    assert forall|x: usize| now.to_multiset().count(x) == prev.to_multiset().count(x) by {
        assert(now.to_multiset().count(x) + (if x == 0 {
            Multiset::<usize>::empty().len()
        } else {
            0
        }) == prev.to_multiset().count(x) + Multiset::<usize>::empty().count(x));
    }
    assert(now.to_multiset() =~= prev.to_multiset());
}

impl<G> Registry<G> {
    /// The registry is `prev` but for the addresses of `held`, which `thread`
    /// has published on top of what it held.
    pub open spec fn on_loan(&self, prev: &Self, thread: usize, held: Multiset<usize>) -> bool {
        &&& self.wf()
        &&& self.registered(thread)
        &&& prev.registered(thread)
        &&& self.same_others(prev, thread)
        &&& self.deferred() == prev.deferred()
        &&& self.pace(thread) == prev.pace(thread)
        &&& self.slots(thread).len() == NUM_HP
        &&& lent(self.slots(thread), prev.slots(thread), held)
    }

    /// A registry is on loan from itself, with nothing lent.
    pub proof fn lemma_loan_start(&self, thread: usize)
        requires
            self.wf(),
            self.registered(thread),
        ensures
            self.on_loan(self, thread, Multiset::empty()),
    {
        assert(has_entry(self.entries(), thread));
    }
}

} // verus!

verus! {

impl<G> Registry<G> {
    /// While fewer addresses are lent than `thread` had free slots, a slot
    /// is free.
    pub proof fn lemma_loan_room(&self, prev: &Self, thread: usize, held: Multiset<usize>)
        requires
            self.on_loan(prev, thread, held),
            free_slots(prev.slots(thread)) + held.count(0) > held.len(),
        ensures
            first_index(self.slots(thread), 0, 0) < NUM_HP,
            free_slots(self.slots(thread)) > 0,
    {
        lemma_lent_free(self.slots(thread), prev.slots(thread), held);
        lemma_free_slot(self.slots(thread));
    }

    /// The loan after `thread` has published `a`.
    pub proof fn lemma_loan_protect(
        &self,
        before: &Self,
        prev: &Self,
        thread: usize,
        held: Multiset<usize>,
        a: usize,
    )
        requires
            before.on_loan(prev, thread, held),
            free_slots(before.slots(thread)) > 0,
            self.wf(),
            self.registered(thread),
            self.deferred() == before.deferred(),
            self.same_others(before, thread),
            self.pace(thread) == before.pace(thread),
            self.slots(thread) == spec_protect(before.slots(thread), a),
        ensures
            self.on_loan(prev, thread, held.insert(a)),
    {
        lemma_lent_protect(before.slots(thread), prev.slots(thread), held, a);
    }

    /// The loan after `thread` has given `a` back.
    pub proof fn lemma_loan_release(
        &self,
        before: &Self,
        prev: &Self,
        thread: usize,
        held: Multiset<usize>,
        a: usize,
    )
        requires
            before.on_loan(prev, thread, held),
            held.count(a) > 0,
            self.wf(),
            self.registered(thread),
            self.deferred() == before.deferred(),
            self.same_others(before, thread),
            self.pace(thread) == before.pace(thread),
            self.slots(thread) == spec_release(before.slots(thread), a),
        ensures
            self.on_loan(prev, thread, held.remove(a)),
    {
        lemma_lent_release(before.slots(thread), prev.slots(thread), held, a);
    }

    /// With nothing lent any more, `thread` holds what it held and the same
    /// addresses are hazardous.
    pub proof fn lemma_loan_done(&self, prev: &Self, thread: usize)
        requires
            self.wf(),
            self.registered(thread),
            prev.registered(thread),
            self.same_others(prev, thread),
            lent(self.slots(thread), prev.slots(thread), Multiset::empty()),
        ensures
            self.restored(prev, thread),
    {
        lemma_lent_done(self.slots(thread), prev.slots(thread));
        assert(has_entry(self.entries(), thread));
        assert(has_entry(prev.entries(), thread));
        lemma_same_hazards(self.entries(), prev.entries(), thread);
    }
}

} // verus!

verus! {

impl<G> Registry<G> {
    /// `thread` holds the addresses that it held in `prev`, each as often,
    /// and the other threads are as they were.
    pub open spec fn restored(&self, prev: &Self, thread: usize) -> bool {
        &&& self.wf()
        &&& self.registered(thread)
        &&& self.same_others(prev, thread)
        &&& self.slots(thread).to_multiset() == prev.slots(thread).to_multiset()
        &&& self.hazards() == prev.hazards()
    }

    /// Nothing was retired since `prev`.
    pub open spec fn same_garbage(&self, prev: &Self, thread: usize) -> bool {
        &&& self.deferred() == prev.deferred()
        &&& self.pace(thread) == prev.pace(thread)
    }

    /// One node was retired since `prev`: the one that was at `addr`, without
    /// the value that it held. If the retirement was the one to sweep the
    /// queue, the addresses of `hazards` were the ones kept.
    pub open spec fn retired_one(
        &self,
        prev: &Self,
        thread: usize,
        addr: usize,
        hazards: Set<usize>,
    ) -> bool {
        &&& self.pace(thread) == crate::hp::atomic::spec_tick(prev.pace(thread))
        &&& exists|g: Garbage<G>|
            g.1 == addr && g.0.data == addr && #[trigger] crate::hp::atomic::spec_retire(
                prev.deferred(),
                g,
                prev.pace(thread),
                hazards,
            ) == self.deferred()
    }

    /// While `thread` has lent one address that is not null and has a free
    /// slot left, the hazardous addresses are those of `prev` and that one.
    pub proof fn lemma_loan_hazards(&self, prev: &Self, thread: usize, a: usize)
        requires
            self.registered(thread),
            prev.registered(thread),
            self.same_others(prev, thread),
            lent(self.slots(thread), prev.slots(thread), Multiset::empty().insert(a)),
            a != 0,
            free_slots(prev.slots(thread)) >= 2,
        ensures
            self.hazards() == prev.hazards().insert(a),
    {
        broadcast use vstd::seq_lib::group_to_multiset_ensures;

        let e1 = self.entries();
        let e2 = prev.entries();
        let s1 = self.slots(thread);
        let s2 = prev.slots(thread);
        let lent_out = Multiset::<usize>::empty().insert(a);
        assert(has_entry(e1, thread));
        assert(has_entry(e2, thread));
        assert forall|x: usize| held(e1, x) == (held(e2, x) || x == a) by {
            assert(s1.to_multiset().count(x) + (if x == 0 {
                lent_out.len()
            } else {
                0
            }) == s2.to_multiset().count(x) + lent_out.count(x));
            if held(e1, x) {
                let t = choose|t: usize| #[trigger]
                    has_entry(e1, t) && e1[t as int]->0.slots().contains(x);
                if t != thread {
                    assert(has_entry(e2, t) && e2[t as int]->0.slots().contains(x));
                } else if x != a {
                    assert(s2.contains(x));
                }
            }
            if held(e2, x) {
                let t = choose|t: usize| #[trigger]
                    has_entry(e2, t) && e2[t as int]->0.slots().contains(x);
                if t != thread {
                    assert(has_entry(e1, t) && e1[t as int]->0.slots().contains(x));
                } else {
                    assert(s1.contains(x));
                }
            }
            if x == a {
                assert(s1.contains(x));
            }
        }
        assert(self.hazards() =~= prev.hazards().insert(a));
    }
}

/// Hazard safety. A sweep frees no object whose address a slot holds: such
/// an object is in the queue after the sweep as it was before.
pub proof fn lemma_sweep_keeps<G>(queue: Seq<Garbage<G>>, hazards: Set<usize>, n: nat, g: Garbage<G>)
    requires
        queue.contains(g),
        hazards.contains(g.1),
    ensures
        sweep(queue, hazards, n).contains(g),
    decreases n,
{
    if n > 0 && queue.len() > 0 {
        let k = choose|k: int| 0 <= k < queue.len() && queue[k] == g;
        let rest = queue.drop_first();
        if hazards.contains(queue[0].1) {
            let q2 = rest.push(queue[0]);
            if k == 0 {
                assert(q2[q2.len() - 1] == g);
            } else {
                assert(q2[k - 1] == g);
            }
            lemma_sweep_keeps(q2, hazards, (n - 1) as nat, g);
        } else {
            assert(k != 0);
            assert(rest[k - 1] == g);
            lemma_sweep_keeps(rest, hazards, (n - 1) as nat, g);
        }
    }
}

/// A sweep makes no object up: what is in the queue after it was there
/// before.
pub proof fn lemma_sweep_within<G>(queue: Seq<Garbage<G>>, hazards: Set<usize>, n: nat, g: Garbage<G>)
    requires
        sweep(queue, hazards, n).contains(g),
    ensures
        queue.contains(g),
    decreases n,
{
    if n > 0 && queue.len() > 0 {
        let rest = queue.drop_first();
        if hazards.contains(queue[0].1) {
            let q2 = rest.push(queue[0]);
            lemma_sweep_within(q2, hazards, (n - 1) as nat, g);
            let k = choose|k: int| 0 <= k < q2.len() && q2[k] == g;
            if k < rest.len() {
                assert(queue[k + 1] == g);
            } else {
                assert(queue[0] == g);
            }
        } else {
            lemma_sweep_within(rest, hazards, (n - 1) as nat, g);
            let k = choose|k: int| 0 <= k < rest.len() && rest[k] == g;
            assert(queue[k + 1] == g);
        }
    }
}

} // verus!
