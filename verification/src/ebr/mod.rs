//! Epoch based reclamation.
//!
//! There is one global epoch. A thread that works on shared nodes is pinned:
//! its marker shows the epoch that it saw when it was pinned. A node that was
//! unlinked is retired under the epoch of that moment: it waits in the bag of
//! its thread and then, with the whole bag, in a queue. The epoch moves on
//! only when every pinned thread has seen it, and a bag is freed only when it
//! is two epochs old. So a thread that is pinned never meets a node that was
//! freed.
use vstd::prelude::*;
use std::collections::VecDeque;
use crate::hp::atomic::Owned;

pub mod list;
pub mod queue;

verus! {

/// The number of objects that a bag holds.
pub const BAG_SIZE: usize = 32;

/// The number of pins of one thread between two tries to move the epoch on.
pub const PIN_PERIOD: usize = 1000;

/// The age, in epochs, at which a bag is freed.
pub const GARBAGE_AGE: usize = 2;

/// The largest epoch that a marker can hold beside its pinned bit.
pub const EPOCH_MAX: usize = usize::MAX / 2;

/// What a thread shows to the others: the epoch it has seen, and whether it
/// is pinned. Both are packed into one word: twice the epoch, plus one where
/// the thread is pinned.
#[derive(Debug)]
pub struct ThreadPinMarker {
    epoch: usize,
    thread_id: usize,
}

impl ThreadPinMarker {
    /// The epoch that the thread has seen.
    pub closed spec fn observed(&self) -> usize {
        self.epoch / 2
    }

    /// Whether the thread is pinned.
    pub closed spec fn pinned(&self) -> bool {
        self.epoch % 2 == 1
    }

    /// The thread that the marker belongs to.
    pub closed spec fn id(&self) -> usize {
        self.thread_id
    }

    /// A marker for the thread `id`, which is not pinned and has seen epoch
    /// zero.
    pub fn new(id: usize) -> (m: Self)
        ensures
            m.id() == id,
            m.observed() == 0,
            !m.pinned(),
    {
        ThreadPinMarker { epoch: 0, thread_id: id }
    }

    /// Marks the thread as pinned at `epoch`.
    pub fn pin(&mut self, epoch: usize)
        requires
            !old(self).pinned(),
            epoch <= EPOCH_MAX,
        ensures
            final(self).pinned(),
            final(self).observed() == epoch,
            final(self).id() == old(self).id(),
    {
        self.epoch = 2 * epoch + 1;
    }

    /// Marks the thread as not pinned. The epoch that it has seen stays.
    pub fn unpin(&mut self)
        ensures
            !final(self).pinned(),
            final(self).observed() == old(self).observed(),
            final(self).id() == old(self).id(),
    {
        self.epoch = self.epoch - self.epoch % 2;
    }

    /// The epoch that the thread has seen.
    pub fn epoch(&self) -> (e: usize)
        ensures
            e == self.observed(),
    {
        self.epoch_and_pinned().0
    }

    /// Tells whether the thread is pinned.
    pub fn is_pinned(&self) -> (b: bool)
        ensures
            b == self.pinned(),
    {
        self.epoch_and_pinned().1
    }

    /// The epoch that the thread has seen, and whether it is pinned.
    pub fn epoch_and_pinned(&self) -> (r: (usize, bool))
        ensures
            r.0 == self.observed(),
            r.1 == self.pinned(),
    {
        let e = self.epoch;
        (e / 2, e % 2 == 1)
    }
}

/// A retired object, with the epoch under which it was retired.
pub struct Garbage<G>(pub Owned<G>, pub usize);

impl<G> Garbage<G> {
    /// The garbage that holds `t`, retired under `epoch`.
    pub fn new(t: Owned<G>, epoch: usize) -> (g: Self)
        ensures
            g == Garbage(t, epoch),
    {
        Garbage(t, epoch)
    }
}

/// Retired objects, up to `BAG_SIZE` of them, that are handled as one.
pub struct Bag<G> {
    data: Vec<Garbage<G>>,
}

impl<G> View for Bag<G> {
    type V = Seq<Garbage<G>>;

    /// The objects of the bag, in the order in which they came.
    closed spec fn view(&self) -> Seq<Garbage<G>> {
        self.data@
    }
}

/// Every object of `items` was retired under `epoch` or before.
pub open spec fn all_by<G>(items: Seq<Garbage<G>>, epoch: usize) -> bool {
    forall|j: int| 0 <= j < items.len() ==> (#[trigger] items[j]).1 <= epoch
}

impl<G> Bag<G> {
    /// An empty bag.
    pub fn new() -> (bag: Self)
        ensures
            bag@ == Seq::<Garbage<G>>::empty(),
    {
        Bag { data: Vec::new() }
    }

    /// Tells whether the bag is full.
    pub fn is_full(&self) -> (b: bool)
        ensures
            b == (self@.len() >= BAG_SIZE),
    {
        self.data.len() >= BAG_SIZE
    }

    /// Puts `t` into the bag, or hands it back where the bag is full.
    pub fn try_insert(&mut self, t: Garbage<G>) -> (r: Result<(), Garbage<G>>)
        ensures
            old(self)@.len() < BAG_SIZE ==> r is Ok && final(self)@ == old(self)@.push(t),
            old(self)@.len() >= BAG_SIZE ==> r == Err::<(), Garbage<G>>(t) && final(self)@ == old(self)@,
    {
        if self.is_full() {
            Err(t)
        } else {
            self.data.push(t);
            Ok(())
        }
    }

    /// Frees the objects of the bag, the oldest first.
    pub fn free_all(&mut self)
        ensures
            final(self)@ == Seq::<Garbage<G>>::empty(),
    {
        let mut i: usize = 0;
        let n = self.data.len();
        while i < n
            invariant
                i <= n,
                self@.len() == n - i,
            decreases n - i,
        {
            let garbage = self.data.remove(0);
            i += 1;
        }
        assert(self@ =~= Seq::<Garbage<G>>::empty());
    }

    /// Gives the bag up. Its objects have been freed before.
    pub fn drop(self)
        requires
            self@.len() == 0,
    {
    }
}

} // verus!

verus! {

/// Whether `thread` has a marker among `markers`.
pub open spec fn has_marker(markers: Seq<Option<ThreadPinMarker>>, thread: usize) -> bool {
    thread < markers.len() && markers[thread as int] is Some
}

/// Whether `thread` is pinned.
pub open spec fn is_pinned(markers: Seq<Option<ThreadPinMarker>>, thread: usize) -> bool {
    has_marker(markers, thread) && markers[thread as int]->0.pinned()
}

/// Every marker sits at the index of its thread, and a thread that is pinned
/// has seen the epoch or the one before it.
pub open spec fn markers_wf(markers: Seq<Option<ThreadPinMarker>>, epoch: usize) -> bool {
    forall|t: usize| #[trigger]
        has_marker(markers, t) ==> markers[t as int]->0.id() == t && (markers[t as int]->0.pinned()
            ==> markers[t as int]->0.observed() <= epoch <= markers[t as int]->0.observed() + 1)
}

/// Every thread that is pinned has seen `epoch`.
pub open spec fn all_current(markers: Seq<Option<ThreadPinMarker>>, epoch: usize) -> bool {
    forall|t: usize| #[trigger] is_pinned(markers, t) ==> markers[t as int]->0.observed() == epoch
}

/// The bag at index `i` of the queue is no younger than the epoch and no
/// older than the bag before it, and none of its objects is younger than the
/// bag.
pub open spec fn bag_ok<G>(fifo: Seq<(usize, Bag<G>)>, epoch: usize, i: int) -> bool {
    &&& fifo[i].0 <= epoch
    &&& fifo[i].1@.len() <= BAG_SIZE
    &&& all_by(fifo[i].1@, fifo[i].0)
    &&& i > 0 ==> fifo[i - 1].0 <= fifo[i].0
}

/// The queue of bags is in the order of their epochs.
pub open spec fn fifo_wf<G>(fifo: Seq<(usize, Bag<G>)>, epoch: usize) -> bool {
    forall|i: int| 0 <= i < fifo.len() ==> #[trigger] bag_ok(fifo, epoch, i)
}

/// The number of bags at the front of the queue that are at least
/// `GARBAGE_AGE` epochs older than `epoch`.
pub open spec fn ripe<G>(fifo: Seq<(usize, Bag<G>)>, epoch: usize) -> nat
    decreases fifo.len(),
{
    if fifo.len() > 0 && fifo[0].0 + GARBAGE_AGE <= epoch {
        1 + ripe(fifo.drop_first(), epoch)
    } else {
        0
    }
}

/// The ripe bags are a prefix of the queue, and every object in them was
/// retired at least `GARBAGE_AGE` epochs before `epoch`.
pub proof fn lemma_ripe<G>(fifo: Seq<(usize, Bag<G>)>, limit: usize, epoch: usize)
    requires
        fifo_wf(fifo, limit),
    ensures
        ripe(fifo, epoch) <= fifo.len(),
        forall|i: int, j: int|
            0 <= i < ripe(fifo, epoch) && 0 <= j < fifo[i].1@.len() ==> (#[trigger] fifo[i].1@[j]).1
                + GARBAGE_AGE <= epoch,
        fifo_wf(fifo.skip(ripe(fifo, epoch) as int), limit),
    decreases fifo.len(),
{
    if fifo.len() > 0 && fifo[0].0 + GARBAGE_AGE <= epoch {
        let rest = fifo.drop_first();
        assert forall|i: int| 0 <= i < rest.len() implies #[trigger] bag_ok(rest, limit, i) by {
            assert(bag_ok(fifo, limit, i + 1));
        }
        lemma_ripe(rest, limit, epoch);
        assert(bag_ok(fifo, limit, 0));
        assert forall|i: int, j: int|
            0 <= i < ripe(fifo, epoch) && 0 <= j < fifo[i].1@.len() implies (#[trigger] fifo[i].1@[j]).1
            + GARBAGE_AGE <= epoch by {
            if i > 0 {
                assert(fifo[i] == rest[i - 1]);
                assert(rest[i - 1].1@[j].1 + GARBAGE_AGE <= epoch);
            }
        }
        assert(fifo.skip(ripe(fifo, epoch) as int) =~= rest.skip(ripe(rest, epoch) as int));
    } else {
        assert(fifo.skip(0) =~= fifo);
    }
}

/// What all threads share: the epoch, the markers of the threads, and the
/// queue of the bags that wait to be freed, each with the epoch under which
/// it was queued.
pub struct GlobalState<G> {
    epoch: usize,
    pins: Vec<Option<ThreadPinMarker>>,
    garbage: VecDeque<(usize, Bag<G>)>,
}

impl<G> GlobalState<G> {
    /// The global epoch.
    pub closed spec fn epoch(&self) -> usize {
        self.epoch
    }

    /// The marker of each thread id that was given out, `None` where the
    /// thread has none.
    pub closed spec fn markers(&self) -> Seq<Option<ThreadPinMarker>> {
        self.pins@
    }

    /// The bags that wait to be freed, oldest first.
    pub closed spec fn fifo(&self) -> Seq<(usize, Bag<G>)> {
        self.garbage@
    }

    /// The epoch fits into a marker, the markers are well formed, and the
    /// queue of bags is in order.
    pub open spec fn wf(&self) -> bool {
        &&& self.epoch() <= EPOCH_MAX
        &&& markers_wf(self.markers(), self.epoch())
        &&& fifo_wf(self.fifo(), self.epoch())
    }

    /// A state at epoch zero, without threads and without garbage.
    pub fn new() -> (g: Self)
        ensures
            g.wf(),
            g.epoch() == 0,
            g.markers().len() == 0,
            g.fifo().len() == 0,
    {
        GlobalState { epoch: 0, pins: Vec::new(), garbage: VecDeque::new() }
    }

    /// Tells whether every thread that is pinned has seen the epoch.
    pub fn can_increment_epoch(&self) -> (b: bool)
        requires
            self.wf(),
        ensures
            b == all_current(self.markers(), self.epoch()),
    {
        let global_epoch = self.epoch;
        let mut t: usize = 0;
        while t < self.pins.len()
            invariant
                t <= self.markers().len(),
                global_epoch == self.epoch(),
                forall|u: usize|
                    u < t && #[trigger] is_pinned(self.markers(), u) ==> self.markers()[u as int]->0.observed()
                        == global_epoch,
            decreases self.markers().len() - t,
        {
            match &self.pins[t] {
                Some(n) => {
                    let (epoch, pinned) = n.epoch_and_pinned();
                    if pinned && epoch != global_epoch {
                        assert(is_pinned(self.markers(), t));
                        return false;
                    }
                },
                None => {},
            }
            t += 1;
        }
        true
    }

    /// Puts a bag at the back of the queue, under the epoch of this moment.
    pub fn add_garbage_bag(&mut self, bag: Bag<G>)
        requires
            old(self).wf(),
            bag@.len() <= BAG_SIZE,
            all_by(bag@, old(self).epoch()),
        ensures
            final(self).wf(),
            final(self).epoch() == old(self).epoch(),
            final(self).markers() == old(self).markers(),
            final(self).fifo() == old(self).fifo().push((old(self).epoch(), bag)),
    {
        let epoch = self.epoch;
        self.garbage.push_back((epoch, bag));
        proof {
            assert forall|i: int| 0 <= i < self.fifo().len() implies #[trigger] bag_ok(
                self.fifo(),
                self.epoch(),
                i,
            ) by {
                if i < old(self).fifo().len() {
                    assert(bag_ok(old(self).fifo(), old(self).epoch(), i));
                }
                if i > 0 {
                    assert(bag_ok(old(self).fifo(), old(self).epoch(), i - 1));
                }
            }
        }
    }

    /// Frees the bags that are at least `GARBAGE_AGE` epochs older than
    /// `current_epoch`, from the front of the queue on.
    pub fn free_garbage(&mut self, current_epoch: usize)
        requires
            old(self).wf(),
            current_epoch <= old(self).epoch(),
        ensures
            final(self).wf(),
            final(self).epoch() == old(self).epoch(),
            final(self).markers() == old(self).markers(),
            final(self).fifo() == old(self).fifo().skip(
                ripe(old(self).fifo(), current_epoch) as int,
            ),
            forall|i: int, j: int|
                0 <= i < ripe(old(self).fifo(), current_epoch) && 0 <= j < old(self).fifo()[i].1@.len()
                    ==> (#[trigger] old(self).fifo()[i].1@[j]).1 + GARBAGE_AGE <= final(self).epoch(),
    {
        proof {
            assert(self.fifo().skip(0) =~= self.fifo());
            lemma_ripe(self.fifo(), self.epoch(), current_epoch);
        }
        let ghost mut done: nat = 0;
        while self.garbage.len() > 0 && self.garbage[0].0 <= current_epoch && current_epoch
            - self.garbage[0].0 >= GARBAGE_AGE
            invariant
                self.epoch() == old(self).epoch(),
                self.markers() == old(self).markers(),
                done <= ripe(old(self).fifo(), current_epoch) <= old(self).fifo().len(),
                self.fifo() == old(self).fifo().skip(done as int),
                ripe(old(self).fifo(), current_epoch) == done + ripe(self.fifo(), current_epoch),
            decreases self.fifo().len(),
        {
            let ghost before = self.fifo();
            match self.garbage.pop_front() {
                Some((e, mut bag)) => {
                    // The bag has left the queue, so nobody else looks at it.
                    bag.free_all();
                    bag.drop();
                },
                None => {},
            }
            proof {
                assert(self.fifo() =~= before.drop_first());
                assert(before.drop_first() =~= old(self).fifo().skip((done + 1) as int));
                done = done + 1;
            }
        }
        proof {
            assert(ripe(self.fifo(), current_epoch) == 0);
        }
    }

    /// Moves the epoch on from `epoch` to the next one, if it still is at
    /// `epoch` and is not the last one, and frees the bags that are ripe by
    /// then.
    pub fn increment_epoch(&mut self, epoch: usize)
        requires
            old(self).wf(),
            epoch == old(self).epoch() ==> all_current(old(self).markers(), epoch),
        ensures
            final(self).wf(),
            final(self).markers() == old(self).markers(),
            final(self).epoch() == spec_next_epoch(old(self).epoch(), epoch),
            final(self).epoch() == old(self).epoch() ==> final(self).fifo() == old(self).fifo(),
            final(self).epoch() != old(self).epoch() ==> final(self).fifo() == old(self).fifo().skip(ripe(old(self).fifo(), final(self).epoch()) as int),
    {
        if self.epoch == epoch && epoch < EPOCH_MAX {
            self.epoch = epoch + 1;
            proof {
                assert forall|t: usize| #[trigger] has_marker(self.markers(), t) implies self.markers()[t as int]->0.id()
                    == t && (self.markers()[t as int]->0.pinned() ==> self.markers()[t as int]->0.observed()
                    <= self.epoch() <= self.markers()[t as int]->0.observed() + 1) by {
                    assert(has_marker(old(self).markers(), t));
                    if self.markers()[t as int]->0.pinned() {
                        assert(is_pinned(old(self).markers(), t));
                    }
                }
                assert forall|i: int| 0 <= i < self.fifo().len() implies #[trigger] bag_ok(
                    self.fifo(),
                    self.epoch(),
                    i,
                ) by {
                    assert(bag_ok(old(self).fifo(), old(self).epoch(), i));
                }
            }
            let current_epoch = epoch + 1;
            self.free_garbage(current_epoch);
        }
    }

    /// Gives out the next thread id. The thread has no marker yet.
    pub fn get_next_thread_id(&mut self) -> (id: usize)
        requires
            old(self).wf(),
        ensures
            final(self).wf(),
            id == old(self).markers().len(),
            final(self).epoch() == old(self).epoch(),
            final(self).fifo() == old(self).fifo(),
            final(self).markers() == old(self).markers().push(None),
    {
        let id = self.pins.len();
        self.pins.push(None);
        proof {
            assert forall|t: usize| #[trigger] has_marker(self.markers(), t) implies self.markers()[t as int]->0.id()
                == t && (self.markers()[t as int]->0.pinned() ==> self.markers()[t as int]->0.observed()
                <= self.epoch() <= self.markers()[t as int]->0.observed() + 1) by {
                assert(has_marker(old(self).markers(), t));
            }
        }
        id
    }
}

/// The epoch after a try to move it on from `from`: the next one where the
/// epoch is at `from` and not at the last one, the same one elsewhere.
pub open spec fn spec_next_epoch(epoch: usize, from: usize) -> usize {
    if epoch == from && from < EPOCH_MAX {
        (from + 1) as usize
    } else {
        epoch
    }
}

} // verus!

verus! {

impl<G> GlobalState<G> {
    /// Whether `thread` has a marker.
    pub open spec fn registered(&self, thread: usize) -> bool {
        has_marker(self.markers(), thread)
    }

    /// The markers other than that of `thread` are those of `prev`.
    pub open spec fn same_others(&self, prev: &Self, thread: usize) -> bool {
        &&& self.markers().len() == prev.markers().len()
        &&& forall|t: int|
            0 <= t < prev.markers().len() && t != thread ==> self.markers()[t] == prev.markers()[t]
    }

    /// Gives the thread `thread` a marker, which is not pinned.
    pub fn add_marker(&mut self, thread: usize)
        requires
            old(self).wf(),
            thread < old(self).markers().len(),
            !old(self).registered(thread),
        ensures
            final(self).wf(),
            final(self).registered(thread),
            !is_pinned(final(self).markers(), thread),
            final(self).epoch() == old(self).epoch(),
            final(self).fifo() == old(self).fifo(),
            final(self).same_others(old(self), thread),
    {
        self.pins[thread] = Some(ThreadPinMarker::new(thread));
        proof {
            assert forall|t: usize| #[trigger] has_marker(self.markers(), t) implies self.markers()[t as int]->0.id()
                == t && (self.markers()[t as int]->0.pinned() ==> self.markers()[t as int]->0.observed()
                <= self.epoch() <= self.markers()[t as int]->0.observed() + 1) by {
                if t != thread {
                    assert(has_marker(old(self).markers(), t));
                }
            }
        }
    }

    /// Takes the marker of `thread` away.
    pub fn remove_marker(&mut self, thread: usize)
        requires
            old(self).wf(),
            thread < old(self).markers().len(),
        ensures
            final(self).wf(),
            !final(self).registered(thread),
            final(self).epoch() == old(self).epoch(),
            final(self).fifo() == old(self).fifo(),
            final(self).same_others(old(self), thread),
    {
        self.pins[thread] = None;
        proof {
            assert forall|t: usize| #[trigger] has_marker(self.markers(), t) implies self.markers()[t as int]->0.id()
                == t && (self.markers()[t as int]->0.pinned() ==> self.markers()[t as int]->0.observed()
                <= self.epoch() <= self.markers()[t as int]->0.observed() + 1) by {
                assert(has_marker(old(self).markers(), t));
            }
        }
    }

    /// Pins `thread` at the epoch of this moment.
    pub fn pin_marker(&mut self, thread: usize) -> (epoch: usize)
        requires
            old(self).wf(),
            old(self).registered(thread),
            !is_pinned(old(self).markers(), thread),
        ensures
            final(self).wf(),
            epoch == old(self).epoch(),
            final(self).epoch() == old(self).epoch(),
            final(self).fifo() == old(self).fifo(),
            final(self).same_others(old(self), thread),
            is_pinned(final(self).markers(), thread),
            final(self).markers()[thread as int]->0.observed() == old(self).epoch(),
    {
        let global_epoch = self.epoch;
        match &mut self.pins[thread] {
            Some(marker) => marker.pin(global_epoch),
            None => {},
        }
        proof {
            assert forall|t: usize| #[trigger] has_marker(self.markers(), t) implies self.markers()[t as int]->0.id()
                == t && (self.markers()[t as int]->0.pinned() ==> self.markers()[t as int]->0.observed()
                <= self.epoch() <= self.markers()[t as int]->0.observed() + 1) by {
                assert(has_marker(old(self).markers(), t));
            }
        }
        global_epoch
    }

    /// Marks `thread` as not pinned.
    pub fn unpin_marker(&mut self, thread: usize)
        requires
            old(self).wf(),
            old(self).registered(thread),
        ensures
            final(self).wf(),
            final(self).epoch() == old(self).epoch(),
            final(self).fifo() == old(self).fifo(),
            final(self).same_others(old(self), thread),
            final(self).registered(thread),
            !is_pinned(final(self).markers(), thread),
    {
        match &mut self.pins[thread] {
            Some(marker) => marker.unpin(),
            None => {},
        }
        proof {
            assert forall|t: usize| #[trigger] has_marker(self.markers(), t) implies self.markers()[t as int]->0.id()
                == t && (self.markers()[t as int]->0.pinned() ==> self.markers()[t as int]->0.observed()
                <= self.epoch() <= self.markers()[t as int]->0.observed() + 1) by {
                assert(has_marker(old(self).markers(), t));
            }
        }
    }
}

/// What a thread keeps for itself: which marker is its own, how often it was
/// pinned since it last tried to move the epoch on, and the bag that its
/// retired objects go to.
pub struct LocalState<G> {
    thread_pin: Option<usize>,
    pin_count: usize,
    garbage_bag: Bag<G>,
}

/// The bag and the queue after `g` was retired: `g` joins the bag, and a bag
/// that was full goes to the queue first, under `epoch`, and leaves an empty
/// one behind.
pub open spec fn retired<G>(
    bag: Seq<Garbage<G>>,
    fifo: Seq<(usize, Bag<G>)>,
    after_bag: Seq<Garbage<G>>,
    after_fifo: Seq<(usize, Bag<G>)>,
    epoch: usize,
    g: Garbage<G>,
) -> bool {
    if bag.len() < BAG_SIZE {
        after_bag == bag.push(g) && after_fifo == fifo
    } else {
        &&& after_bag == seq![g]
        &&& after_fifo.len() == fifo.len() + 1
        &&& after_fifo.drop_last() == fifo
        &&& after_fifo.last().0 == epoch
        &&& after_fifo.last().1@ == bag
    }
}

impl<G> LocalState<G> {
    /// The thread id under which the thread has its marker, once it has one.
    pub closed spec fn thread(&self) -> Option<usize> {
        self.thread_pin
    }

    /// How often the thread was pinned since it last tried to move the epoch
    /// on.
    pub closed spec fn count(&self) -> usize {
        self.pin_count
    }

    /// The retired objects in the bag of the thread.
    pub closed spec fn bag(&self) -> Seq<Garbage<G>> {
        self.garbage_bag@
    }

    /// The bag is not overfull and holds nothing younger than the epoch, the
    /// count is below the period, and the marker of the thread is there.
    pub open spec fn wf(&self, global: &GlobalState<G>) -> bool {
        &&& self.bag().len() <= BAG_SIZE
        &&& all_by(self.bag(), global.epoch())
        &&& self.count() < PIN_PERIOD
        &&& self.thread() matches Some(t) ==> global.registered(t)
    }

    /// Whether the thread is pinned.
    pub open spec fn pinned_in(&self, global: &GlobalState<G>) -> bool {
        self.thread() matches Some(t) && is_pinned(global.markers(), t)
    }

    /// The state of a thread that was never pinned.
    pub fn new() -> (l: Self)
        ensures
            l.thread() is None,
            l.count() == 0,
            l.bag() == Seq::<Garbage<G>>::empty(),
    {
        LocalState { thread_pin: None, pin_count: 0, garbage_bag: Bag::new() }
    }

    /// Retires `o` under the epoch of this moment. It goes to the bag of the
    /// thread; a bag that is full goes to the queue first.
    pub fn add_garbage(&mut self, o: Owned<G>, global: &mut GlobalState<G>)
        requires
            old(global).wf(),
            old(self).wf(old(global)),
        ensures
            final(global).wf(),
            final(self).wf(final(global)),
            final(self).thread() == old(self).thread(),
            final(self).count() == old(self).count(),
            final(global).epoch() == old(global).epoch(),
            final(global).markers() == old(global).markers(),
            retired(
                old(self).bag(),
                old(global).fifo(),
                final(self).bag(),
                final(global).fifo(),
                old(global).epoch(),
                Garbage(o, old(global).epoch()),
            ),
    {
        let g = Garbage::new(o, global.epoch_now());
        match self.garbage_bag.try_insert(g) {
            Ok(()) => {},
            Err(o) => {
                // The bag is full. Put a new one in its place, and the full
                // one into the queue.
                let mut new_bag = Bag::new();
                let res = new_bag.try_insert(o);
                core::mem::swap(&mut self.garbage_bag, &mut new_bag);
                global.add_garbage_bag(new_bag);
                proof {
                    assert(global.fifo().drop_last() =~= old(global).fifo());
                }
            },
        };
    }

    /// The thread id of the marker of the thread. A thread that has no marker
    /// gets one.
    pub fn marker(&mut self, global: &mut GlobalState<G>) -> (t: usize)
        requires
            old(global).wf(),
            old(self).wf(old(global)),
        ensures
            final(global).wf(),
            final(self).wf(final(global)),
            final(self).thread() == Some(t),
            final(self).count() == old(self).count(),
            final(self).bag() == old(self).bag(),
            final(global).epoch() == old(global).epoch(),
            final(global).fifo() == old(global).fifo(),
            old(self).thread() is Some ==> final(self).thread() == old(self).thread() && final(global).markers() == old(global).markers(),
            old(self).thread() is None ==> t == old(global).markers().len() && final(global).markers().len() == t + 1 && !is_pinned(final(global).markers(), t) && (forall|u: int|
                0 <= u < t ==> final(global).markers()[u] == old(global).markers()[u]),
    {
        match self.thread_pin {
            Some(t) => t,
            None => {
                let t = global.get_next_thread_id();
                global.add_marker(t);
                self.thread_pin = Some(t);
                t
            },
        }
    }

    /// Takes the marker of the thread away. The thread is gone after that.
    pub fn leave(self, global: &mut GlobalState<G>)
        requires
            old(global).wf(),
            self.wf(old(global)),
        ensures
            final(global).wf(),
            final(global).epoch() == old(global).epoch(),
            final(global).fifo() == old(global).fifo(),
            self.thread() matches Some(t) ==> !final(global).registered(t) && final(global).same_others(old(global), t),
            self.thread() is None ==> final(global).markers() == old(global).markers(),
    {
        match self.thread_pin {
            Some(t) => global.remove_marker(t),
            None => {},
        }
    }
}

impl<G> GlobalState<G> {
    /// Reads the epoch.
    pub fn epoch_now(&self) -> (e: usize)
        ensures
            e == self.epoch(),
    {
        self.epoch
    }
}

/// The proof that a thread is pinned. The operations of the queue and the
/// list ask for it.
#[derive(Clone, Copy)]
pub struct Pin {
    _marker: (),
}

impl Pin {
    /// A pin that is made without pinning the thread. It is of use only to a
    /// thread that is pinned already.
    pub fn fake() -> Self {
        Pin { _marker: () }
    }

    /// Retires `o` for the thread of `local`.
    pub fn add_garbage<G>(&self, o: Owned<G>, global: &mut GlobalState<G>, local: &mut LocalState<G>)
        requires
            old(global).wf(),
            old(local).wf(old(global)),
        ensures
            final(global).wf(),
            final(local).wf(final(global)),
            final(local).thread() == old(local).thread(),
            final(local).count() == old(local).count(),
            final(global).epoch() == old(global).epoch(),
            final(global).markers() == old(global).markers(),
            retired(
                old(local).bag(),
                old(global).fifo(),
                final(local).bag(),
                final(global).fifo(),
                old(global).epoch(),
                Garbage(o, old(global).epoch()),
            ),
    {
        local.add_garbage(o, global);
    }
}

} // verus!

verus! {

/// The thread of `l` is pinned, and both states are well formed. This is
/// what holds when the work of a pinned thread begins.
pub open spec fn entered<G>(g: &GlobalState<G>, l: &LocalState<G>) -> bool {
    &&& g.wf()
    &&& l.wf(g)
    &&& l.pinned_in(g)
}

/// The thread of `l0` is still pinned in `g1`, both states are well formed,
/// and the epoch has not gone back. This is what the work of a pinned thread
/// has to leave behind.
pub open spec fn kept<G>(
    g0: &GlobalState<G>,
    l0: &LocalState<G>,
    g1: &GlobalState<G>,
    l1: &LocalState<G>,
) -> bool {
    &&& g1.wf()
    &&& l1.wf(g1)
    &&& l1.thread() == l0.thread()
    &&& l1.pinned_in(g1)
    &&& g1.epoch() >= g0.epoch()
}

impl<G> LocalState<G> {
    /// Counts one pin and tells whether it is time to try to move the epoch
    /// on.
    pub fn tick(&mut self) -> (due: bool)
        requires
            old(self).count() < PIN_PERIOD,
        ensures
            final(self).thread() == old(self).thread(),
            final(self).bag() == old(self).bag(),
            due == (old(self).count() + 1 == PIN_PERIOD),
            due ==> final(self).count() == 0,
            !due ==> final(self).count() == old(self).count() + 1,
    {
        if self.pin_count + 1 == PIN_PERIOD {
            self.pin_count = 0;
            true
        } else {
            self.pin_count = self.pin_count + 1;
            false
        }
    }
}

/// Pins the thread of `local`, runs `f`, and unpins the thread again. The
/// thread gets its marker if it has none. At every `PIN_PERIOD`-th pin of the
/// thread, and if every pinned thread has seen the epoch, the epoch moves on
/// before `f` runs, and the bags that are ripe by then are freed.
pub fn pin<G, F, R>(global: &mut GlobalState<G>, local: &mut LocalState<G>, f: F) -> (r: R) where
    F: FnOnce(&mut GlobalState<G>, &mut LocalState<G>, Pin) -> R,

    requires
        old(global).wf(),
        old(local).wf(old(global)),
        !old(local).pinned_in(old(global)),
        forall|g: &mut GlobalState<G>, l: &mut LocalState<G>, p: Pin|
            entered(&*g, &*l) ==> call_requires(f, (g, l, p)),
        forall|g: &mut GlobalState<G>, l: &mut LocalState<G>, p: Pin, r: R|
            entered(&*g, &*l) && call_ensures(f, (g, l, p), r) ==> kept(
                &*g,
                &*l,
                &*final(g),
                &*final(l),
            ),
    ensures
        final(global).wf(),
        final(local).wf(final(global)),
        final(local).thread() is Some,
        old(local).thread() is Some ==> final(local).thread() == old(local).thread(),
        !final(local).pinned_in(final(global)),
        final(global).epoch() >= old(global).epoch(),
        exists|g: &mut GlobalState<G>, l: &mut LocalState<G>, p: Pin|
            entered(&*g, &*l) && #[trigger] call_ensures(f, (g, l, p), r) && final(l).bag() == final(local).bag() && final(g).fifo() == final(global).fifo() && final(g).epoch() == final(global).epoch(),
{
    let p = Pin { _marker: () };
    let t = local.marker(global);
    // The thread is pinned before the epoch moves, since the move looks at
    // the markers.
    let global_epoch = global.pin_marker(t);
    // Every once in a while, try to move the epoch on.
    let due = local.tick();
    if due && global.can_increment_epoch() {
        global.increment_epoch(global_epoch);
    }
    proof {
        assert(has_marker(global.markers(), t));
    }
    let ret = f(global, local, p);
    let t = local.marker(global);
    global.unpin_marker(t);
    ret
}

/// Nothing of the two states has changed.
pub open spec fn untouched<G>(
    g0: &GlobalState<G>,
    l0: &LocalState<G>,
    g1: &GlobalState<G>,
    l1: &LocalState<G>,
) -> bool {
    &&& g1.epoch() == g0.epoch()
    &&& g1.markers() == g0.markers()
    &&& g1.fifo() == g0.fifo()
    &&& l1.thread() == l0.thread()
    &&& l1.count() == l0.count()
    &&& l1.bag() == l0.bag()
}

/// The thread of `l0` has retired one object: the one that was at `addr`.
/// Nothing else has changed.
pub open spec fn retired_one<G>(
    g0: &GlobalState<G>,
    l0: &LocalState<G>,
    g1: &GlobalState<G>,
    l1: &LocalState<G>,
    addr: usize,
) -> bool {
    &&& g1.epoch() == g0.epoch()
    &&& g1.markers() == g0.markers()
    &&& l1.thread() == l0.thread()
    &&& l1.count() == l0.count()
    &&& exists|g: Garbage<G>|
        crate::hp::atomic::spec_raw::<G>(g.0.data) == addr && g.1 == g0.epoch() && #[trigger] retired(
            l0.bag(),
            g0.fifo(),
            l1.bag(),
            g1.fifo(),
            g0.epoch(),
            g,
        )
}

/// Epoch safety. In a state that is well formed, every object of a ripe bag
/// was retired at least `GARBAGE_AGE` epochs before the epoch, and before
/// the epoch that any pinned thread has seen. So what an advance of the
/// epoch frees is out of the reach of every thread that is pinned.
pub proof fn lemma_epoch_safety<G>(
    markers: Seq<Option<ThreadPinMarker>>,
    fifo: Seq<(usize, Bag<G>)>,
    epoch: usize,
)
    requires
        markers_wf(markers, epoch),
        fifo_wf(fifo, epoch),
    ensures
        forall|i: int, j: int|
            0 <= i < ripe(fifo, epoch) && 0 <= j < fifo[i].1@.len() ==> (#[trigger] fifo[i].1@[j]).1
                + GARBAGE_AGE <= epoch,
        forall|i: int, j: int, t: usize|
            0 <= i < ripe(fifo, epoch) && 0 <= j < fifo[i].1@.len() && #[trigger] is_pinned(
                markers,
                t,
            ) ==> (#[trigger] fifo[i].1@[j]).1 < markers[t as int]->0.observed(),
{
    lemma_ripe(fifo, epoch, epoch);
    assert forall|i: int, j: int, t: usize|
        0 <= i < ripe(fifo, epoch) && 0 <= j < fifo[i].1@.len() && #[trigger] is_pinned(
            markers,
            t,
        ) implies (#[trigger] fifo[i].1@[j]).1 < markers[t as int]->0.observed() by {
        assert(has_marker(markers, t));
        assert(fifo[i].1@[j].1 + GARBAGE_AGE <= epoch);
    }
}

/// The epoch never goes back, and it moves on by one at most.
pub proof fn lemma_epoch_monotone(epoch: usize, from: usize)
    ensures
        epoch <= spec_next_epoch(epoch, from) <= epoch + 1,
{
}

} // verus!
