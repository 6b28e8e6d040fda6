//! The mixed workload that the list benchmarks run: a row of operations that
//! are drawn at random.
use vstd::prelude::*;
use rand::Rng;
use rand::ThreadRng;
use crate::hp;
use crate::ebr;
use crate::nothing;
use crate::chain::first_match;

verus! {

/// The number of values that the queue benchmarks move.
pub const NUM_ELEMENTS: usize = 65536;

/// The number of values that the list benchmarks work on.
pub const NUM_ELEMENTS_SMALLER: usize = 1024;

/// The random number generator of a thread, as the crate `rand` provides it.
#[verifier::external_type_specification]
#[verifier::external_body]
pub struct ExThreadRng(ThreadRng);

/// One operation on a list of numbers.
#[derive(Debug, Clone, Copy, PartialEq, Eq, Structural)]
pub enum Operation {
    /// Put the number into the list.
    Insert(u32),
    /// Look the number up.
    Search(u32),
    /// Take the number out.
    Remove(u32),
    /// Take the first number off.
    PopFront,
}

/// The operation that stands for the draws `r` and `n`: four in ten are
/// inserts, two in ten searches, two in ten removals, and the rest take the
/// front off.
pub open spec fn spec_op(r: u32, n: u32) -> Operation {
    if r < 4 {
        Operation::Insert(n)
    } else if r < 6 {
        Operation::Search(n)
    } else if r < 8 {
        Operation::Remove(n)
    } else {
        Operation::PopFront
    }
}

/// The operation that stands for the draws `r` and `n`.
pub fn op_for(r: u32, n: u32) -> (op: Operation)
    ensures
        op == spec_op(r, n),
{
    if r < 4 {
        Operation::Insert(n)
    } else if r < 6 {
        Operation::Search(n)
    } else if r < 8 {
        Operation::Remove(n)
    } else {
        Operation::PopFront
    }
}

/// Calls `Rng::gen_range` of the crate `rand` on a `ThreadRng`, for `u32`.
/// The claim: the number that comes back is at least `low` and below `high`.
/// Which one it is depends on chance. The call panics unless `low` is below
/// `high`, so that is asked of the caller.
#[verifier::external_body]
fn gen_range(rng: &mut ThreadRng, low: u32, high: u32) -> (r: u32)
    requires
        low < high,
    ensures
        low <= r < high,
{
    rng.gen_range(low, high)
}

/// Draws an operation at random.
pub fn random_op(rng: &mut ThreadRng) -> (op: Operation)
    ensures
        exists|r: u32, n: u32| r < 10 && n < NUM_ELEMENTS_SMALLER && op == spec_op(r, n),
{
    let r = gen_range(rng, 0, 10);
    let n = gen_range(rng, 0, NUM_ELEMENTS_SMALLER as u32);
    op_for(r, n)
}

/// What the list holds after `op`, for a list that held `s`: the removal
/// goes by the first number that is equal.
pub open spec fn list_after(s: Seq<u32>, op: Operation) -> Seq<u32> {
    match op {
        Operation::Insert(n) => seq![n] + s,
        Operation::Search(n) => s,
        Operation::Remove(n) => if first_match(s, n, 0) < s.len() {
            s.remove(first_match(s, n, 0))
        } else {
            s
        },
        Operation::PopFront => if s.len() > 0 {
            s.drop_first()
        } else {
            s
        },
    }
}

/// Does `op` to a list that reclaims nothing. An insert into a list whose
/// heap has no room is left out, and `false` comes back for it.
pub fn apply_nothing(list: &mut nothing::list::List<u32>, op: Operation) -> (done: bool)
    requires
        old(list).wf(),
    ensures
        final(list).wf(),
        done ==> final(list)@ == list_after(old(list)@, op),
        done == !(op is Insert && !old(list).has_room()),
        !done ==> final(list)@ == old(list)@,
{
    match op {
        Operation::Insert(n) => {
            if list.room() {
                list.insert(n);
                true
            } else {
                false
            }
        },
        Operation::Search(n) => {
            let _r = list.contains(&n);
            true
        },
        Operation::Remove(n) => {
            let _r = list.remove(&n);
            true
        },
        Operation::PopFront => {
            let _r = list.remove_front();
            true
        },
    }
}

/// Does `op` to a list with hazard pointers, for `thread`. An insert into a
/// list whose heap has no room is left out, and `false` comes back for it.
pub fn apply_hp(
    list: &mut hp::list::List<u32>,
    op: Operation,
    reg: &mut hp::Registry<hp::list::Node<u32>>,
    thread: usize,
) -> (done: bool)
    requires
        old(list).wf(),
        old(reg).wf(),
        old(reg).registered(thread),
        hp::free_slots(old(reg).slots(thread)) >= 2,
    ensures
        final(list).wf(),
        final(reg).restored(old(reg), thread),
        hp::free_slots(final(reg).slots(thread)) >= 2,
        done ==> final(list)@ == list_after(old(list)@, op),
        done == !(op is Insert && !old(list).has_room()),
        !done ==> final(list)@ == old(list)@,
{
    match op {
        Operation::Insert(n) => {
            if list.room() {
                list.insert(n, reg, thread);
                true
            } else {
                proof {
                    hp::lemma_same_hazards(reg.entries(), reg.entries(), thread);
                }
                false
            }
        },
        Operation::Search(n) => {
            let _r = list.contains(&n, reg, thread);
            true
        },
        Operation::Remove(n) => {
            let _r = list.remove(&n, reg, thread);
            true
        },
        Operation::PopFront => {
            let _r = list.remove_front(reg, thread);
            proof {
                assert(old(list)@.len() > 0 ==> old(list)@.drop_first() =~= list_after(old(list)@, op));
            }
            true
        },
    }
}

/// Does `op` to a list with epochs, for the pinned thread of `local`. An
/// insert into a list whose heap has no room is left out, and `false` comes
/// back for it.
pub fn apply_ebr(
    list: &mut ebr::list::List<u32>,
    op: Operation,
    pin: ebr::Pin,
    global: &mut ebr::GlobalState<ebr::list::Node<u32>>,
    local: &mut ebr::LocalState<ebr::list::Node<u32>>,
) -> (done: bool)
    requires
        old(list).wf(),
        ebr::entered(old(global), old(local)),
    ensures
        final(list).wf(),
        ebr::entered(final(global), final(local)),
        ebr::kept(old(global), old(local), final(global), final(local)),
        done ==> final(list)@ == list_after(old(list)@, op),
        done == !(op is Insert && !old(list).has_room()),
        !done ==> final(list)@ == old(list)@,
{
    match op {
        Operation::Insert(n) => {
            if list.room() {
                let _p = list.insert(n, pin);
                true
            } else {
                false
            }
        },
        Operation::Search(n) => {
            let _r = list.contains(&n, pin);
            true
        },
        Operation::Remove(n) => {
            let _r = list.remove(&n, pin, global, local);
            true
        },
        Operation::PopFront => {
            let _r = list.remove_front(pin, global, local);
            true
        },
    }
}

} // verus!
