//! What holds of every run of a queue, a list and a heap.
//!
//! A run is a row of operations on a structure that was empty at the start.
//! The operations are those of the library, as their contracts state them:
//! over what the structure holds before and after, and what it hands out.
use vstd::prelude::*;
use vstd::multiset::Multiset;
use crate::queue_model::{spec_push, spec_pop};
use crate::heap::spec_bump;

verus! {

/// An operation on a queue.
pub enum QueueOp<T> {
    /// Put a value at the back.
    Push(T),
    /// Take the oldest value, if there is one.
    Pop,
}

/// What a queue holds after the run `ops`.
pub open spec fn queue_after<T>(ops: Seq<QueueOp<T>>) -> Seq<T>
    decreases ops.len(),
{
    if ops.len() == 0 {
        Seq::empty()
    } else {
        match ops.last() {
            QueueOp::Push(t) => spec_push(queue_after(ops.drop_last()), t),
            QueueOp::Pop => spec_pop(queue_after(ops.drop_last())).1,
        }
    }
}

/// The values that the pops of the run `ops` have handed out, in the order of
/// the pops.
pub open spec fn queue_popped<T>(ops: Seq<QueueOp<T>>) -> Seq<T>
    decreases ops.len(),
{
    if ops.len() == 0 {
        Seq::empty()
    } else {
        match ops.last() {
            QueueOp::Push(t) => queue_popped(ops.drop_last()),
            QueueOp::Pop => match spec_pop(queue_after(ops.drop_last())).0 {
                Some(v) => queue_popped(ops.drop_last()).push(v),
                None => queue_popped(ops.drop_last()),
            },
        }
    }
}

/// The values that the run `ops` has pushed, in the order of the pushes.
pub open spec fn queue_pushed<T>(ops: Seq<QueueOp<T>>) -> Seq<T>
    decreases ops.len(),
{
    if ops.len() == 0 {
        Seq::empty()
    } else {
        match ops.last() {
            QueueOp::Push(t) => queue_pushed(ops.drop_last()).push(t),
            QueueOp::Pop => queue_pushed(ops.drop_last()),
        }
    }
}

/// First in, first out: what was popped, followed by what the queue still
/// holds, is what was pushed, in the order of the pushes.
pub proof fn lemma_queue_fifo<T>(ops: Seq<QueueOp<T>>)
    ensures
        queue_popped(ops) + queue_after(ops) == queue_pushed(ops),
    decreases ops.len(),
{
    if ops.len() == 0 {
        assert(queue_popped(ops) + queue_after(ops) =~= queue_pushed(ops));
    } else {
        let rest = ops.drop_last();
        lemma_queue_fifo(rest);
        let c = queue_after(rest);
        let d = queue_popped(rest);
        match ops.last() {
            QueueOp::Push(t) => {
                assert(d + c.push(t) =~= (d + c).push(t));
            },
            QueueOp::Pop => {
                if c.len() > 0 {
                    assert(d.push(c[0]) + c.drop_first() =~= d + c);
                }
            },
        }
    }
}

/// Each value is delivered once: every value that was pushed was either
/// popped or is still in the queue, as often as it was pushed.
pub proof fn lemma_queue_delivery<T>(ops: Seq<QueueOp<T>>)
    ensures
        queue_pushed(ops).to_multiset() == queue_popped(ops).to_multiset().add(
            queue_after(ops).to_multiset(),
        ),
{
    lemma_queue_fifo(ops);
    vstd::seq_lib::lemma_multiset_commutative(queue_popped(ops), queue_after(ops));
}

/// Accounting at the end: what a queue still holds when it ends, and hands
/// out when it is taken apart, is what was pushed and never popped, each
/// value as often; so it is as many values as were pushed less the ones that
/// were popped.
pub proof fn lemma_queue_accounting<T>(ops: Seq<QueueOp<T>>)
    ensures
        queue_after(ops).len() == queue_pushed(ops).len() - queue_popped(ops).len(),
        queue_after(ops).to_multiset() == queue_pushed(ops).to_multiset().sub(
            queue_popped(ops).to_multiset(),
        ),
{
    lemma_queue_fifo(ops);
    lemma_queue_delivery(ops);
    assert(queue_after(ops).to_multiset() =~= queue_pushed(ops).to_multiset().sub(
        queue_popped(ops).to_multiset(),
    ));
}

/// A pop on a queue that holds nothing hands nothing out and changes
/// nothing, and a queue that holds something hands its oldest value out.
pub proof fn lemma_queue_empty<T>(s: Seq<T>)
    ensures
        s.len() == 0 ==> spec_pop(s).0 is None && spec_pop(s).1 == s,
        s.len() > 0 ==> spec_pop(s).0 == Some(s[0]),
{
}

/// A queue that holds nothing holds something later only if a push came in
/// between.
pub proof fn lemma_queue_filled_by_push<T>(ops: Seq<QueueOp<T>>, i: int)
    requires
        0 <= i <= ops.len(),
        queue_after(ops.take(i)).len() == 0,
        queue_after(ops).len() > 0,
    ensures
        exists|k: int| i <= k < ops.len() && ops[k] is Push,
    decreases ops.len() - i,
{
    if i == ops.len() {
        assert(ops.take(i) =~= ops);
    } else {
        assert(ops.take(i + 1).drop_last() =~= ops.take(i));
        assert(ops.take(i + 1).last() == ops[i]);
        if ops[i] is Push {
        } else {
            lemma_queue_filled_by_push(ops, i + 1);
        }
    }
}

/// An operation on a list.
pub enum ListOp<T> {
    /// Put a value at the front.
    Insert(T),
    /// Take the value at an index out, if there is one.
    RemoveAt(int),
}

/// What a list holds after the run `ops`.
pub open spec fn list_after<T>(ops: Seq<ListOp<T>>) -> Seq<T>
    decreases ops.len(),
{
    if ops.len() == 0 {
        Seq::empty()
    } else {
        let before = list_after(ops.drop_last());
        match ops.last() {
            ListOp::Insert(t) => seq![t] + before,
            ListOp::RemoveAt(k) => if 0 <= k < before.len() {
                before.remove(k)
            } else {
                before
            },
        }
    }
}

/// The values that the removals of the run `ops` have handed out.
pub open spec fn list_removed<T>(ops: Seq<ListOp<T>>) -> Multiset<T>
    decreases ops.len(),
{
    if ops.len() == 0 {
        Multiset::empty()
    } else {
        let before = list_after(ops.drop_last());
        match ops.last() {
            ListOp::Insert(t) => list_removed(ops.drop_last()),
            ListOp::RemoveAt(k) => if 0 <= k < before.len() {
                list_removed(ops.drop_last()).insert(before[k])
            } else {
                list_removed(ops.drop_last())
            },
        }
    }
}

/// The values that the run `ops` has inserted.
pub open spec fn list_inserted<T>(ops: Seq<ListOp<T>>) -> Multiset<T>
    decreases ops.len(),
{
    if ops.len() == 0 {
        Multiset::empty()
    } else {
        match ops.last() {
            ListOp::Insert(t) => list_inserted(ops.drop_last()).insert(t),
            ListOp::RemoveAt(k) => list_inserted(ops.drop_last()),
        }
    }
}

/// Each value is delivered once: every value that was inserted was either
/// removed or is still in the list, as often as it was inserted.
pub proof fn lemma_list_delivery<T>(ops: Seq<ListOp<T>>)
    ensures
        list_inserted(ops) == list_removed(ops).add(list_after(ops).to_multiset()),
    decreases ops.len(),
{
    broadcast use vstd::seq_lib::group_to_multiset_ensures;

    if ops.len() == 0 {
        assert(list_inserted(ops) =~= list_removed(ops).add(list_after(ops).to_multiset()));
    } else {
        let rest = ops.drop_last();
        lemma_list_delivery(rest);
        let before = list_after(rest);
        match ops.last() {
            ListOp::Insert(t) => {
                vstd::seq_lib::lemma_multiset_commutative(seq![t], before);
                assert(seq![t].to_multiset() =~= Multiset::empty().insert(t)) by {
                    assert(seq![t] =~= Seq::<T>::empty().push(t));
                }
                assert(list_inserted(ops) =~= list_removed(ops).add(
                    list_after(ops).to_multiset(),
                ));
            },
            ListOp::RemoveAt(k) => {
                if 0 <= k < before.len() {
                    assert(before.to_multiset().count(before[k]) > 0);
                    assert(list_inserted(ops) =~= list_removed(ops).add(
                        list_after(ops).to_multiset(),
                    ));
                }
            },
        }
    }
}

/// Accounting at the end: what a list still holds when it ends, and hands
/// out when it is taken apart, is what was inserted and never removed, each
/// value as often; so it is as many values as were inserted less the ones
/// that were removed.
pub proof fn lemma_list_accounting<T>(ops: Seq<ListOp<T>>)
    ensures
        list_after(ops).len() == list_inserted(ops).len() - list_removed(ops).len(),
        list_after(ops).to_multiset() == list_inserted(ops).sub(list_removed(ops)),
{
    broadcast use vstd::seq_lib::group_to_multiset_ensures;

    lemma_list_delivery(ops);
    assert(list_after(ops).to_multiset() =~= list_inserted(ops).sub(list_removed(ops)));
}

/// An operation on a heap.
pub enum HeapOp {
    /// Ask for a fresh address.
    Allocate,
    /// Free an address.
    Free(usize),
}

/// The frontier of a heap of values of type `T` after the run `ops`.
pub open spec fn heap_frontier<T>(ops: Seq<HeapOp>) -> usize
    decreases ops.len(),
{
    if ops.len() == 0 {
        (crate::hp::atomic::spec_low_bits::<T>() + 1) as usize
    } else {
        let f = heap_frontier::<T>(ops.drop_last());
        match ops.last() {
            HeapOp::Allocate => if f != 0 {
                spec_bump::<T>(f)
            } else {
                f
            },
            HeapOp::Free(a) => f,
        }
    }
}

/// The addresses that are live in a heap of values of type `T` after the run
/// `ops`. An allocation on a heap without room and the freeing of an address
/// that is not live are not part of a run of the library; here they change
/// nothing.
pub open spec fn heap_live<T>(ops: Seq<HeapOp>) -> Set<usize>
    decreases ops.len(),
{
    if ops.len() == 0 {
        Set::empty()
    } else {
        let live = heap_live::<T>(ops.drop_last());
        let f = heap_frontier::<T>(ops.drop_last());
        match ops.last() {
            HeapOp::Allocate => if f != 0 {
                live.insert(f)
            } else {
                live
            },
            HeapOp::Free(a) => live.remove(a),
        }
    }
}

/// The addresses that the allocations of the run `ops` have handed out, in
/// their order.
pub open spec fn heap_handed<T>(ops: Seq<HeapOp>) -> Seq<usize>
    decreases ops.len(),
{
    if ops.len() == 0 {
        Seq::empty()
    } else {
        let f = heap_frontier::<T>(ops.drop_last());
        match ops.last() {
            HeapOp::Allocate => if f != 0 {
                heap_handed::<T>(ops.drop_last()).push(f)
            } else {
                heap_handed::<T>(ops.drop_last())
            },
            HeapOp::Free(a) => heap_handed::<T>(ops.drop_last()),
        }
    }
}

/// No address is handed out twice, so none is live again once it was freed;
/// and only addresses that were handed out are live.
pub proof fn lemma_heap_fresh<T>(ops: Seq<HeapOp>)
    ensures
        heap_handed::<T>(ops).no_duplicates(),
        forall|a: usize| heap_live::<T>(ops).contains(a) ==> heap_handed::<T>(ops).contains(a),
        forall|i: int|
            0 <= i < heap_handed::<T>(ops).len() ==> (#[trigger] heap_handed::<T>(ops)[i]) != 0
                && (heap_frontier::<T>(ops) != 0 ==> heap_handed::<T>(ops)[i] < heap_frontier::<T>(
                ops,
            )),
    decreases ops.len(),
{
    if ops.len() > 0 {
        let rest = ops.drop_last();
        lemma_heap_fresh::<T>(rest);
        let f = heap_frontier::<T>(rest);
        let h0 = heap_handed::<T>(rest);
        let h1 = heap_handed::<T>(ops);
        match ops.last() {
            HeapOp::Allocate => {
                if f != 0 {
                    assert forall|i: int, j: int|
                        0 <= i < h1.len() && 0 <= j < h1.len() && i != j implies h1[i] != h1[j] by {
                        if i < h0.len() {
                            assert(h1[i] == h0[i]);
                        }
                        if j < h0.len() {
                            assert(h1[j] == h0[j]);
                        }
                    }
                    assert forall|a: usize| heap_live::<T>(ops).contains(a) implies h1.contains(
                        a,
                    ) by {
                        if a == f {
                            assert(h1[h0.len() as int] == f);
                        } else {
                            assert(h0.contains(a));
                            let k = choose|k: int| 0 <= k < h0.len() && h0[k] == a;
                            assert(h1[k] == a);
                        }
                    }
                    assert forall|i: int| 0 <= i < h1.len() implies (#[trigger] h1[i]) != 0 && (
                    heap_frontier::<T>(ops) != 0 ==> h1[i] < heap_frontier::<T>(ops)) by {
                        if i < h0.len() {
                            assert(h1[i] == h0[i]);
                        }
                    }
                }
            },
            HeapOp::Free(a) => {},
        }
    }
}

} // verus!
