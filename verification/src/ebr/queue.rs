//! A Michael-Scott queue whose nodes are reclaimed through epochs.
use vstd::prelude::*;
use std::sync::atomic::Ordering;
use crate::chain::{Chain, contents, link_ok};
use crate::list_model::compact;
use crate::queue_model::{queue_wf, spec_push, spec_pop, lemma_links, lemma_pushed, lemma_popped};
use crate::hp::atomic::{Atomic, Owned, Ptr, spec_tag, spec_raw, lemma_zero, lemma_tag_laws};
use crate::ebr::{GlobalState, LocalState, Pin, entered, untouched, retired_one, Garbage};

pub use crate::node::Node;

verus! {

/// A queue of values. Whoever works on the queue is pinned, and the sentinel
/// that a pop links out is retired under the epoch of that moment.
pub struct Queue<T> {
    chain: Chain<T>,
    tail: Atomic<Node<T>>,
}

impl<T> View for Queue<T> {
    type V = Seq<T>;

    /// The values, oldest first.
    closed spec fn view(&self) -> Seq<T> {
        contents(self.chain.nodes(), self.chain.order(), 1)
    }
}

impl<T> Queue<T> {
    /// The queue is at rest, and the heap holds no node but the linked ones.
    pub closed spec fn wf(&self) -> bool {
        &&& queue_wf(&self.chain, self.tail@)
        &&& compact(&self.chain)
    }

    /// Whether the heap of the queue can take one more node.
    pub closed spec fn has_room(&self) -> bool {
        self.chain.has_room()
    }

    /// The addresses of the nodes: the sentinel first, then the nodes of the
    /// values, oldest first.
    pub closed spec fn addresses(&self) -> Seq<usize> {
        self.chain.order()
    }

    /// A queue always has its sentinel.
    pub proof fn lemma_sentinel(&self)
        requires
            self.wf(),
        ensures
            self.addresses().len() == self@.len() + 1,
    {
    }

    /// An empty queue: a sentinel and nothing behind it.
    pub fn new() -> (q: Self)
        ensures
            q.wf(),
            q@ == Seq::<T>::empty(),
    {
        let mut chain = Chain::new();
        proof {
            lemma_zero::<Node<T>>(chain.frontier());
            lemma_tag_laws::<Node<T>>(chain.frontier(), 0);
        }
        let sentinel = Owned::new(Node::empty());
        let ptr = chain.adopt(sentinel);
        let null = chain.load_head(Ordering::Relaxed);
        let r = chain.cas_head_in(null, ptr, Ordering::Relaxed);
        let mut tail = Atomic::null();
        tail.store(ptr, Ordering::Relaxed);
        let q = Queue { chain: chain, tail: tail };
        proof {
            assert(q.chain.order() =~= seq![ptr.spec_as_raw()]);
            assert(q@ =~= Seq::<T>::empty());
            assert(link_ok(q.chain.nodes(), q.chain.order(), 0));
            assert forall|a: usize| #[trigger] q.chain.nodes().contains_key(a) implies q.chain.order().contains(
                a,
            ) by {
                assert(q.chain.order()[0] == a);
            }
        }
        q
    }

    /// Ends the queue. Each node leaves the heap, once, from the sentinel
    /// on. What the sentinel holds is not looked at; the values that the
    /// queue still held are handed out, oldest first, for the caller to let
    /// go.
    pub fn drop(self) -> (values: Vec<T>)
        requires
            self.wf(),
        ensures
            values@ == self@,
    {
        self.chain.dissolve(1)
    }

    /// Tells whether the heap of the queue can take one more node.
    pub fn room(&self) -> (b: bool)
        ensures
            b == self.has_room(),
    {
        self.chain.room()
    }

    /// Puts `t` at the back of the queue.
    pub fn push(&mut self, t: T, _pin: Pin)
        requires
            old(self).wf(),
            old(self).has_room(),
        ensures
            final(self).wf(),
            final(self)@ == spec_push(old(self)@, t),
    {
        let node = Owned::new(Node::new(t));
        let new_node = self.chain.adopt(node);
        let ghost mid = self.chain;
        proof {
            lemma_zero::<Node<T>>(old(self).chain.frontier());
            lemma_tag_laws::<Node<T>>(old(self).chain.frontier(), 0);
            old(self).chain.lemma_addresses();
        }
        loop
            invariant
                old(self).wf(),
                self.chain == mid,
                self.tail == old(self).tail,
                mid.inv(),
                mid.order() == old(self).chain.order(),
                mid.first() == old(self).chain.first(),
                mid.nodes() == old(self).chain.nodes().insert(
                    new_node.spec_as_raw(),
                    (Node { data: Some(t), next: 0 }),
                ),
                !old(self).chain.nodes().contains_key(new_node.spec_as_raw()),
                mid.detached(new_node.spec_as_raw()),
                spec_tag::<Node<T>>(new_node@) == 0,
            decreases 0int,
        {
            let tail = self.tail.load(Ordering::SeqCst);
            let ghost last = old(self).chain.order().len() - 1;
            proof {
                lemma_links(&old(self).chain, old(self).tail@, last);
                lemma_zero::<Node<T>>(0);
                assert(old(self).chain.order().contains(old(self).chain.order()[last]));
            }
            let next = self.chain.load_next(tail, Ordering::SeqCst);
            if !next.is_null() {
                // The tail cell lags behind. Help it on.
                let _ = self.tail.compare_and_set(tail, next, Ordering::SeqCst);
            } else {
                let succ = self.chain.cas_tail_in(tail, new_node, Ordering::SeqCst).is_ok();
                if succ {
                    // Whether this succeeds or not, the node is linked in.
                    let _ = self.tail.compare_and_set(tail, new_node, Ordering::SeqCst);
                    proof {
                        assert forall|k: int| 0 <= k < last implies self.chain.nodes()[#[trigger] old(self).chain.order()[k]] == old(self).chain.nodes()[old(self).chain.order()[k]] by {
                            lemma_links(&old(self).chain, old(self).tail@, k);
                        }
                        lemma_pushed(&old(self).chain, old(self).tail@, &self.chain, new_node@, t);
                        assert forall|a: usize| #[trigger]
                            self.chain.nodes().contains_key(a) implies self.chain.order().contains(
                            a,
                        ) by {
                            if a == new_node.spec_as_raw() {
                                assert(self.chain.order()[last + 1] == a);
                            } else {
                                assert(old(self).chain.nodes().contains_key(a));
                                let k = choose|k: int|
                                    0 <= k < old(self).chain.order().len() && old(self).chain.order()[k] == a;
                                assert(self.chain.order()[k] == a);
                            }
                        }
                    }
                    return ;
                }
            }
        }
    }

    /// The queue is at rest again once the sentinel was linked out and
    /// retired and the node behind it was emptied.
    proof fn lemma_after_pop(&self, prev: &Self)
        requires
            prev.wf(),
            prev.chain.order().len() >= 2,
            self.tail == prev.tail,
            self.chain.inv(),
            self.chain.first() == prev.chain.nodes()[prev.chain.order()[0]].next,
            self.chain.order() == prev.chain.order().remove(0),
            self.chain.nodes() =~= prev.chain.nodes().remove(prev.chain.order()[0]).insert(
                prev.chain.order()[1],
                (Node { data: None, next: prev.chain.nodes()[prev.chain.order()[1]].next }),
            ),
        ensures
            self.wf(),
            self@ == prev@.drop_first(),
            prev.chain.nodes()[prev.chain.order()[1]].data == Some(prev@[0]),
    {
        let o1 = prev.chain.order();
        let o2 = self.chain.order();
        lemma_links(&prev.chain, prev.tail@, 0);
        lemma_links(&prev.chain, prev.tail@, 1);
        assert forall|k: int| 2 <= k < o1.len() implies self.chain.nodes()[#[trigger] o1[k]]
            == prev.chain.nodes()[o1[k]] by {
            lemma_links(&prev.chain, prev.tail@, k);
        }
        lemma_popped(&prev.chain, prev.tail@, &self.chain);
        assert forall|a: usize| #[trigger] self.chain.nodes().contains_key(a) implies o2.contains(
            a,
        ) by {
            assert(prev.chain.nodes().contains_key(a));
            let k = choose|k: int| 0 <= k < o1.len() && o1[k] == a;
            assert(o2[k - 1] == a);
        }
    }

    /// Takes the oldest value off the queue. The sentinel is retired, and the
    /// node of the value is the sentinel from then on.
    pub fn pop(
        &mut self,
        pin: Pin,
        global: &mut GlobalState<Node<T>>,
        local: &mut LocalState<Node<T>>,
    ) -> (r: Option<T>)
        requires
            old(self).wf(),
            entered(old(global), old(local)),
        ensures
            final(self).wf(),
            entered(final(global), final(local)),
            r == spec_pop(old(self)@).0,
            final(self)@ == spec_pop(old(self)@).1,
            r is None ==> untouched(old(global), old(local), final(global), final(local)),
            r is Some ==> retired_one(
                old(global),
                old(local),
                final(global),
                final(local),
                old(self).addresses()[0],
            ),
    {
        loop
            invariant
                old(self).wf(),
                *self == *old(self),
                *global == *old(global),
                *local == *old(local),
                entered(old(global), old(local)),
            decreases 0int,
        {
            let head: Ptr<Node<T>> = self.chain.load_head(Ordering::SeqCst);
            proof {
                lemma_links(&self.chain, self.tail@, 0);
                if self.chain.order().len() > 1 {
                    lemma_links(&self.chain, self.tail@, 1);
                }
                lemma_tag_laws::<Node<T>>(head@, 0);
            }
            let next: Ptr<Node<T>> = self.chain.load_next(head, Ordering::SeqCst);
            if next.is_null() {
                return None;
            }
            // The value comes from the node behind the sentinel, which is the
            // sentinel from now on.
            let res = self.chain.cas_out(None, head, next, Ordering::SeqCst, Ghost(0));
            match res {
                Ok(()) => {
                    let data = self.chain.take_data(next);
                    let o = self.chain.evict(head);
                    pin.add_garbage(o, global, local);
                    proof {
                        self.lemma_after_pop(old(self));
                        let g = Garbage(o, old(global).epoch());
                        assert(spec_raw::<Node<T>>(g.0.data) == old(self).addresses()[0]);
                    }
                    return data;
                },
                Err(_) => {},
            }
        }
    }

    /// Takes the oldest value off the queue if `f` holds of it.
    pub fn pop_if<F: Fn(&T) -> bool>(
        &mut self,
        f: F,
        pin: Pin,
        global: &mut GlobalState<Node<T>>,
        local: &mut LocalState<Node<T>>,
    ) -> (r: Option<T>)
        requires
            old(self).wf(),
            entered(old(global), old(local)),
            old(self)@.len() > 0 ==> call_requires(f, (&old(self)@[0],)),
        ensures
            final(self).wf(),
            entered(final(global), final(local)),
            old(self)@.len() == 0 ==> r is None,
            r is None ==> final(self)@ == old(self)@ && untouched(
                old(global),
                old(local),
                final(global),
                final(local),
            ),
            r is None && old(self)@.len() > 0 ==> call_ensures(f, (&old(self)@[0],), false),
            r is Some ==> call_ensures(f, (&old(self)@[0],), true) && r == spec_pop(old(self)@).0
                && final(self)@ == spec_pop(old(self)@).1 && retired_one(
                old(global),
                old(local),
                final(global),
                final(local),
                old(self).addresses()[0],
            ),
    {
        let head: Ptr<Node<T>> = self.chain.load_head(Ordering::SeqCst);
        proof {
            lemma_links(&self.chain, self.tail@, 0);
            if self.chain.order().len() > 1 {
                lemma_links(&self.chain, self.tail@, 1);
                assert(crate::chain::node_tidy(self.chain.nodes(), self.chain.order(), 1));
                assert(crate::chain::data_at(self.chain.nodes(), self.chain.order(), 1)
                    == self.chain.nodes()[self.chain.order()[1]].data);
            }
            lemma_tag_laws::<Node<T>>(head@, 0);
        }
        let next: Ptr<Node<T>> = self.chain.load_next(head, Ordering::SeqCst);
        if next.is_null() {
            return None;
        }
        let data = self.chain.value(next);
        assert(*data == self@[0]);
        if f(data) {
            let res = self.chain.cas_out(None, head, next, Ordering::SeqCst, Ghost(0));
            match res {
                Ok(()) => {
                    let data = self.chain.take_data(next);
                    let o = self.chain.evict(head);
                    pin.add_garbage(o, global, local);
                    proof {
                        self.lemma_after_pop(old(self));
                        let g = Garbage(o, old(global).epoch());
                        assert(spec_raw::<Node<T>>(g.0.data) == old(self).addresses()[0]);
                    }
                    data
                },
                Err(_) => None,
            }
        } else {
            None
        }
    }

    /// Tells whether the queue holds no value.
    pub fn is_empty(&self, _pin: Pin) -> (b: bool)
        requires
            self.wf(),
        ensures
            b == (self@.len() == 0),
    {
        let head = self.chain.load_head(Ordering::Acquire);
        proof {
            lemma_links(&self.chain, self.tail@, 0);
            if self.chain.order().len() > 1 {
                lemma_links(&self.chain, self.tail@, 1);
            }
        }
        self.chain.load_next(head, Ordering::Acquire).is_null()
    }

    /// Counts the values in the queue.
    pub fn len(&self, _pin: Pin) -> (n: usize)
        requires
            self.wf(),
        ensures
            n == self@.len(),
    {
        let mut len: usize = 0;
        let cap = self.chain.allocated();
        let mut node = self.chain.load_head(Ordering::Acquire);
        let ghost mut i: int = 0;
        proof {
            self.chain.lemma_order_bound();
            lemma_links(&self.chain, self.tail@, 0);
        }
        let mut next = self.chain.load_next(node, Ordering::Relaxed);
        while !next.is_null()
            invariant
                self.wf(),
                0 <= i < self.chain.order().len(),
                self.chain.order().len() <= cap,
                len == i,
                node.spec_as_raw() == self.chain.order()[i],
                next@ == self.chain.nodes()[self.chain.order()[i]].next,
            decreases self.chain.order().len() - i,
        {
            proof {
                lemma_links(&self.chain, self.tail@, i);
                if i + 1 < self.chain.order().len() {
                    lemma_links(&self.chain, self.tail@, i + 1);
                }
            }
            node = next;
            len += 1;
            next = self.chain.load_next(node, Ordering::Relaxed);
            proof {
                i = i + 1;
            }
        }
        proof {
            lemma_links(&self.chain, self.tail@, i);
            if i + 1 < self.chain.order().len() {
                lemma_links(&self.chain, self.tail@, i + 1);
            }
        }
        len
    }
}

} // verus!
