//! A Michael-Scott queue that reclaims nothing.
use vstd::prelude::*;
use std::sync::atomic::Ordering;
use crate::chain::{Chain, contents, link_ok};
use crate::queue_model::{queue_wf, spec_push, spec_pop, lemma_links, lemma_pushed, lemma_popped};
use crate::hp::atomic::{Atomic, Owned, spec_tag, lemma_zero, lemma_tag_laws};

pub use crate::node::Node;

verus! {

/// A queue whose nodes are never freed: the node that a pop links out stays
/// in the heap.
pub struct Queue<T> {
    chain: Chain<T>,
    tail: Atomic<Node<T>>,
}

impl<T> View for Queue<T> {
    type V = Seq<T>;

    /// The values, oldest first.
    closed spec fn view(&self) -> Seq<T> {
        contents(self.chain.nodes(), self.chain.order(), 1)
    }
}

impl<T> Queue<T> {
    /// The queue is at rest: see `queue_wf`.
    pub closed spec fn wf(&self) -> bool {
        queue_wf(&self.chain, self.tail@)
    }

    /// Whether the heap of the queue can take one more node.
    pub closed spec fn has_room(&self) -> bool {
        self.chain.has_room()
    }

    /// An empty queue: a sentinel and nothing behind it.
    pub fn new() -> (q: Self)
        ensures
            q.wf(),
            q@ == Seq::<T>::empty(),
    {
        let mut chain = Chain::new();
        let ghost c0 = chain;
        proof {
            lemma_zero::<Node<T>>(chain.frontier());
            lemma_tag_laws::<Node<T>>(chain.frontier(), 0);
        }
        let sentinel = Owned::new(Node::empty());
        let ptr = chain.adopt(sentinel);
        let null = chain.load_head(Ordering::Relaxed);
        let r = chain.cas_head_in(null, ptr, Ordering::Relaxed);
        let mut tail = Atomic::null();
        tail.store(ptr, Ordering::Relaxed);
        let q = Queue { chain: chain, tail: tail };
        proof {
            assert(q.chain.order() =~= seq![ptr.spec_as_raw()]);
            assert(q@ =~= Seq::<T>::empty());
            assert(link_ok(q.chain.nodes(), q.chain.order(), 0));
        }
        q
    }

    /// Ends the queue. Each node leaves the heap, once, from the sentinel
    /// on. What the sentinel holds is not looked at; the values that the
    /// queue still held are handed out, oldest first, for the caller to let
    /// go.
    pub fn drop(self) -> (values: Vec<T>)
        requires
            self.wf(),
        ensures
            values@ == self@,
    {
        self.chain.dissolve(1)
    }

    /// Tells whether the heap of the queue can take one more node.
    pub fn room(&self) -> (b: bool)
        ensures
            b == self.has_room(),
    {
        self.chain.room()
    }

    /// Puts `t` at the back of the queue.
    pub fn push(&mut self, t: T)
        requires
            old(self).wf(),
            old(self).has_room(),
        ensures
            final(self).wf(),
            final(self)@ == spec_push(old(self)@, t),
    {
        let node = Owned::new(Node::new(t));
        let new_node = self.chain.adopt(node);
        let ghost mid = self.chain;
        proof {
            lemma_zero::<Node<T>>(old(self).chain.frontier());
            lemma_tag_laws::<Node<T>>(old(self).chain.frontier(), 0);
            old(self).chain.lemma_addresses();
        }
        loop
            invariant
                old(self).wf(),
                self.chain == mid,
                self.tail == old(self).tail,
                mid.inv(),
                mid.order() == old(self).chain.order(),
                mid.first() == old(self).chain.first(),
                mid.nodes() == old(self).chain.nodes().insert(
                    new_node.spec_as_raw(),
                    (Node { data: Some(t), next: 0 }),
                ),
                !old(self).chain.nodes().contains_key(new_node.spec_as_raw()),
                mid.detached(new_node.spec_as_raw()),
                spec_tag::<Node<T>>(new_node@) == 0,
            decreases 0int,
        {
            let tail = self.tail.load(Ordering::Acquire);
            let ghost last = old(self).chain.order().len() - 1;
            proof {
                lemma_links(&old(self).chain, old(self).tail@, last);
                lemma_zero::<Node<T>>(0);
                assert(old(self).chain.order().contains(old(self).chain.order()[last]));
            }
            let next = self.chain.load_next(tail, Ordering::Acquire);
            if !next.is_null() {
                // The tail cell lags behind. Help it on.
                let _ = self.tail.compare_and_set(tail, next, Ordering::Release);
            } else {
                let succ = self.chain.cas_tail_in(tail, new_node, Ordering::Release).is_ok();
                if succ {
                    // Whether this succeeds or not, the node is linked in.
                    let _ = self.tail.compare_and_set(tail, new_node, Ordering::Release);
                    proof {
                        assert forall|k: int| 0 <= k < last implies self.chain.nodes()[#[trigger] old(self).chain.order()[k]] == old(self).chain.nodes()[old(self).chain.order()[k]] by {
                            lemma_links(&old(self).chain, old(self).tail@, k);
                        }
                        lemma_pushed(&old(self).chain, old(self).tail@, &self.chain, new_node@, t);
                    }
                    return ;
                }
            }
        }
    }

    /// Puts `t` at the back of the queue, by the steps of Michael and Scott:
    /// the tail cell is read again before the link of the last node is
    /// touched, and it is moved on only after the loop.
    pub fn enqueue(&mut self, t: T)
        requires
            old(self).wf(),
            old(self).has_room(),
        ensures
            final(self).wf(),
            final(self)@ == spec_push(old(self)@, t),
    {
        let node = self.chain.adopt(Owned::new(Node::new(t)));
        let ghost mid = self.chain;
        proof {
            lemma_zero::<Node<T>>(old(self).chain.frontier());
            lemma_tag_laws::<Node<T>>(old(self).chain.frontier(), 0);
            old(self).chain.lemma_addresses();
        }
        let mut tail = self.tail.load(Ordering::Acquire);
        loop
            invariant_except_break
                self.chain == mid,
            invariant
                old(self).wf(),
                self.tail == old(self).tail,
                mid.inv(),
                mid.order() == old(self).chain.order(),
                mid.first() == old(self).chain.first(),
                mid.nodes() == old(self).chain.nodes().insert(
                    node.spec_as_raw(),
                    (Node { data: Some(t), next: 0 }),
                ),
                !old(self).chain.nodes().contains_key(node.spec_as_raw()),
                mid.detached(node.spec_as_raw()),
                spec_tag::<Node<T>>(node@) == 0,
            ensures
                tail@ == old(self).tail@,
                self.chain.inv(),
                self.chain.first() == mid.first(),
                self.chain.order() == mid.order().push(node.spec_as_raw()),
                self.chain.nodes() == mid.nodes().insert(
                    mid.order().last(),
                    crate::chain::relinked(mid.nodes()[mid.order().last()], node@),
                ),
            decreases 0int,
        {
            tail = self.tail.load(Ordering::Acquire);
            let ghost last = old(self).chain.order().len() - 1;
            proof {
                lemma_links(&old(self).chain, old(self).tail@, last);
                lemma_zero::<Node<T>>(0);
                assert(old(self).chain.order().contains(old(self).chain.order()[last]));
            }
            let next = self.chain.load_next(tail, Ordering::Acquire);
            if tail.word() == self.tail.load(Ordering::Acquire).word() {
                if next.is_null() {
                    let ret = self.chain.cas_tail_in(tail, node, Ordering::Release);
                    if ret.is_ok() {
                        break ;
                    }
                } else {
                    let _ = self.tail.compare_and_set(tail, next, Ordering::Release);
                }
            }
        }
        let _ = self.tail.compare_and_set(tail, node, Ordering::Release);
        proof {
            let last = old(self).chain.order().len() - 1;
            lemma_links(&old(self).chain, old(self).tail@, last);
            assert forall|k: int| 0 <= k < last implies self.chain.nodes()[#[trigger] old(self).chain.order()[k]] == old(self).chain.nodes()[old(self).chain.order()[k]] by {
                lemma_links(&old(self).chain, old(self).tail@, k);
            }
            lemma_pushed(&old(self).chain, old(self).tail@, &self.chain, node@, t);
        }
    }

    /// Takes the oldest value off the queue.
    pub fn pop(&mut self) -> (r: Option<T>)
        requires
            old(self).wf(),
        ensures
            final(self).wf(),
            r == spec_pop(old(self)@).0,
            final(self)@ == spec_pop(old(self)@).1,
    {
        let head = self.chain.load_head(Ordering::Acquire);
        proof {
            lemma_links(&self.chain, self.tail@, 0);
            if self.chain.order().len() > 1 {
                lemma_links(&self.chain, self.tail@, 1);
            }
        }
        let next = self.chain.load_next(head, Ordering::Acquire);
        if next.is_null() {
            None
        } else {
            match self.chain.cas_out(None, head, next, Ordering::Release, Ghost(0)) {
                Ok(_) => {
                    let data = self.chain.take_data(next);
                    proof {
                        assert forall|k: int| 2 <= k < old(self).chain.order().len() implies self.chain.nodes()[#[trigger] old(self).chain.order()[k]] == old(self).chain.nodes()[old(self).chain.order()[k]] by {
                            lemma_links(&old(self).chain, old(self).tail@, k);
                        }
                        lemma_popped(&old(self).chain, old(self).tail@, &self.chain);
                    }
                    data
                },
                Err(_) => None,
            }
        }
    }

    /// Tells whether the queue holds no value.
    pub fn is_empty(&self) -> (b: bool)
        requires
            self.wf(),
        ensures
            b == (self@.len() == 0),
    {
        let head = self.chain.load_head(Ordering::Acquire);
        proof {
            lemma_links(&self.chain, self.tail@, 0);
            if self.chain.order().len() > 1 {
                lemma_links(&self.chain, self.tail@, 1);
            }
        }
        self.chain.load_next(head, Ordering::Acquire).is_null()
    }

    /// Counts the values in the queue.
    pub fn len(&self) -> (n: usize)
        requires
            self.wf(),
        ensures
            n == self@.len(),
    {
        let mut len: usize = 0;
        let cap = self.chain.allocated();
        let mut node = self.chain.load_head(Ordering::Acquire);
        let ghost mut i: int = 0;
        proof {
            self.chain.lemma_order_bound();
            lemma_links(&self.chain, self.tail@, 0);
        }
        let mut next = self.chain.load_next(node, Ordering::Relaxed);
        while !next.is_null()
            invariant
                self.wf(),
                0 <= i < self.chain.order().len(),
                self.chain.order().len() <= cap,
                len == i,
                node.spec_as_raw() == self.chain.order()[i],
                next@ == self.chain.nodes()[self.chain.order()[i]].next,
            decreases self.chain.order().len() - i,
        {
            proof {
                lemma_links(&self.chain, self.tail@, i);
                if i + 1 < self.chain.order().len() {
                    lemma_links(&self.chain, self.tail@, i + 1);
                }
            }
            node = next;
            len += 1;
            next = self.chain.load_next(node, Ordering::Relaxed);
            proof {
                i = i + 1;
            }
        }
        proof {
            lemma_links(&self.chain, self.tail@, i);
            if i + 1 < self.chain.order().len() {
                lemma_links(&self.chain, self.tail@, i + 1);
            }
        }
        len
    }
}

} // verus!
