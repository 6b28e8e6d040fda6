//! A Michael-Scott queue whose nodes are reclaimed through hazard pointers.
use vstd::prelude::*;
use vstd::multiset::Multiset;
use std::sync::atomic::Ordering;
use crate::chain::{Chain, contents, link_ok};
use crate::list_model::compact;
use crate::queue_model::{queue_wf, spec_push, spec_pop, lemma_links, lemma_pushed, lemma_popped};
use crate::hp::atomic::{Atomic, Owned, Ptr, spec_tag, lemma_zero, lemma_tag_laws};
use crate::hp::{Registry, free_slots};

pub use crate::node::Node;

verus! {

/// A queue of values. A thread that works on the queue publishes the nodes
/// it stands on in its hazard slots, and the sentinel that a pop links out is
/// retired to the registry.
pub struct Queue<T> {
    chain: Chain<T>,
    tail: Atomic<Node<T>>,
}

impl<T> View for Queue<T> {
    type V = Seq<T>;

    /// The values, oldest first.
    closed spec fn view(&self) -> Seq<T> {
        contents(self.chain.nodes(), self.chain.order(), 1)
    }
}

impl<T> Queue<T> {
    /// The queue is at rest, and the heap holds no node but the linked ones.
    pub closed spec fn wf(&self) -> bool {
        &&& queue_wf(&self.chain, self.tail@)
        &&& compact(&self.chain)
    }

    /// Whether the heap of the queue can take one more node.
    pub closed spec fn has_room(&self) -> bool {
        self.chain.has_room()
    }

    /// The addresses of the nodes: the sentinel first, then the nodes of the
    /// values, oldest first.
    pub closed spec fn addresses(&self) -> Seq<usize> {
        self.chain.order()
    }

    /// A queue always has its sentinel.
    pub proof fn lemma_sentinel(&self)
        requires
            self.wf(),
        ensures
            self.addresses().len() == self@.len() + 1,
    {
    }

    /// An empty queue: a sentinel and nothing behind it.
    pub fn new() -> (q: Self)
        ensures
            q.wf(),
            q@ == Seq::<T>::empty(),
    {
        let mut chain = Chain::new();
        proof {
            lemma_zero::<Node<T>>(chain.frontier());
            lemma_tag_laws::<Node<T>>(chain.frontier(), 0);
        }
        let sentinel = Owned::new(Node::empty());
        let ptr = chain.adopt(sentinel);
        let null = chain.load_head(Ordering::SeqCst);
        let r = chain.cas_head_in(null, ptr, Ordering::SeqCst);
        let mut tail = Atomic::null();
        tail.store(ptr, Ordering::SeqCst);
        let q = Queue { chain: chain, tail: tail };
        proof {
            assert(q.chain.order() =~= seq![ptr.spec_as_raw()]);
            assert(q@ =~= Seq::<T>::empty());
            assert(link_ok(q.chain.nodes(), q.chain.order(), 0));
            assert forall|a: usize| #[trigger] q.chain.nodes().contains_key(a) implies q.chain.order().contains(
                a,
            ) by {
                assert(q.chain.order()[0] == a);
            }
        }
        q
    }

    /// Ends the queue. Each node leaves the heap, once, from the sentinel
    /// on. What the sentinel holds is not looked at; the values that the
    /// queue still held are handed out, oldest first, for the caller to let
    /// go.
    pub fn drop(self) -> (values: Vec<T>)
        requires
            self.wf(),
        ensures
            values@ == self@,
    {
        self.chain.dissolve(1)
    }

    /// Tells whether the heap of the queue can take one more node.
    pub fn room(&self) -> (b: bool)
        ensures
            b == self.has_room(),
    {
        self.chain.room()
    }

    /// Puts `t` at the back of the queue.
    pub fn push(&mut self, t: T, reg: &mut Registry<Node<T>>, thread: usize)
        requires
            old(self).wf(),
            old(self).has_room(),
            old(reg).wf(),
            old(reg).registered(thread),
            free_slots(old(reg).slots(thread)) >= 1,
        ensures
            final(self).wf(),
            final(self)@ == spec_push(old(self)@, t),
            final(reg).restored(old(reg), thread),
            final(reg).same_garbage(old(reg), thread),
    {
        let node = Owned::new(Node::new(t));
        let new_node = self.chain.adopt(node);
        let ghost mid = self.chain;
        proof {
            lemma_zero::<Node<T>>(old(self).chain.frontier());
            lemma_tag_laws::<Node<T>>(old(self).chain.frontier(), 0);
            old(self).chain.lemma_addresses();
            reg.lemma_loan_start(thread);
        }
        loop
            invariant
                old(self).wf(),
                self.chain == mid,
                self.tail == old(self).tail,
                mid.inv(),
                mid.order() == old(self).chain.order(),
                mid.first() == old(self).chain.first(),
                mid.nodes() == old(self).chain.nodes().insert(
                    new_node.spec_as_raw(),
                    (Node { data: Some(t), next: 0 }),
                ),
                !old(self).chain.nodes().contains_key(new_node.spec_as_raw()),
                mid.detached(new_node.spec_as_raw()),
                spec_tag::<Node<T>>(new_node@) == 0,
                reg.on_loan(old(reg), thread, Multiset::empty()),
                free_slots(old(reg).slots(thread)) >= 1,
            decreases 0int,
        {
            let tail: Ptr<Node<T>> = self.tail.load(Ordering::SeqCst);
            proof {
                reg.lemma_loan_room(old(reg), thread, Multiset::empty());
            }
            let ghost r0 = *reg;
            let tail_hp = tail.hazard(reg, thread);
            let ghost h = tail_hp@;
            proof {
                reg.lemma_loan_protect(&r0, old(reg), thread, Multiset::empty(), h);
            }
            if self.tail.load(Ordering::SeqCst).word() != tail.word() {
                tail_hp.release(reg, thread);
                continue ;
            }
            let ghost last = old(self).chain.order().len() - 1;
            proof {
                lemma_links(&old(self).chain, old(self).tail@, last);
                lemma_zero::<Node<T>>(0);
                assert(old(self).chain.order().contains(old(self).chain.order()[last]));
            }
            let next = self.chain.load_next(tail, Ordering::SeqCst);
            if !next.is_null() {
                // The tail cell lags behind. Help it on.
                let _ = self.tail.compare_and_set(tail, next, Ordering::SeqCst);
                tail_hp.release(reg, thread);
            } else {
                let succ = self.chain.cas_tail_in(tail, new_node, Ordering::SeqCst).is_ok();
                if succ {
                    // Whether this succeeds or not, the node is linked in.
                    let _ = self.tail.compare_and_set(tail, new_node, Ordering::SeqCst);
                    let ghost r1 = *reg;
                    tail_hp.release(reg, thread);
                    proof {
                        reg.lemma_loan_release(&r1, old(reg), thread, Multiset::empty().insert(h), h);
                        assert(Multiset::<usize>::empty().insert(h).remove(h) =~= Multiset::empty());
                        reg.lemma_loan_done(old(reg), thread);
                        assert forall|k: int| 0 <= k < last implies self.chain.nodes()[#[trigger] old(self).chain.order()[k]] == old(self).chain.nodes()[old(self).chain.order()[k]] by {
                            lemma_links(&old(self).chain, old(self).tail@, k);
                        }
                        lemma_pushed(&old(self).chain, old(self).tail@, &self.chain, new_node@, t);
                        assert forall|a: usize| #[trigger]
                            self.chain.nodes().contains_key(a) implies self.chain.order().contains(
                            a,
                        ) by {
                            if a == new_node.spec_as_raw() {
                                assert(self.chain.order()[last + 1] == a);
                            } else {
                                assert(old(self).chain.nodes().contains_key(a));
                                let k = choose|k: int|
                                    0 <= k < old(self).chain.order().len() && old(self).chain.order()[k] == a;
                                assert(self.chain.order()[k] == a);
                            }
                        }
                    }
                    return ;
                }
                tail_hp.release(reg, thread);
            }
        }
    }

    /// Takes the oldest value off the queue. The sentinel is retired, and the
    /// node of the value is the sentinel from then on.
    pub fn pop(&mut self, reg: &mut Registry<Node<T>>, thread: usize) -> (r: Option<T>)
        requires
            old(self).wf(),
            old(reg).wf(),
            old(reg).registered(thread),
            free_slots(old(reg).slots(thread)) >= 2,
        ensures
            final(self).wf(),
            r == spec_pop(old(self)@).0,
            final(self)@ == spec_pop(old(self)@).1,
            final(reg).restored(old(reg), thread),
            r is None ==> final(reg).same_garbage(old(reg), thread),
            r is Some ==> final(reg).retired_one(
                old(reg),
                thread,
                old(self).addresses()[0],
                old(reg).hazards(),
            ),
    {
        self.pop_hp_fn(false, reg, thread)
    }

    /// Takes the oldest value off the queue. With `wait`, the sentinel is
    /// freed on the spot, once no slot holds its address; without, it is
    /// retired.
    pub fn pop_hp_fn(&mut self, wait: bool, reg: &mut Registry<Node<T>>, thread: usize) -> (r:
        Option<T>)
        requires
            old(self).wf(),
            old(reg).wf(),
            old(reg).registered(thread),
            free_slots(old(reg).slots(thread)) >= 2,
            wait && old(self)@.len() > 0 ==> !old(reg).hazardous(old(self).addresses()[0]),
        ensures
            final(self).wf(),
            r == spec_pop(old(self)@).0,
            final(self)@ == spec_pop(old(self)@).1,
            final(reg).restored(old(reg), thread),
            r is None || wait ==> final(reg).same_garbage(old(reg), thread),
            r is Some && !wait ==> final(reg).retired_one(
                old(reg),
                thread,
                old(self).addresses()[0],
                old(reg).hazards(),
            ),
    {
        proof {
            reg.lemma_loan_start(thread);
        }
        loop
            invariant
                old(self).wf(),
                *self == *old(self),
                reg.on_loan(old(reg), thread, Multiset::empty()),
                free_slots(old(reg).slots(thread)) >= 2,
                wait && old(self)@.len() > 0 ==> !old(reg).hazardous(old(self).addresses()[0]),
            decreases 0int,
        {
            let head: Ptr<Node<T>> = self.chain.load_head(Ordering::SeqCst);
            proof {
                lemma_links(&self.chain, self.tail@, 0);
                if self.chain.order().len() > 1 {
                    lemma_links(&self.chain, self.tail@, 1);
                }
                lemma_tag_laws::<Node<T>>(head@, 0);
                reg.lemma_loan_room(old(reg), thread, Multiset::empty());
            }
            let ghost r0 = *reg;
            let head_hp = head.hazard(reg, thread);
            let ghost h = head_hp@;
            proof {
                reg.lemma_loan_protect(&r0, old(reg), thread, Multiset::empty(), h);
            }
            if self.chain.load_head(Ordering::SeqCst).word() != head.word() {
                // The head has changed since it was read. Start again.
                head_hp.release(reg, thread);
                continue ;
            }
            let next: Ptr<Node<T>> = self.chain.load_next(head, Ordering::SeqCst);
            if next.is_null() {
                let ghost r1 = *reg;
                head_hp.release(reg, thread);
                proof {
                    reg.lemma_loan_release(&r1, old(reg), thread, Multiset::empty().insert(h), h);
                    assert(Multiset::<usize>::empty().insert(h).remove(h) =~= Multiset::empty());
                    reg.lemma_loan_done(old(reg), thread);
                }
                return None;
            }
            proof {
                reg.lemma_loan_room(old(reg), thread, Multiset::empty().insert(h));
            }
            let ghost r1 = *reg;
            let next_hp = next.hazard(reg, thread);
            let ghost n = next_hp@;
            proof {
                reg.lemma_loan_protect(&r1, old(reg), thread, Multiset::empty().insert(h), n);
            }
            if self.chain.load_next(head, Ordering::SeqCst).word() != next.word() {
                next_hp.release(reg, thread);
                head_hp.release(reg, thread);
                continue ;
            }
            let res = self.chain.cas_out(None, head, next, Ordering::SeqCst, Ghost(0));
            match res {
                Ok(()) => {
                    // The value comes from the node behind the old sentinel,
                    // which is the sentinel from now on.
                    let ret = self.chain.take_data(next);
                    let ghost r2 = *reg;
                    next_hp.release(reg, thread);
                    proof {
                        reg.lemma_loan_release(
                            &r2,
                            old(reg),
                            thread,
                            Multiset::empty().insert(h).insert(n),
                            n,
                        );
                        assert(Multiset::<usize>::empty().insert(h).insert(n).remove(n)
                            =~= Multiset::empty().insert(h));
                    }
                    let ghost r3 = *reg;
                    if wait {
                        proof {
                            crate::hp::lemma_lent_release(
                                r3.slots(thread),
                                old(reg).slots(thread),
                                Multiset::empty().insert(h),
                                h,
                            );
                            assert(Multiset::<usize>::empty().insert(h).remove(h)
                                =~= Multiset::empty());
                            crate::hp::lemma_lent_done(
                                crate::hp::spec_release(r3.slots(thread), h),
                                old(reg).slots(thread),
                            );
                            self.lemma_unclaimed(&r3, old(reg), thread, h);
                        }
                        head_hp.spin(reg, thread);
                        let _ = self.chain.evict(head);
                    } else {
                        self.chain.free_hazard(head_hp, reg, thread);
                        proof {
                            crate::hp::lemma_lent_release(
                                r3.slots(thread),
                                old(reg).slots(thread),
                                Multiset::empty().insert(h),
                                h,
                            );
                            assert(Multiset::<usize>::empty().insert(h).remove(h)
                                =~= Multiset::empty());
                        }
                    }
                    proof {
                        reg.lemma_loan_done(old(reg), thread);
                        assert forall|k: int|
                            2 <= k < old(self).chain.order().len() implies self.chain.nodes()[#[trigger] old(self).chain.order()[k]] == old(self).chain.nodes()[old(self).chain.order()[k]] by {
                            lemma_links(&old(self).chain, old(self).tail@, k);
                        }
                        lemma_popped(&old(self).chain, old(self).tail@, &self.chain);
                        let o1 = old(self).chain.order();
                        let o2 = self.chain.order();
                        assert forall|a: usize| #[trigger]
                            self.chain.nodes().contains_key(a) implies o2.contains(a) by {
                            assert(old(self).chain.nodes().contains_key(a));
                            let k = choose|k: int| 0 <= k < o1.len() && o1[k] == a;
                            assert(o2[k - 1] == a);
                        }
                    }
                    return ret;
                },
                Err(_) => {
                    next_hp.release(reg, thread);
                    head_hp.release(reg, thread);
                },
            }
        }
    }

    /// Where no slot held `h` before the thread claimed it, the claim of the
    /// thread is the only one.
    proof fn lemma_unclaimed(
        &self,
        now: &Registry<Node<T>>,
        prev: &Registry<Node<T>>,
        thread: usize,
        h: usize,
    )
        requires
            now.on_loan(prev, thread, Multiset::empty().insert(h)),
            !prev.hazardous(h),
            h != 0,
        ensures
            crate::hp::first_index(now.slots(thread), h, 0) < crate::hp::NUM_HP,
            !crate::hp::spec_release(now.slots(thread), h).contains(h),
            forall|t: usize|
                t != thread && #[trigger] now.registered(t) ==> !now.slots(t).contains(h),
    {
        broadcast use vstd::seq_lib::group_to_multiset_ensures;

        let s1 = now.slots(thread);
        let s2 = prev.slots(thread);
        let lent_out = Multiset::<usize>::empty().insert(h);
        assert(s1.to_multiset().count(h) + (if h == 0 {
            lent_out.len()
        } else {
            0
        }) == s2.to_multiset().count(h) + lent_out.count(h));
        assert(crate::hp::has_entry(prev.entries(), thread));
        if s2.contains(h) {
            assert(crate::hp::held(prev.entries(), h));
        }
        assert(s1.contains(h));
        crate::hp::lemma_release(s1, h);
        assert(crate::hp::spec_release(s1, h).to_multiset().count(h) == 0);
        assert forall|t: usize| t != thread && #[trigger] now.registered(t) implies !now.slots(
            t,
        ).contains(h) by {
            if now.slots(t).contains(h) {
                assert(crate::hp::has_entry(prev.entries(), t));
                assert(prev.slots(t).contains(h));
                assert(crate::hp::held(prev.entries(), h));
            }
        }
    }

    /// Tells whether the queue holds no value.
    pub fn is_empty(&self) -> (b: bool)
        requires
            self.wf(),
        ensures
            b == (self@.len() == 0),
    {
        let head = self.chain.load_head(Ordering::SeqCst);
        proof {
            lemma_links(&self.chain, self.tail@, 0);
            if self.chain.order().len() > 1 {
                lemma_links(&self.chain, self.tail@, 1);
            }
        }
        self.chain.load_next(head, Ordering::SeqCst).is_null()
    }

    /// Counts the values in the queue.
    pub fn len(&self) -> (n: usize)
        requires
            self.wf(),
        ensures
            n == self@.len(),
    {
        let mut len: usize = 0;
        let cap = self.chain.allocated();
        let mut node = self.chain.load_head(Ordering::SeqCst);
        let ghost mut i: int = 0;
        proof {
            self.chain.lemma_order_bound();
            lemma_links(&self.chain, self.tail@, 0);
        }
        let mut next = self.chain.load_next(node, Ordering::SeqCst);
        while !next.is_null()
            invariant
                self.wf(),
                0 <= i < self.chain.order().len(),
                self.chain.order().len() <= cap,
                len == i,
                node.spec_as_raw() == self.chain.order()[i],
                next@ == self.chain.nodes()[self.chain.order()[i]].next,
            decreases self.chain.order().len() - i,
        {
            proof {
                lemma_links(&self.chain, self.tail@, i);
                if i + 1 < self.chain.order().len() {
                    lemma_links(&self.chain, self.tail@, i + 1);
                }
            }
            node = next;
            len += 1;
            next = self.chain.load_next(node, Ordering::SeqCst);
            proof {
                i = i + 1;
            }
        }
        proof {
            lemma_links(&self.chain, self.tail@, i);
            if i + 1 < self.chain.order().len() {
                lemma_links(&self.chain, self.tail@, i + 1);
            }
        }
        len
    }
}

} // verus!
