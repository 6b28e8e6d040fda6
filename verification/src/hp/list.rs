//! A linked list whose nodes are reclaimed through hazard pointers.
use vstd::prelude::*;
use vstd::multiset::Multiset;
use std::sync::atomic::Ordering;
use crate::chain::{Chain, link_ok, first_match, target};
use crate::list_model::{list_wf, compact, list_view, lemma_list_out, lemma_list_in, lemma_list_at};
use crate::hp::atomic::{Owned, Ptr, HazardPtr, spec_tag, spec_raw, lemma_zero, lemma_tag_laws};
use crate::hp::{
    Registry, free_slots, first_index, spec_protect, spec_release, lemma_protect, lemma_release,
    lemma_free_slot, NUM_HP,
};
use vstd::std_specs::cmp::PartialEqSpec;

pub use crate::node::Node;

verus! {

/// A list of values. New values go to the front. A thread that works on the
/// list publishes the nodes it stands on in its hazard slots, and a node that
/// was removed is retired to the registry.
pub struct List<T> {
    chain: Chain<T>,
}

impl<T> View for List<T> {
    type V = Seq<T>;

    /// The values, from the front on.
    closed spec fn view(&self) -> Seq<T> {
        list_view(&self.chain)
    }
}

impl<T> List<T> {
    /// The nodes are linked from the head, each holds a value, no link
    /// carries a mark, and the heap holds no other node.
    pub closed spec fn wf(&self) -> bool {
        &&& list_wf(&self.chain)
        &&& compact(&self.chain)
    }

    /// Whether the heap of the list can take one more node.
    pub closed spec fn has_room(&self) -> bool {
        self.chain.has_room()
    }

    /// The addresses of the nodes, from the front on.
    pub closed spec fn addresses(&self) -> Seq<usize> {
        self.chain.order()
    }

    /// An empty list.
    pub fn new() -> (list: Self)
        ensures
            list.wf(),
            list.has_room(),
            list@ == Seq::<T>::empty(),
    {
        proof {
            lemma_zero::<Node<T>>(0);
        }
        let list = List { chain: Chain::new() };
        assert(list@ =~= Seq::<T>::empty());
        list
    }

    /// Ends the list. Each node leaves the heap, once, from the head on, and
    /// the values that the list still held are handed out, the first of the
    /// list first, for the caller to let go.
    pub fn drop(self) -> (values: Vec<T>)
        requires
            self.wf(),
        ensures
            values@ == self@,
    {
        self.chain.dissolve(0)
    }

    /// Tells whether the heap of the list can take one more node.
    pub fn room(&self) -> (b: bool)
        ensures
            b == self.has_room(),
    {
        self.chain.room()
    }

    /// Puts `data` at the front of the list.
    pub fn insert(&mut self, data: T, reg: &mut Registry<Node<T>>, thread: usize)
        requires
            old(self).wf(),
            old(self).has_room(),
            old(reg).wf(),
            old(reg).registered(thread),
            free_slots(old(reg).slots(thread)) >= 1,
        ensures
            final(self).wf(),
            final(self)@ == seq![data] + old(self)@,
            final(reg).restored(old(reg), thread),
            final(reg).same_garbage(old(reg), thread),
    {
        let curr_ptr: Owned<Node<T>> = Owned::new(Node::new(data));
        proof {
            lemma_zero::<Node<T>>(0);
        }
        self.insert_owned(curr_ptr, reg, thread)
    }

    /// Links the node of `curr_ptr` in at the front of the list.
    pub fn insert_owned(
        &mut self,
        curr_ptr: Owned<Node<T>>,
        reg: &mut Registry<Node<T>>,
        thread: usize,
    )
        requires
            old(self).wf(),
            old(self).has_room(),
            curr_ptr.value.data is Some,
            spec_tag::<Node<T>>(curr_ptr.data) == 0,
            old(reg).wf(),
            old(reg).registered(thread),
            free_slots(old(reg).slots(thread)) >= 1,
        ensures
            final(self).wf(),
            final(self)@ == seq![curr_ptr.value.data->0] + old(self)@,
            final(reg).restored(old(reg), thread),
            final(reg).same_garbage(old(reg), thread),
    {
        let ghost data = curr_ptr.value.data->0;
        let node_ptr = self.chain.adopt(curr_ptr);
        let mut head = self.chain.load_head(Ordering::SeqCst);
        let ghost mid = self.chain;
        proof {
            lemma_zero::<Node<T>>(old(self).chain.frontier());
            lemma_tag_laws::<Node<T>>(old(self).chain.frontier(), 0);
            lemma_tag_laws::<Node<T>>(old(self).chain.frontier(), node_ptr@);
            self.chain.lemma_addresses();
            reg.lemma_loan_start(thread);
        }
        loop
            invariant
                old(self).wf(),
                self.chain.inv(),
                self.chain.order() == old(self).chain.order(),
                self.chain.first() == old(self).chain.first(),
                head@ == self.chain.first(),
                node_ptr.spec_as_raw() == old(self).chain.frontier(),
                spec_tag::<Node<T>>(node_ptr@) == 0,
                self.chain.detached(node_ptr.spec_as_raw()),
                !old(self).chain.nodes().contains_key(node_ptr.spec_as_raw()),
                self.chain.nodes().dom() =~= mid.nodes().dom(),
                mid.nodes().dom() =~= old(self).chain.nodes().dom().insert(node_ptr.spec_as_raw()),
                forall|a: usize|
                    a != node_ptr.spec_as_raw() && #[trigger] old(self).chain.nodes().contains_key(a)
                        ==> self.chain.nodes()[a] == old(self).chain.nodes()[a],
                self.chain.nodes()[node_ptr.spec_as_raw()].data == Some(data),
                data == curr_ptr.value.data->0,
                reg.on_loan(old(reg), thread, Multiset::empty()),
                free_slots(old(reg).slots(thread)) >= 1,
            decreases 0int,
        {
            proof {
                reg.lemma_loan_room(old(reg), thread, Multiset::empty());
            }
            let ghost before = *reg;
            let head_hp = head.hazard(reg, thread);
            proof {
                reg.lemma_loan_protect(&before, old(reg), thread, Multiset::empty(), head_hp@);
            }
            if self.chain.load_head(Ordering::SeqCst).word() != head.word() {
                head_hp.release(reg, thread);
                head = self.chain.load_head(Ordering::SeqCst);
                continue ;
            }
            self.chain.store_next(node_ptr, head, Ordering::SeqCst);
            let res = self.chain.cas_head_in(head, node_ptr, Ordering::SeqCst);
            match res {
                Ok(_) => {
                    let ghost before = *reg;
                    head_hp.release(reg, thread);
                    proof {
                        reg.lemma_loan_release(
                            &before,
                            old(reg),
                            thread,
                            Multiset::empty().insert(head_hp@),
                            head_hp@,
                        );
                        assert(Multiset::<usize>::empty().insert(head_hp@).remove(head_hp@)
                            =~= Multiset::empty());
                        reg.lemma_loan_done(old(reg), thread);
                        assert forall|k: int|
                            0 <= k < old(self).chain.order().len() implies self.chain.nodes()[#[trigger] old(self).chain.order()[k]] == old(self).chain.nodes()[old(self).chain.order()[k]] by {
                            assert(link_ok(
                                old(self).chain.nodes(),
                                old(self).chain.order(),
                                k,
                            ));
                        }
                        lemma_list_in(&old(self).chain, &self.chain, node_ptr@, data);
                        assert forall|a: usize| #[trigger]
                            self.chain.nodes().contains_key(a) implies self.chain.order().contains(
                            a,
                        ) by {
                            if a == node_ptr.spec_as_raw() {
                                assert(self.chain.order()[0] == a);
                            } else {
                                assert(old(self).chain.nodes().contains_key(a));
                                let k = choose|k: int|
                                    0 <= k < old(self).chain.order().len() && old(self).chain.order()[k] == a;
                                assert(self.chain.order()[k + 1] == a);
                            }
                        }
                    }
                    return ;
                },
                Err(new_head) => {
                    head = new_head;
                    head_hp.release(reg, thread);
                },
            }
        }
    }

    /// Tells whether the list holds no value.
    pub fn is_empty(&self) -> (b: bool)
        requires
            self.wf(),
        ensures
            b == (self@.len() == 0),
    {
        let head = self.chain.load_head(Ordering::SeqCst);
        proof {
            if self.chain.order().len() > 0 {
                assert(link_ok(self.chain.nodes(), self.chain.order(), 0));
            }
        }
        head.is_null()
    }

    /// The list is at rest again once the node at index `i` was marked,
    /// linked out, emptied and retired, and it has lost the value of that
    /// node and no other.
    proof fn lemma_removed(&self, prev: &Self, i: int)
        requires
            prev.wf(),
            self.chain.inv(),
            0 <= i < prev.chain.order().len(),
            self.chain.order() == prev.chain.order().remove(i),
            spec_tag::<Node<T>>(self.chain.first()) == 0,
            self.chain.nodes().dom() =~= prev.chain.nodes().dom().remove(prev.chain.order()[i]),
            forall|k: int|
                0 <= k < prev.chain.order().len() && k != i && k != i - 1
                    ==> self.chain.nodes()[#[trigger] prev.chain.order()[k]]
                    == prev.chain.nodes()[prev.chain.order()[k]],
            i > 0 ==> self.chain.nodes()[prev.chain.order()[i - 1]].data
                == prev.chain.nodes()[prev.chain.order()[i - 1]].data && spec_tag::<Node<T>>(
                self.chain.nodes()[prev.chain.order()[i - 1]].next,
            ) == 0,
        ensures
            self.wf(),
            self@ == prev@.remove(i),
            prev.chain.nodes()[prev.chain.order()[i]].data == Some(prev@[i]),
    {
        lemma_list_out(&prev.chain, &self.chain, i);
        let o1 = prev.chain.order();
        let o2 = self.chain.order();
        assert forall|a: usize| #[trigger] self.chain.nodes().contains_key(a) implies o2.contains(
            a,
        ) by {
            assert(prev.chain.nodes().contains_key(a));
            let k = choose|k: int| 0 <= k < o1.len() && o1[k] == a;
            if k < i {
                assert(o2[k] == a);
            } else {
                assert(o2[k - 1] == a);
            }
        }
    }

    /// Takes the first value off the list. Its node is retired.
    pub fn remove_front(&mut self, reg: &mut Registry<Node<T>>, thread: usize) -> (r: Option<T>)
        requires
            old(self).wf(),
            old(reg).wf(),
            old(reg).registered(thread),
            free_slots(old(reg).slots(thread)) >= 2,
        ensures
            final(self).wf(),
            final(reg).restored(old(reg), thread),
            old(self)@.len() == 0 ==> r is None && final(self)@ == old(self)@ && final(reg).same_garbage(old(reg), thread),
            old(self)@.len() > 0 ==> r == Some(old(self)@[0]) && final(self)@ == old(self)@.drop_first() && final(reg).retired_one(
                old(reg),
                thread,
                old(self).addresses()[0],
                old(reg).hazards(),
            ),
    {
        proof {
            reg.lemma_loan_start(thread);
        }
        loop
            invariant
                old(self).wf(),
                *self == *old(self),
                reg.on_loan(old(reg), thread, Multiset::empty()),
                free_slots(old(reg).slots(thread)) >= 2,
            decreases 0int,
        {
            let mut head_ptr: Ptr<Node<T>> = self.chain.load_head(Ordering::SeqCst);
            loop
                invariant
                    old(self).wf(),
                    *self == *old(self),
                    head_ptr@ == self.chain.first(),
                    reg.on_loan(old(reg), thread, Multiset::empty()),
                    free_slots(old(reg).slots(thread)) >= 2,
                ensures
                    head_ptr@ != self.chain.first(),
                decreases 0int,
            {
                proof {
                    if self.chain.order().len() > 0 {
                        lemma_list_at(&self.chain, 0);
                    }
                    lemma_tag_laws::<Node<T>>(head_ptr@, 0);
                    lemma_zero::<Node<T>>(head_ptr@);
                }
                if head_ptr.is_null() {
                    proof {
                        reg.lemma_loan_done(old(reg), thread);
                    }
                    return None;
                }
                proof {
                    reg.lemma_loan_room(old(reg), thread, Multiset::empty());
                }
                let ghost r0 = *reg;
                let head_hp = head_ptr.hazard(reg, thread);
                let ghost h = head_hp@;
                proof {
                    reg.lemma_loan_protect(&r0, old(reg), thread, Multiset::empty(), h);
                }
                if self.chain.load_head(Ordering::SeqCst).word() != head_ptr.word() {
                    head_hp.release(reg, thread);
                    break ;
                }
                let next = self.chain.load_next(head_ptr, Ordering::SeqCst);
                if next.tag() != 0 {
                    head_hp.release(reg, thread);
                    break ;
                }
                proof {
                    reg.lemma_loan_room(old(reg), thread, Multiset::empty().insert(h));
                }
                let ghost r1 = *reg;
                let next_hp = next.hazard(reg, thread);
                let ghost n = next_hp@;
                proof {
                    reg.lemma_loan_protect(&r1, old(reg), thread, Multiset::empty().insert(h), n);
                }
                if self.chain.load_next(head_ptr, Ordering::SeqCst).word() != next.word() {
                    next_hp.release(reg, thread);
                    head_hp.release(reg, thread);
                    break ;
                }
                // Mark the node, so that nothing is linked in behind it while
                // it is linked out.
                let tag_res = self.chain.cas_next_tag(
                    head_ptr,
                    next,
                    next.with_tag(1),
                    Ordering::SeqCst,
                );
                if tag_res.is_err() {
                    next_hp.release(reg, thread);
                    head_hp.release(reg, thread);
                    break ;
                }
                match self.chain.cas_out(None, head_ptr, next, Ordering::SeqCst, Ghost(0)) {
                    Ok(()) => {
                        let data = self.chain.take_data(head_ptr);
                        let ghost r2 = *reg;
                        next_hp.release(reg, thread);
                        proof {
                            reg.lemma_loan_release(
                                &r2,
                                old(reg),
                                thread,
                                Multiset::empty().insert(h).insert(n),
                                n,
                            );
                            assert(Multiset::<usize>::empty().insert(h).insert(n).remove(n)
                                =~= Multiset::empty().insert(h));
                        }
                        let ghost r3 = *reg;
                        self.chain.free_hazard(head_hp, reg, thread);
                        proof {
                            crate::hp::lemma_lent_release(
                                r3.slots(thread),
                                old(reg).slots(thread),
                                Multiset::empty().insert(h),
                                h,
                            );
                            assert(Multiset::<usize>::empty().insert(h).remove(h)
                                =~= Multiset::empty());
                            reg.lemma_loan_done(old(reg), thread);
                            self.lemma_removed(old(self), 0);
                            assert(self@ =~= old(self)@.drop_first());
                        }
                        return data;
                    },
                    Err(new_head) => {
                        // A node was linked in before this one. Take the mark
                        // back and go on from the new head.
                        let _res = self.chain.cas_next_tag(
                            head_ptr,
                            next.with_tag(1),
                            next,
                            Ordering::SeqCst,
                        );
                        next_hp.release(reg, thread);
                        head_hp.release(reg, thread);
                        head_ptr = new_head;
                    },
                }
            }
        }
    }
}

/// The address that a thread still holds while it retires the node at index
/// `k`: that of the node before it.
pub open spec fn guard(addresses: Seq<usize>, k: int) -> Set<usize> {
    if k > 0 {
        set![addresses[k - 1]]
    } else {
        Set::empty()
    }
}

impl<T> List<T> {
    /// The list has lost the value at index `k` of `prev`, which is `r`, and
    /// `thread` has retired the node that held it.
    pub open spec fn removed_at(
        &self,
        prev: &Self,
        reg: &Registry<Node<T>>,
        prev_reg: &Registry<Node<T>>,
        thread: usize,
        k: int,
        r: Option<T>,
    ) -> bool {
        &&& 0 <= k < prev@.len()
        &&& k < prev.addresses().len()
        &&& r == Some(prev@[k])
        &&& self@ == prev@.remove(k)
        &&& reg.retired_one(
            prev_reg,
            thread,
            prev.addresses()[k],
            prev_reg.hazards().union(guard(prev.addresses(), k)),
        )
    }
}

impl<T: PartialEq> List<T> {
    /// Takes the first value that is equal to `value` out of the list. Its
    /// node is retired.
    pub fn remove(&mut self, value: &T, reg: &mut Registry<Node<T>>, thread: usize) -> (r: Option<
        T,
    >)
        requires
            old(self).wf(),
            old(reg).wf(),
            old(reg).registered(thread),
            free_slots(old(reg).slots(thread)) >= 2,
        ensures
            final(self).wf(),
            final(reg).restored(old(reg), thread),
            r is None ==> final(self)@ == old(self)@ && final(reg).same_garbage(old(reg), thread),
            r is Some ==> exists|k: int|
                final(self).removed_at(old(self), final(reg), old(reg), thread, k, r),
            T::obeys_eq_spec() ==> {
                let k = first_match(old(self)@, *value, 0);
                &&& k < old(self)@.len() ==> final(self).removed_at(
                    old(self),
                    final(reg),
                    old(reg),
                    thread,
                    k,
                    r,
                )
                &&& k >= old(self)@.len() ==> r is None
            },
    {
        proof {
            reg.lemma_loan_start(thread);
        }
        loop
            invariant
                old(self).wf(),
                *self == *old(self),
                reg.on_loan(old(reg), thread, Multiset::empty()),
                free_slots(old(reg).slots(thread)) >= 2,
            decreases 0int,
        {
            let mut prev: Option<Ptr<Node<T>>> = None;
            let mut current_ptr = self.chain.load_head(Ordering::SeqCst);
            proof {
                if self.chain.order().len() > 0 {
                    lemma_list_at(&self.chain, 0);
                }
                lemma_zero::<Node<T>>(current_ptr@);
            }
            if current_ptr.is_null() {
                proof {
                    reg.lemma_loan_done(old(reg), thread);
                }
                return None;
            }
            let mut prev_hp: Option<HazardPtr<Node<T>>> = None;
            let ghost mut i: int = 0;
            let ghost mut held: Multiset<usize> = Multiset::empty();
            loop
                invariant
                    old(self).wf(),
                    *self == *old(self),
                    0 <= i < self.chain.order().len(),
                    current_ptr.spec_as_raw() == self.chain.order()[i],
                    current_ptr@ == self.chain.cell(prev),
                    spec_tag::<Node<T>>(current_ptr@) == 0,
                    i == 0 <==> prev is None,
                    prev matches Some(p) ==> p.spec_as_raw() == self.chain.order()[i - 1],
                    prev is Some <==> prev_hp is Some,
                    prev_hp matches Some(hp) ==> hp@ == self.chain.order()[i - 1],
                    i == 0 ==> held == Multiset::<usize>::empty(),
                    i > 0 ==> held == Multiset::<usize>::empty().insert(self.chain.order()[i - 1]),
                    reg.on_loan(old(reg), thread, held),
                    free_slots(old(reg).slots(thread)) >= 2,
                    T::obeys_eq_spec() ==> first_match(self@, *value, 0) == first_match(
                        self@,
                        *value,
                        i,
                    ),
                ensures
                    self.chain.cell(prev) != current_ptr@ || spec_tag::<Node<T>>(current_ptr@)
                        != 0,
                decreases self.chain.order().len() - i,
            {
                proof {
                    lemma_list_at(&self.chain, i);
                    if i > 0 {
                        lemma_list_at(&self.chain, i - 1);
                    }
                    lemma_zero::<Node<T>>(current_ptr@);
                    lemma_zero::<Node<T>>(self.chain.nodes()[self.chain.order()[i]].next);
                    lemma_tag_laws::<Node<T>>(current_ptr@, 0);
                    reg.lemma_loan_room(old(reg), thread, held);
                }
                let ghost r0 = *reg;
                let current_hp = current_ptr.hazard(reg, thread);
                let ghost c = current_hp@;
                proof {
                    reg.lemma_loan_protect(&r0, old(reg), thread, held, c);
                }
                // The claim counts only if the node is still linked where it
                // was found.
                if self.chain.load_cell(prev, Ordering::SeqCst).word() != current_ptr.word() {
                    current_hp.release(reg, thread);
                    match prev_hp {
                        Some(hp) => hp.release(reg, thread),
                        None => {},
                    }
                    break ;
                }
                if *self.chain.value(current_ptr) == *value {
                    // Mark the node, so that nothing is linked in behind it
                    // while it is linked out.
                    let next_ptr = self.chain.load_next(current_ptr, Ordering::SeqCst).with_tag(0);
                    if self.chain.cas_next_tag(
                        current_ptr,
                        next_ptr,
                        next_ptr.with_tag(1),
                        Ordering::SeqCst,
                    ).is_err() {
                        current_hp.release(reg, thread);
                        match prev_hp {
                            Some(hp) => hp.release(reg, thread),
                            None => {},
                        }
                        break ;
                    }
                    let res = self.chain.cas_out(
                        prev,
                        current_ptr.with_tag(0),
                        next_ptr,
                        Ordering::SeqCst,
                        Ghost(i),
                    );
                    match res {
                        Ok(_) => {
                            // The node is linked out. Its value goes to the
                            // caller, the node itself to the registry.
                            let data = self.chain.take_data(current_ptr);
                            let ghost r1 = *reg;
                            self.chain.free_hazard(current_hp, reg, thread);
                            let ghost r2 = *reg;
                            proof {
                                crate::hp::lemma_lent_release(
                                    r1.slots(thread),
                                    old(reg).slots(thread),
                                    held.insert(c),
                                    c,
                                );
                                assert(held.insert(c).remove(c) =~= held);
                                if i > 0 {
                                    r2.lemma_loan_hazards(
                                        old(reg),
                                        thread,
                                        old(self).chain.order()[i - 1],
                                    );
                                    assert(r2.hazards() =~= old(reg).hazards().union(
                                        guard(old(self).addresses(), i),
                                    ));
                                } else {
                                    r2.lemma_loan_done(old(reg), thread);
                                    assert(r2.hazards() =~= old(reg).hazards().union(
                                        guard(old(self).addresses(), i),
                                    ));
                                }
                            }
                            match prev_hp {
                                Some(hp) => {
                                    hp.release(reg, thread);
                                    proof {
                                        crate::hp::lemma_lent_release(
                                            r2.slots(thread),
                                            old(reg).slots(thread),
                                            held,
                                            hp@,
                                        );
                                        assert(held.remove(hp@) =~= Multiset::empty());
                                    }
                                },
                                None => {},
                            }
                            proof {
                                reg.lemma_loan_done(old(reg), thread);
                                self.lemma_removed(old(self), i);
                                assert(self.removed_at(old(self), reg, old(reg), thread, i, data));
                            }
                            return data;
                        },
                        Err(_) => {
                            // A node was linked in before this one. Take the
                            // mark back and start again.
                            let _res = self.chain.cas_next_tag(
                                current_ptr,
                                next_ptr.with_tag(1),
                                next_ptr,
                                Ordering::SeqCst,
                            );
                            current_hp.release(reg, thread);
                            match prev_hp {
                                Some(hp) => hp.release(reg, thread),
                                None => {},
                            }
                            break ;
                        },
                    }
                } else {
                    proof {
                        assert(T::obeys_eq_spec() ==> first_match(self@, *value, i) == first_match(
                            self@,
                            *value,
                            i + 1,
                        ));
                    }
                    prev = Some(current_ptr);
                    current_ptr = self.chain.load_next(current_ptr, Ordering::SeqCst);
                    if current_ptr.tag() != 0 {
                        // Marked: the node is being removed. Start again.
                        current_hp.release(reg, thread);
                        match prev_hp {
                            Some(hp) => hp.release(reg, thread),
                            None => {},
                        }
                        break ;
                    }
                    let ghost r1 = *reg;
                    match prev_hp {
                        Some(hp) => {
                            hp.release(reg, thread);
                            proof {
                                reg.lemma_loan_release(&r1, old(reg), thread, held.insert(c), hp@);
                                assert(held.insert(c).remove(hp@) =~= Multiset::empty().insert(c));
                            }
                        },
                        None => {
                            assert(held.insert(c) =~= Multiset::empty().insert(c));
                        },
                    }
                    prev_hp = Some(current_hp);
                    proof {
                        held = Multiset::empty().insert(c);
                        if i + 1 < self.chain.order().len() {
                            lemma_list_at(&self.chain, i + 1);
                        }
                        lemma_zero::<Node<T>>(current_ptr@);
                    }
                    if current_ptr.is_null() {
                        // The end of the list, and the value was not there.
                        let ghost r2 = *reg;
                        match prev_hp {
                            Some(hp) => {
                                hp.release(reg, thread);
                                proof {
                                    reg.lemma_loan_release(&r2, old(reg), thread, held, hp@);
                                    assert(held.remove(hp@) =~= Multiset::empty());
                                    reg.lemma_loan_done(old(reg), thread);
                                }
                            },
                            None => {},
                        }
                        return None;
                    }
                    proof {
                        i = i + 1;
                    }
                }
            }
        }
    }

    /// Tells whether the list holds a value equal to `value`.
    pub fn contains(&self, value: &T, reg: &mut Registry<Node<T>>, thread: usize) -> (b: bool)
        requires
            self.wf(),
            old(reg).wf(),
            old(reg).registered(thread),
            free_slots(old(reg).slots(thread)) >= 2,
        ensures
            final(reg).restored(old(reg), thread),
            final(reg).same_garbage(old(reg), thread),
            T::obeys_eq_spec() ==> b == (first_match(self@, *value, 0) < self@.len()),
    {
        proof {
            reg.lemma_loan_start(thread);
        }
        loop
            invariant
                self.wf(),
                reg.on_loan(old(reg), thread, Multiset::empty()),
                free_slots(old(reg).slots(thread)) >= 2,
            decreases 0int,
        {
            let mut node_ptr = self.chain.load_head(Ordering::SeqCst);
            proof {
                reg.lemma_loan_room(old(reg), thread, Multiset::empty());
                if self.chain.order().len() > 0 {
                    lemma_list_at(&self.chain, 0);
                }
            }
            let ghost r0 = *reg;
            let mut node_hp = node_ptr.hazard(reg, thread);
            proof {
                reg.lemma_loan_protect(&r0, old(reg), thread, Multiset::empty(), node_hp@);
            }
            if self.chain.load_head(Ordering::SeqCst).word() != node_ptr.word() {
                node_hp.release(reg, thread);
                continue ;
            }
            let ghost mut i: int = 0;
            let mut restart = false;
            while !node_ptr.is_null()
                invariant
                    self.wf(),
                    !restart,
                    0 <= i <= self.chain.order().len(),
                    node_ptr.spec_as_raw() == target(self.chain.order(), i - 1),
                    node_hp@ == node_ptr.spec_as_raw(),
                    reg.on_loan(old(reg), thread, Multiset::empty().insert(node_hp@)),
                    free_slots(old(reg).slots(thread)) >= 2,
                    T::obeys_eq_spec() ==> first_match(self@, *value, 0) == first_match(
                        self@,
                        *value,
                        i,
                    ),
                ensures
                    restart || node_ptr.spec_is_null(),
                decreases self.chain.order().len() - i,
            {
                proof {
                    if i < self.chain.order().len() {
                        lemma_list_at(&self.chain, i);
                    }
                }
                let prev_hp = node_hp;
                let ghost p = prev_hp@;
                if *self.chain.value(node_ptr) == *value {
                    let ghost r1 = *reg;
                    prev_hp.release(reg, thread);
                    proof {
                        reg.lemma_loan_release(&r1, old(reg), thread, Multiset::empty().insert(p), p);
                        assert(Multiset::<usize>::empty().insert(p).remove(p) =~= Multiset::empty());
                        reg.lemma_loan_done(old(reg), thread);
                    }
                    return true;
                }
                let node = node_ptr;
                node_ptr = self.chain.load_next(node, Ordering::SeqCst);
                if node_ptr.tag() != 0 {
                    // Marked: the node is being removed. Start again.
                    prev_hp.release(reg, thread);
                    restart = true;
                    node_hp = HazardPtr::fake(0);
                    break ;
                }
                proof {
                    reg.lemma_loan_room(old(reg), thread, Multiset::empty().insert(p));
                    if i + 1 < self.chain.order().len() {
                        lemma_list_at(&self.chain, i + 1);
                    }
                }
                let ghost r1 = *reg;
                node_hp = node_ptr.hazard(reg, thread);
                proof {
                    reg.lemma_loan_protect(
                        &r1,
                        old(reg),
                        thread,
                        Multiset::empty().insert(p),
                        node_hp@,
                    );
                }
                if self.chain.load_next(node, Ordering::SeqCst).word() != node_ptr.word() {
                    prev_hp.release(reg, thread);
                    restart = true;
                    break ;
                }
                let ghost r2 = *reg;
                prev_hp.release(reg, thread);
                proof {
                    reg.lemma_loan_release(
                        &r2,
                        old(reg),
                        thread,
                        Multiset::empty().insert(p).insert(node_hp@),
                        p,
                    );
                    assert(Multiset::<usize>::empty().insert(p).insert(node_hp@).remove(p)
                        =~= Multiset::empty().insert(node_hp@));
                    i = i + 1;
                }
            }
            if restart {
                node_hp.release(reg, thread);
                continue ;
            }
            let ghost r3 = *reg;
            let ghost n = node_hp@;
            node_hp.release(reg, thread);
            proof {
                reg.lemma_loan_release(&r3, old(reg), thread, Multiset::empty().insert(n), n);
                assert(Multiset::<usize>::empty().insert(n).remove(n) =~= Multiset::empty());
                reg.lemma_loan_done(old(reg), thread);
                if i < self.chain.order().len() {
                    lemma_list_at(&self.chain, i);
                }
            }
            return false;
        }
    }

    /// Takes the node of the first value that is equal to `value` out of the
    /// list and hands it over, with the value in it. Nothing is retired.
    pub fn remove_with_node(
        &mut self,
        value: &T,
        reg: &mut Registry<Node<T>>,
        thread: usize,
    ) -> (r: Option<Owned<Node<T>>>)
        requires
            old(self).wf(),
            old(reg).wf(),
            old(reg).registered(thread),
            free_slots(old(reg).slots(thread)) >= 2,
        ensures
            final(self).wf(),
            final(reg).restored(old(reg), thread),
            final(reg).same_garbage(old(reg), thread),
            r is None ==> final(self)@ == old(self)@,
            r is Some ==> exists|k: int| final(self).took_node(old(self), k, r->0),
            T::obeys_eq_spec() ==> {
                let k = first_match(old(self)@, *value, 0);
                &&& k < old(self)@.len() ==> r is Some && final(self).took_node(
                    old(self),
                    k,
                    r->0,
                )
                &&& k >= old(self)@.len() ==> r is None
            },
    {
        proof {
            reg.lemma_loan_start(thread);
        }
        loop
            invariant
                old(self).wf(),
                *self == *old(self),
                reg.on_loan(old(reg), thread, Multiset::empty()),
                free_slots(old(reg).slots(thread)) >= 2,
            decreases 0int,
        {
            let mut prev: Option<Ptr<Node<T>>> = None;
            let mut current_ptr = self.chain.load_head(Ordering::SeqCst);
            proof {
                if self.chain.order().len() > 0 {
                    lemma_list_at(&self.chain, 0);
                }
                lemma_zero::<Node<T>>(current_ptr@);
            }
            if current_ptr.is_null() {
                proof {
                    reg.lemma_loan_done(old(reg), thread);
                }
                return None;
            }
            let mut prev_hp: Option<HazardPtr<Node<T>>> = None;
            let ghost mut i: int = 0;
            let ghost mut held: Multiset<usize> = Multiset::empty();
            loop
                invariant
                    old(self).wf(),
                    *self == *old(self),
                    0 <= i < self.chain.order().len(),
                    current_ptr.spec_as_raw() == self.chain.order()[i],
                    current_ptr@ == self.chain.cell(prev),
                    spec_tag::<Node<T>>(current_ptr@) == 0,
                    i == 0 <==> prev is None,
                    prev matches Some(p) ==> p.spec_as_raw() == self.chain.order()[i - 1],
                    prev is Some <==> prev_hp is Some,
                    prev_hp matches Some(hp) ==> hp@ == self.chain.order()[i - 1],
                    i == 0 ==> held == Multiset::<usize>::empty(),
                    i > 0 ==> held == Multiset::<usize>::empty().insert(self.chain.order()[i - 1]),
                    reg.on_loan(old(reg), thread, held),
                    free_slots(old(reg).slots(thread)) >= 2,
                    T::obeys_eq_spec() ==> first_match(self@, *value, 0) == first_match(
                        self@,
                        *value,
                        i,
                    ),
                ensures
                    self.chain.cell(prev) != current_ptr@ || spec_tag::<Node<T>>(current_ptr@)
                        != 0,
                decreases self.chain.order().len() - i,
            {
                proof {
                    lemma_list_at(&self.chain, i);
                    if i > 0 {
                        lemma_list_at(&self.chain, i - 1);
                    }
                    lemma_zero::<Node<T>>(current_ptr@);
                    lemma_zero::<Node<T>>(self.chain.nodes()[self.chain.order()[i]].next);
                    lemma_tag_laws::<Node<T>>(current_ptr@, 0);
                    reg.lemma_loan_room(old(reg), thread, held);
                }
                let ghost r0 = *reg;
                let current_hp = current_ptr.hazard(reg, thread);
                let ghost c = current_hp@;
                proof {
                    reg.lemma_loan_protect(&r0, old(reg), thread, held, c);
                }
                if self.chain.load_cell(prev, Ordering::SeqCst).word() != current_ptr.word() {
                    current_hp.release(reg, thread);
                    match prev_hp {
                        Some(hp) => hp.release(reg, thread),
                        None => {},
                    }
                    break ;
                }
                if *self.chain.value(current_ptr) == *value {
                    let next_ptr = self.chain.load_next(current_ptr, Ordering::SeqCst);
                    if self.chain.cas_next_tag(
                        current_ptr,
                        next_ptr,
                        next_ptr.with_tag(1),
                        Ordering::SeqCst,
                    ).is_err() {
                        current_hp.release(reg, thread);
                        match prev_hp {
                            Some(hp) => hp.release(reg, thread),
                            None => {},
                        }
                        break ;
                    }
                    let res = self.chain.cas_out(
                        prev,
                        current_ptr,
                        next_ptr,
                        Ordering::SeqCst,
                        Ghost(i),
                    );
                    match res {
                        Ok(_) => {
                            let ghost r1 = *reg;
                            let ghost mid = *self;
                            let node = self.chain.evict(current_ptr);
                            current_hp.release(reg, thread);
                            proof {
                                reg.lemma_loan_release(&r1, old(reg), thread, held.insert(c), c);
                                assert(held.insert(c).remove(c) =~= held);
                            }
                            let ghost r2 = *reg;
                            match prev_hp {
                                Some(hp) => {
                                    hp.release(reg, thread);
                                    proof {
                                        reg.lemma_loan_release(&r2, old(reg), thread, held, hp@);
                                        assert(held.remove(hp@) =~= Multiset::empty());
                                    }
                                },
                                None => {},
                            }
                            proof {
                                reg.lemma_loan_done(old(reg), thread);
                                self.lemma_removed(old(self), i);
                                assert(self.took_node(old(self), i, node));
                            }
                            let r = Some(node);
                            assert(self.took_node(old(self), i, r->0));
                            return r;
                        },
                        Err(_) => {
                            let _res = self.chain.cas_next_tag(
                                current_ptr,
                                next_ptr.with_tag(1),
                                next_ptr,
                                Ordering::SeqCst,
                            );
                            current_hp.release(reg, thread);
                            match prev_hp {
                                Some(hp) => hp.release(reg, thread),
                                None => {},
                            }
                            break ;
                        },
                    }
                } else {
                    proof {
                        assert(T::obeys_eq_spec() ==> first_match(self@, *value, i) == first_match(
                            self@,
                            *value,
                            i + 1,
                        ));
                    }
                    prev = Some(current_ptr);
                    current_ptr = self.chain.load_next(current_ptr, Ordering::SeqCst).with_tag(0);
                    let ghost r1 = *reg;
                    match prev_hp {
                        Some(hp) => {
                            hp.release(reg, thread);
                            proof {
                                reg.lemma_loan_release(&r1, old(reg), thread, held.insert(c), hp@);
                                assert(held.insert(c).remove(hp@) =~= Multiset::empty().insert(c));
                            }
                        },
                        None => {
                            assert(held.insert(c) =~= Multiset::empty().insert(c));
                        },
                    }
                    prev_hp = Some(current_hp);
                    proof {
                        held = Multiset::empty().insert(c);
                        if i + 1 < self.chain.order().len() {
                            lemma_list_at(&self.chain, i + 1);
                        }
                        lemma_zero::<Node<T>>(current_ptr@);
                    }
                    if current_ptr.is_null() {
                        let ghost r2 = *reg;
                        match prev_hp {
                            Some(hp) => {
                                hp.release(reg, thread);
                                proof {
                                    reg.lemma_loan_release(&r2, old(reg), thread, held, hp@);
                                    assert(held.remove(hp@) =~= Multiset::empty());
                                    reg.lemma_loan_done(old(reg), thread);
                                }
                            },
                            None => {},
                        }
                        return None;
                    }
                    proof {
                        i = i + 1;
                    }
                }
            }
        }
    }
}

impl<T> List<T> {
    /// The list has lost the value at index `k` of `prev`, and `o` is the
    /// node that held it, with the value in it and under its address.
    pub open spec fn took_node(&self, prev: &Self, k: int, o: Owned<Node<T>>) -> bool {
        &&& 0 <= k < prev@.len()
        &&& k < prev.addresses().len()
        &&& o.value.data == Some(prev@[k])
        &&& spec_raw::<Node<T>>(o.data) == prev.addresses()[k]
        &&& self@ == prev@.remove(k)
    }
}

/// A walk down a list, from the front on. The walk holds a claim on the node
/// that it stands on, until it is finished.
pub struct Iter<T> {
    node: Ptr<Node<T>>,
    hp: HazardPtr<Node<T>>,
    index: Ghost<int>,
}

impl<T> Iter<T> {
    /// The index of the value that comes next.
    pub closed spec fn position(&self) -> int {
        self.index@
    }

    /// The address that the walk holds a claim on: that of the node it stands
    /// on, or zero at the end.
    pub closed spec fn claim(&self) -> usize {
        self.hp@
    }

    /// The walk stands on the node at its position in `list`, or at the end.
    pub closed spec fn on(&self, list: &List<T>) -> bool {
        &&& 0 <= self.index@ <= list.chain.order().len()
        &&& self.node.spec_as_raw() == target(list.chain.order(), self.index@ - 1)
        &&& self.hp@ == self.node.spec_as_raw()
    }

    /// At the end of the list the walk holds no claim.
    pub proof fn lemma_claim(&self, list: &List<T>)
        requires
            list.wf(),
            self.on(list),
        ensures
            self.claim() == 0 <==> self.position() >= list@.len(),
    {
        if self.index@ < list.chain.order().len() {
            lemma_list_at(&list.chain, self.index@);
        }
    }

    /// The next value of the list, or `None` at the end. The claim moves on
    /// to the node behind.
    pub fn next<'a>(
        &mut self,
        list: &'a List<T>,
        reg: &mut Registry<Node<T>>,
        thread: usize,
    ) -> (r: Option<&'a T>)
        requires
            list.wf(),
            old(self).on(list),
            old(reg).wf(),
            old(reg).registered(thread),
            first_index(old(reg).slots(thread), 0, 0) < NUM_HP,
        ensures
            final(self).on(list),
            old(self).position() < list@.len() ==> r == Some(&list@[old(self).position()])
                && final(self).position() == old(self).position() + 1,
            old(self).position() >= list@.len() ==> r is None && final(self).position() == old(self).position(),
            final(reg).wf(),
            final(reg).registered(thread),
            final(reg).same_others(old(reg), thread),
            final(reg).same_garbage(old(reg), thread),
            r is Some ==> final(reg).slots(thread) == spec_release(
                spec_protect(old(reg).slots(thread), final(self).claim()),
                old(self).claim(),
            ),
            r is None ==> final(reg).slots(thread) == old(reg).slots(thread) && final(self).claim()
                == old(self).claim(),
    {
        proof {
            if self.index@ < list.chain.order().len() {
                lemma_list_at(&list.chain, self.index@);
            }
            if self.index@ + 1 < list.chain.order().len() {
                lemma_list_at(&list.chain, self.index@ + 1);
            }
        }
        loop
            invariant
                list.wf(),
                *self == *old(self),
                *reg == *old(reg),
                self.on(list),
                reg.wf(),
                reg.registered(thread),
                first_index(reg.slots(thread), 0, 0) < NUM_HP,
            decreases 0int,
        {
            proof {
                if self.index@ < list.chain.order().len() {
                    lemma_list_at(&list.chain, self.index@);
                }
                if self.index@ + 1 < list.chain.order().len() {
                    lemma_list_at(&list.chain, self.index@ + 1);
                }
            }
            if self.node.is_null() {
                return None;
            }
            let node = self.node;
            let new_node = list.chain.load_next(node, Ordering::SeqCst);
            let mut new_hp = new_node.hazard(reg, thread);
            if list.chain.load_next(node, Ordering::SeqCst).word() != new_node.word() {
                new_hp.release(reg, thread);
                continue ;
            }
            let data = list.chain.value(node);
            self.node = new_node;
            core::mem::swap(&mut self.hp, &mut new_hp);
            new_hp.release(reg, thread);
            proof {
                self.index = Ghost(self.index@ + 1);
            }
            return Some(data);
        }
    }

    /// Ends the walk and gives its claim back.
    pub fn finish(self, reg: &mut Registry<Node<T>>, thread: usize)
        requires
            old(reg).wf(),
            old(reg).registered(thread),
        ensures
            final(reg).wf(),
            final(reg).registered(thread),
            final(reg).same_others(old(reg), thread),
            final(reg).same_garbage(old(reg), thread),
            final(reg).slots(thread) == spec_release(old(reg).slots(thread), self.claim()),
    {
        self.hp.release(reg, thread);
    }

    /// The number of values that the walk has still to come. The walk is
    /// finished after that.
    pub fn count(self, list: &List<T>, reg: &mut Registry<Node<T>>, thread: usize) -> (n: usize)
        requires
            list.wf(),
            self.on(list),
            old(reg).wf(),
            old(reg).registered(thread),
            old(reg).slots(thread).contains(self.claim()),
            free_slots(old(reg).slots(thread)) >= 1,
        ensures
            n == list@.len() - self.position(),
            final(reg).wf(),
            final(reg).registered(thread),
            final(reg).same_others(old(reg), thread),
            final(reg).same_garbage(old(reg), thread),
            final(reg).slots(thread).to_multiset() == spec_release(
                old(reg).slots(thread),
                self.claim(),
            ).to_multiset(),
    {
        let mut it = self;
        let mut n: usize = 0;
        let cap = list.chain.allocated();
        proof {
            list.chain.lemma_order_bound();
            assert(crate::hp::has_entry(reg.entries(), thread));
        }
        loop
            invariant
                list.wf(),
                it.on(list),
                self.on(list),
                0 <= self.position() <= it.position() <= list@.len(),
                n == it.position() - self.position(),
                list@.len() <= cap,
                reg.wf(),
                reg.registered(thread),
                old(reg).registered(thread),
                reg.same_others(old(reg), thread),
                reg.same_garbage(old(reg), thread),
                reg.slots(thread).len() == NUM_HP,
                old(reg).slots(thread).len() == NUM_HP,
                old(reg).slots(thread).contains(self.claim()),
                reg.slots(thread).contains(it.claim()),
                free_slots(old(reg).slots(thread)) >= 1,
                reg.slots(thread).to_multiset().insert(self.claim()) == old(reg).slots(
                    thread,
                ).to_multiset().insert(it.claim()),
            decreases list@.len() - it.position(),
        {
            let ghost before = reg.slots(thread);
            let ghost c = it.claim();
            proof {
                broadcast use vstd::seq_lib::group_to_multiset_ensures;

                it.lemma_claim(list);
                self.lemma_claim(list);
                assert(before.to_multiset().insert(self.claim()).count(0)
                    == old(reg).slots(thread).to_multiset().insert(c).count(0));
                if c != 0 {
                    assert(free_slots(before) >= 1);
                } else {
                    assert(before.contains(0usize));
                    assert(free_slots(before) >= 1);
                }
                lemma_free_slot(before);
            }
            match it.next(list, reg, thread) {
                Some(_) => {
                    proof {
                        broadcast use vstd::seq_lib::group_to_multiset_ensures;

                        let m = it.claim();
                        lemma_protect(before, m);
                        let s1 = spec_protect(before, m);
                        assert(s1.to_multiset().count(c) >= 1);
                        assert(s1.contains(c));
                        lemma_release(s1, c);
                        let s2 = spec_release(s1, c);
                        let c0 = self.claim();
                        let ms0 = old(reg).slots(thread).to_multiset();
                        let msb = before.to_multiset();
                        assert forall|x: usize|
                            s2.to_multiset().insert(c0).count(x) == ms0.insert(m).count(x) by {
                            assert(msb.insert(c0).count(x) == ms0.insert(c).count(x));
                            assert(msb.count(0) >= 1);
                        }
                        assert(s2.to_multiset().insert(c0) =~= ms0.insert(m));
                        assert(s2.to_multiset().count(m) >= 1);
                        assert(s2.contains(m));
                    }
                    n += 1;
                },
                None => {
                    let ghost last = reg.slots(thread);
                    it.finish(reg, thread);
                    proof {
                        broadcast use vstd::seq_lib::group_to_multiset_ensures;

                        lemma_release(last, c);
                        lemma_release(old(reg).slots(thread), self.claim());
                        let c0 = self.claim();
                        let ms0 = old(reg).slots(thread).to_multiset();
                        let msl = last.to_multiset();
                        let target_ms = spec_release(old(reg).slots(thread), c0).to_multiset();
                        assert forall|x: usize|
                            reg.slots(thread).to_multiset().count(x) == target_ms.count(x) by {
                            assert(msl.insert(c0).count(x) == ms0.insert(c).count(x));
                        }
                        assert(reg.slots(thread).to_multiset() =~= target_ms);
                    }
                    return n;
                },
            }
        }
    }
}

impl<T> List<T> {
    /// A walk down the list that starts at the front. It holds a claim on
    /// the first node.
    pub fn iter(&self, reg: &mut Registry<Node<T>>, thread: usize) -> (it: Iter<T>)
        requires
            self.wf(),
            old(reg).wf(),
            old(reg).registered(thread),
            free_slots(old(reg).slots(thread)) >= 1,
        ensures
            it.on(self),
            it.position() == 0,
            final(reg).wf(),
            final(reg).registered(thread),
            final(reg).same_others(old(reg), thread),
            final(reg).same_garbage(old(reg), thread),
            final(reg).slots(thread) == spec_protect(old(reg).slots(thread), it.claim()),
            final(reg).slots(thread).contains(it.claim()),
    {
        proof {
            lemma_free_slot(reg.slots(thread));
        }
        loop
            invariant
                self.wf(),
                *reg == *old(reg),
                reg.wf(),
                reg.registered(thread),
                first_index(reg.slots(thread), 0, 0) < NUM_HP,
                free_slots(reg.slots(thread)) >= 1,
            decreases 0int,
        {
            let head = self.chain.load_head(Ordering::SeqCst);
            proof {
                if self.chain.order().len() > 0 {
                    lemma_list_at(&self.chain, 0);
                }
                lemma_tag_laws::<Node<T>>(self.chain.first(), 0);
                lemma_protect(reg.slots(thread), head.spec_as_raw());
            }
            let head_hp = head.hazard(reg, thread);
            if self.chain.load_head(Ordering::SeqCst).word() != head.word() {
                head_hp.release(reg, thread);
                continue ;
            }
            return Iter { node: head, hp: head_hp, index: Ghost(0) };
        }
    }
}

} // verus!
