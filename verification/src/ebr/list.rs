//! A linked list whose nodes are reclaimed through epochs.
use vstd::prelude::*;
use std::sync::atomic::Ordering;
use crate::chain::{Chain, link_ok, first_match, target, all_meet};
use crate::list_model::{
    list_wf, compact, list_view, lemma_list_gone, lemma_list_grown, lemma_list_at,
};
use crate::hp::atomic::{Owned, Ptr, spec_tag, spec_raw, lemma_zero, lemma_tag_laws};
use crate::ebr::{GlobalState, LocalState, Pin, entered, untouched, retired_one, Garbage};
use vstd::std_specs::cmp::PartialEqSpec;

pub use crate::node::Node;

verus! {

/// A list of values. New values go to the front. Whoever works on the list
/// is pinned, and a node that was removed is retired under the epoch of that
/// moment.
pub struct List<T> {
    chain: Chain<T>,
}

impl<T> View for List<T> {
    type V = Seq<T>;

    /// The values, from the front on.
    closed spec fn view(&self) -> Seq<T> {
        list_view(&self.chain)
    }
}

impl<T> List<T> {
    /// The nodes are linked from the head, each holds a value, no link
    /// carries a mark, and the heap holds no other node.
    pub closed spec fn wf(&self) -> bool {
        &&& list_wf(&self.chain)
        &&& compact(&self.chain)
    }

    /// Whether the heap of the list can take one more node.
    pub closed spec fn has_room(&self) -> bool {
        self.chain.has_room()
    }

    /// The addresses of the nodes, from the front on.
    pub closed spec fn addresses(&self) -> Seq<usize> {
        self.chain.order()
    }

    /// A list has one node for each value.
    pub proof fn lemma_addresses(&self)
        requires
            self.wf(),
        ensures
            self.addresses().len() == self@.len(),
    {
    }

    /// An empty list.
    pub fn new() -> (list: Self)
        ensures
            list.wf(),
            list.has_room(),
            list@ == Seq::<T>::empty(),
    {
        proof {
            lemma_zero::<Node<T>>(0);
        }
        let list = List { chain: Chain::new() };
        assert(list@ =~= Seq::<T>::empty());
        list
    }

    /// Ends the list. Each node leaves the heap, once, from the head on, and
    /// the values that the list still held are handed out, the first of the
    /// list first, for the caller to let go.
    pub fn drop(self) -> (values: Vec<T>)
        requires
            self.wf(),
        ensures
            values@ == self@,
    {
        self.chain.dissolve(0)
    }

    /// Tells whether the heap of the list can take one more node.
    pub fn room(&self) -> (b: bool)
        ensures
            b == self.has_room(),
    {
        self.chain.room()
    }

    /// Puts `data` at the front of the list and returns the pointer to its
    /// node.
    pub fn insert(&mut self, data: T, _pin: Pin) -> (p: Ptr<Node<T>>)
        requires
            old(self).wf(),
            old(self).has_room(),
        ensures
            final(self).wf(),
            final(self)@ == seq![data] + old(self)@,
            !p.spec_is_null(),
            p.spec_as_raw() == final(self).addresses()[0],
    {
        let curr_ptr: Ptr<Node<T>> = self.chain.adopt(Owned::new(Node::new(data)));
        let mut head = self.chain.load_head(Ordering::SeqCst);
        let ghost mid = self.chain;
        proof {
            lemma_zero::<Node<T>>(old(self).chain.frontier());
            lemma_tag_laws::<Node<T>>(old(self).chain.frontier(), 0);
            self.chain.lemma_addresses();
            lemma_tag_laws::<Node<T>>(head@, 0);
        }
        loop
            invariant
                old(self).wf(),
                self.chain.inv(),
                self.chain.order() == old(self).chain.order(),
                self.chain.first() == old(self).chain.first(),
                head@ == self.chain.first(),
                curr_ptr.spec_as_raw() == old(self).chain.frontier(),
                curr_ptr.spec_as_raw() != 0,
                spec_tag::<Node<T>>(curr_ptr@) == 0,
                self.chain.detached(curr_ptr.spec_as_raw()),
                !old(self).chain.nodes().contains_key(curr_ptr.spec_as_raw()),
                self.chain.nodes() =~= old(self).chain.nodes().insert(
                    curr_ptr.spec_as_raw(),
                    (Node { data: Some(data), next: self.chain.nodes()[curr_ptr.spec_as_raw()].next }),
                ),
            decreases 0int,
        {
            self.chain.store_next(curr_ptr, head, Ordering::SeqCst);
            let res = self.chain.cas_head_in(head, curr_ptr, Ordering::SeqCst);
            match res {
                Ok(_) => {
                    proof {
                        assert(self.chain.nodes() =~= old(self).chain.nodes().insert(
                            curr_ptr.spec_as_raw(),
                            (Node { data: Some(data), next: old(self).chain.first() }),
                        ));
                        lemma_list_grown(&old(self).chain, &self.chain, curr_ptr@, data);
                        assert(self.chain.order()[0] == curr_ptr.spec_as_raw());
                    }
                    return curr_ptr;
                },
                Err(new_head) => {
                    head = new_head;
                },
            }
        }
    }

    /// Tells whether the list holds no value.
    pub fn is_empty(&self, _pin: Pin) -> (b: bool)
        requires
            self.wf(),
        ensures
            b == (self@.len() == 0),
    {
        let head = self.chain.load_head(Ordering::SeqCst);
        proof {
            if self.chain.order().len() > 0 {
                assert(link_ok(self.chain.nodes(), self.chain.order(), 0));
            }
        }
        head.is_null()
    }

    /// Takes the first value off the list. Its node is retired.
    pub fn remove_front(
        &mut self,
        pin: Pin,
        global: &mut GlobalState<Node<T>>,
        local: &mut LocalState<Node<T>>,
    ) -> (r: Option<T>)
        requires
            old(self).wf(),
            entered(old(global), old(local)),
        ensures
            final(self).wf(),
            entered(final(global), final(local)),
            old(self)@.len() == 0 ==> r is None && final(self)@ == old(self)@ && untouched(
                old(global),
                old(local),
                final(global),
                final(local),
            ),
            old(self)@.len() > 0 ==> r == Some(old(self)@[0]) && final(self)@ == old(self)@.drop_first() && retired_one(
                old(global),
                old(local),
                final(global),
                final(local),
                old(self).addresses()[0],
            ),
    {
        let mut head_ptr: Ptr<Node<T>> = self.chain.load_head(Ordering::SeqCst);
        loop
            invariant
                old(self).wf(),
                *self == *old(self),
                *global == *old(global),
                *local == *old(local),
                entered(old(global), old(local)),
                head_ptr@ == self.chain.first(),
            decreases 0int,
        {
            proof {
                if self.chain.order().len() > 0 {
                    lemma_list_at(&self.chain, 0);
                }
                lemma_tag_laws::<Node<T>>(head_ptr@, 0);
                lemma_zero::<Node<T>>(head_ptr@);
            }
            if head_ptr.is_null() {
                return None;
            }
            let next = self.chain.load_next(head_ptr, Ordering::SeqCst);
            if next.tag() != 0 {
                head_ptr = self.chain.load_head(Ordering::SeqCst);
                continue ;
            }
            let tag_res = self.chain.cas_next_tag(
                head_ptr,
                next,
                next.with_tag(1),
                Ordering::SeqCst,
            );
            if tag_res.is_err() {
                continue ;
            }
            match self.chain.cas_out(None, head_ptr, next, Ordering::SeqCst, Ghost(0)) {
                Ok(()) => {
                    let data = self.chain.take_data(head_ptr);
                    let o = self.chain.evict(head_ptr);
                    pin.add_garbage(o, global, local);
                    proof {
                        lemma_list_gone(&old(self).chain, &self.chain, 0);
                        assert(self@ =~= old(self)@.drop_first());
                        let g = Garbage(o, old(global).epoch());
                        assert(spec_raw::<Node<T>>(g.0.data) == old(self).addresses()[0]);
                    }
                    return data;
                },
                Err(new_head) => {
                    let _res = self.chain.cas_next_tag(
                        head_ptr,
                        next.with_tag(1),
                        next,
                        Ordering::SeqCst,
                    );
                    head_ptr = new_head;
                },
            }
        }
    }

    /// Tells whether `f` holds of every value of the list.
    pub fn all<F: Fn(&T) -> bool>(&self, f: F, _pin: Pin) -> (b: bool)
        requires
            self.wf(),
            forall|i: int| 0 <= i < self@.len() ==> call_requires(f, (&#[trigger] self@[i],)),
        ensures
            b ==> all_meet(self@, f, 0),
            !b ==> exists|i: int| 0 <= i < self@.len() && call_ensures(f, (&#[trigger] self@[i],), false),
    {
        let mut node_ptr = self.chain.load_head(Ordering::SeqCst);
        let ghost mut i: int = 0;
        while !node_ptr.is_null()
            invariant
                self.wf(),
                0 <= i <= self.chain.order().len(),
                node_ptr.spec_as_raw() == target(self.chain.order(), i - 1),
                forall|k: int| 0 <= k < self@.len() ==> call_requires(f, (&#[trigger] self@[k],)),
                forall|k: int| 0 <= k < i ==> call_ensures(f, (&#[trigger] self@[k],), true),
            decreases self.chain.order().len() - i,
        {
            proof {
                if i < self.chain.order().len() {
                    lemma_list_at(&self.chain, i);
                }
            }
            let v = self.chain.value(node_ptr);
            assert(*v == self@[i]);
            if !f(v) {
                return false;
            }
            node_ptr = self.chain.load_next(node_ptr, Ordering::SeqCst);
            proof {
                if i + 1 < self.chain.order().len() {
                    lemma_list_at(&self.chain, i + 1);
                }
                i = i + 1;
            }
        }
        proof {
            if i < self.chain.order().len() {
                lemma_list_at(&self.chain, i);
            }
        }
        true
    }
}

impl<T: PartialEq> List<T> {
    /// Tells whether the list holds a value equal to `value`.
    pub fn contains(&self, value: &T, _pin: Pin) -> (b: bool)
        requires
            self.wf(),
        ensures
            T::obeys_eq_spec() ==> b == (first_match(self@, *value, 0) < self@.len()),
    {
        loop
            invariant
                self.wf(),
            decreases 0int,
        {
            let mut node_ptr = self.chain.load_head(Ordering::SeqCst);
            let ghost mut i: int = 0;
            proof {
                if self.chain.order().len() > 0 {
                    lemma_list_at(&self.chain, 0);
                }
            }
            while !node_ptr.is_null()
                invariant
                    self.wf(),
                    0 <= i <= self.chain.order().len(),
                    node_ptr.spec_as_raw() == target(self.chain.order(), i - 1),
                    T::obeys_eq_spec() ==> first_match(self@, *value, 0) == first_match(
                        self@,
                        *value,
                        i,
                    ),
                ensures
                    node_ptr.spec_is_null(),
                decreases self.chain.order().len() - i,
            {
                proof {
                    if i < self.chain.order().len() {
                        lemma_list_at(&self.chain, i);
                    }
                }
                if *self.chain.value(node_ptr) == *value {
                    return true;
                }
                node_ptr = self.chain.load_next(node_ptr, Ordering::SeqCst);
                if node_ptr.tag() != 0 {
                    // Marked: the node is being removed. Start again.
                    break ;
                }
                proof {
                    if i + 1 < self.chain.order().len() {
                        lemma_list_at(&self.chain, i + 1);
                    }
                    i = i + 1;
                }
            }
            proof {
                if i < self.chain.order().len() {
                    lemma_list_at(&self.chain, i);
                }
            }
            return false;
        }
    }

    /// The list has lost the value at index `k` of `prev`, which is `r`, and
    /// the thread of `l0` has retired the node that held it.
    pub open spec fn removed_at(
        &self,
        prev: &Self,
        g0: &GlobalState<Node<T>>,
        l0: &LocalState<Node<T>>,
        g1: &GlobalState<Node<T>>,
        l1: &LocalState<Node<T>>,
        k: int,
        r: Option<T>,
    ) -> bool {
        &&& 0 <= k < prev@.len()
        &&& k < prev.addresses().len()
        &&& r == Some(prev@[k])
        &&& self@ == prev@.remove(k)
        &&& retired_one(g0, l0, g1, l1, prev.addresses()[k])
    }

    /// Takes the first value that is equal to `value` out of the list. Its
    /// node is retired.
    pub fn remove(
        &mut self,
        value: &T,
        pin: Pin,
        global: &mut GlobalState<Node<T>>,
        local: &mut LocalState<Node<T>>,
    ) -> (r: Option<T>)
        requires
            old(self).wf(),
            entered(old(global), old(local)),
        ensures
            final(self).wf(),
            entered(final(global), final(local)),
            r is None ==> final(self)@ == old(self)@ && untouched(
                old(global),
                old(local),
                final(global),
                final(local),
            ),
            r is Some ==> exists|k: int|
                final(self).removed_at(
                    old(self),
                    old(global),
                    old(local),
                    final(global),
                    final(local),
                    k,
                    r,
                ),
            T::obeys_eq_spec() ==> {
                let k = first_match(old(self)@, *value, 0);
                &&& k < old(self)@.len() ==> final(self).removed_at(
                    old(self),
                    old(global),
                    old(local),
                    final(global),
                    final(local),
                    k,
                    r,
                )
                &&& k >= old(self)@.len() ==> r is None
            },
    {
        loop
            invariant
                old(self).wf(),
                *self == *old(self),
                *global == *old(global),
                *local == *old(local),
                entered(old(global), old(local)),
            decreases 0int,
        {
            let mut prev: Option<Ptr<Node<T>>> = None;
            let mut current_ptr = self.chain.load_head(Ordering::SeqCst);
            proof {
                if self.chain.order().len() > 0 {
                    lemma_list_at(&self.chain, 0);
                }
                lemma_zero::<Node<T>>(current_ptr@);
            }
            if current_ptr.is_null() {
                return None;
            }
            let ghost mut i: int = 0;
            loop
                invariant
                    old(self).wf(),
                    *self == *old(self),
                    *global == *old(global),
                    *local == *old(local),
                    entered(old(global), old(local)),
                    0 <= i < self.chain.order().len(),
                    current_ptr.spec_as_raw() == self.chain.order()[i],
                    current_ptr@ == self.chain.cell(prev),
                    spec_tag::<Node<T>>(current_ptr@) == 0,
                    i == 0 <==> prev is None,
                    prev matches Some(p) ==> p.spec_as_raw() == self.chain.order()[i - 1],
                    T::obeys_eq_spec() ==> first_match(self@, *value, 0) == first_match(
                        self@,
                        *value,
                        i,
                    ),
                ensures
                    self.chain.cell(prev) != current_ptr@ || spec_tag::<Node<T>>(current_ptr@)
                        != 0,
                decreases self.chain.order().len() - i,
            {
                proof {
                    lemma_list_at(&self.chain, i);
                    if i > 0 {
                        lemma_list_at(&self.chain, i - 1);
                    }
                    lemma_zero::<Node<T>>(current_ptr@);
                    lemma_zero::<Node<T>>(self.chain.nodes()[self.chain.order()[i]].next);
                    lemma_tag_laws::<Node<T>>(current_ptr@, 0);
                }
                if *self.chain.value(current_ptr) == *value {
                    // Mark the node, so that nothing is linked in behind it
                    // while it is linked out.
                    let next_ptr = self.chain.load_next(current_ptr, Ordering::SeqCst).with_tag(0);
                    if self.chain.cas_next_tag(
                        current_ptr,
                        next_ptr,
                        next_ptr.with_tag(1),
                        Ordering::SeqCst,
                    ).is_err() {
                        // The mark failed. Start again.
                        break ;
                    }
                    let res = self.chain.cas_out(
                        prev,
                        current_ptr.with_tag(0),
                        next_ptr,
                        Ordering::SeqCst,
                        Ghost(i),
                    );
                    match res {
                        Ok(_) => {
                            // The node is not reachable any more.
                            let data = self.chain.take_data(current_ptr);
                            let o = self.chain.evict(current_ptr);
                            pin.add_garbage(o, global, local);
                            proof {
                                lemma_list_gone(&old(self).chain, &self.chain, i);
                                let g = Garbage(o, old(global).epoch());
                                assert(spec_raw::<Node<T>>(g.0.data) == old(self).addresses()[i]);
                                assert(self.removed_at(
                                    old(self),
                                    old(global),
                                    old(local),
                                    global,
                                    local,
                                    i,
                                    data,
                                ));
                            }
                            return data;
                        },
                        Err(_) => {
                            // A node was linked in before this one. Take the
                            // mark back and start again.
                            let _res = self.chain.cas_next_tag(
                                current_ptr,
                                next_ptr.with_tag(1),
                                next_ptr,
                                Ordering::SeqCst,
                            );
                            break ;
                        },
                    }
                } else {
                    proof {
                        assert(T::obeys_eq_spec() ==> first_match(self@, *value, i) == first_match(
                            self@,
                            *value,
                            i + 1,
                        ));
                    }
                    prev = Some(current_ptr);
                    current_ptr = self.chain.load_next(current_ptr, Ordering::SeqCst);
                    if current_ptr.tag() != 0 {
                        // Marked: the node is being removed. Start again.
                        break ;
                    }
                    proof {
                        if i + 1 < self.chain.order().len() {
                            lemma_list_at(&self.chain, i + 1);
                        }
                        lemma_zero::<Node<T>>(current_ptr@);
                    }
                    if current_ptr.is_null() {
                        // The end of the list, and the value was not there.
                        return None;
                    }
                    proof {
                        i = i + 1;
                    }
                }
            }
        }
    }
}

impl<T: PartialEq> List<T> {
    /// The list has lost the value at index `k` of `prev`, and `o` is the
    /// node that held it, with the value in it and under its address.
    pub open spec fn took_node(&self, prev: &Self, k: int, o: Owned<Node<T>>) -> bool {
        &&& 0 <= k < prev@.len()
        &&& k < prev.addresses().len()
        &&& o.value.data == Some(prev@[k])
        &&& spec_raw::<Node<T>>(o.data) == prev.addresses()[k]
        &&& self@ == prev@.remove(k)
    }

    /// Takes the node of the first value that is equal to `value` out of the
    /// list, with the value in it.
    fn unlink(&mut self, value: &T, _pin: Pin) -> (r: Option<Owned<Node<T>>>)
        requires
            old(self).wf(),
        ensures
            final(self).wf(),
            r is None ==> final(self)@ == old(self)@,
            r is Some ==> exists|k: int| final(self).took_node(old(self), k, r->0),
            T::obeys_eq_spec() ==> {
                let k = first_match(old(self)@, *value, 0);
                &&& k < old(self)@.len() ==> r is Some && final(self).took_node(
                    old(self),
                    k,
                    r->0,
                )
                &&& k >= old(self)@.len() ==> r is None
            },
    {
        loop
            invariant
                old(self).wf(),
                *self == *old(self),
            decreases 0int,
        {
            let mut previous_node_ptr: Option<Ptr<Node<T>>> = None;
            let mut current_ptr = self.chain.load_head(Ordering::SeqCst);
            proof {
                if self.chain.order().len() > 0 {
                    lemma_list_at(&self.chain, 0);
                }
                lemma_zero::<Node<T>>(current_ptr@);
            }
            if current_ptr.is_null() {
                return None;
            }
            let ghost mut i: int = 0;
            loop
                invariant
                    old(self).wf(),
                    *self == *old(self),
                    0 <= i < self.chain.order().len(),
                    current_ptr.spec_as_raw() == self.chain.order()[i],
                    current_ptr@ == self.chain.cell(previous_node_ptr),
                    spec_tag::<Node<T>>(current_ptr@) == 0,
                    i == 0 <==> previous_node_ptr is None,
                    previous_node_ptr matches Some(p) ==> p.spec_as_raw() == self.chain.order()[i
                        - 1],
                    T::obeys_eq_spec() ==> first_match(self@, *value, 0) == first_match(
                        self@,
                        *value,
                        i,
                    ),
                ensures
                    self.chain.cell(previous_node_ptr) != current_ptr@ || spec_tag::<Node<T>>(
                        current_ptr@,
                    ) != 0,
                decreases self.chain.order().len() - i,
            {
                proof {
                    lemma_list_at(&self.chain, i);
                    if i > 0 {
                        lemma_list_at(&self.chain, i - 1);
                    }
                    if i + 1 < self.chain.order().len() {
                        lemma_list_at(&self.chain, i + 1);
                    }
                    lemma_zero::<Node<T>>(current_ptr@);
                    lemma_zero::<Node<T>>(self.chain.nodes()[self.chain.order()[i]].next);
                    lemma_tag_laws::<Node<T>>(current_ptr@, 0);
                }
                let next_ptr = self.chain.load_next(current_ptr, Ordering::SeqCst).with_tag(0);
                if *self.chain.value(current_ptr) == *value {
                    // Mark the node, so that nothing is linked in behind it
                    // while it is linked out.
                    let next_ptr = self.chain.load_next(current_ptr, Ordering::SeqCst);
                    if self.chain.cas_next_tag(
                        current_ptr,
                        next_ptr,
                        next_ptr.with_tag(1),
                        Ordering::SeqCst,
                    ).is_err() {
                        // The mark failed. Start again.
                        break ;
                    }
                    let res = self.chain.cas_out(
                        previous_node_ptr,
                        current_ptr,
                        next_ptr,
                        Ordering::SeqCst,
                        Ghost(i),
                    );
                    match res {
                        Ok(_) => {
                            let o = self.chain.evict(current_ptr);
                            proof {
                                lemma_list_gone(&old(self).chain, &self.chain, i);
                            }
                            let r = Some(o);
                            assert(self.took_node(old(self), i, r->0));
                            return r;
                        },
                        Err(_) => {
                            // A node was linked in before this one. Take the
                            // mark back and start again.
                            let _res = self.chain.cas_next_tag(
                                current_ptr,
                                next_ptr.with_tag(1),
                                next_ptr,
                                Ordering::SeqCst,
                            );
                            break ;
                        },
                    }
                } else {
                    proof {
                        assert(T::obeys_eq_spec() ==> first_match(self@, *value, i) == first_match(
                            self@,
                            *value,
                            i + 1,
                        ));
                    }
                    previous_node_ptr = Some(current_ptr);
                    current_ptr = next_ptr;
                    if current_ptr.is_null() {
                        // The end of the list, and the value was not there.
                        return None;
                    }
                    proof {
                        i = i + 1;
                    }
                }
            }
        }
    }

    /// Takes the node of the first value that is equal to `value` out of the
    /// list and hands it to `f`, with the value in it. Tells whether there
    /// was such a value.
    pub fn remove_with<F: FnOnce(Owned<Node<T>>)>(&mut self, value: &T, _pin: Pin, f: F) -> (b:
        bool)
        requires
            old(self).wf(),
            forall|o: Owned<Node<T>>| call_requires(f, (o,)),
        ensures
            final(self).wf(),
            !b ==> final(self)@ == old(self)@,
            b ==> exists|k: int, o: Owned<Node<T>>|
                #[trigger] final(self).took_node(old(self), k, o) && call_ensures(f, (o,), ()),
            T::obeys_eq_spec() ==> b == (first_match(old(self)@, *value, 0) < old(self)@.len()),
            T::obeys_eq_spec() && b ==> final(self)@ == old(self)@.remove(
                first_match(old(self)@, *value, 0),
            ),
    {
        match self.unlink(value, _pin) {
            Some(o) => {
                proof {
                    let k = choose|k: int| self.took_node(old(self), k, o);
                    assert(self.took_node(old(self), k, o));
                }
                f(o);
                true
            },
            None => false,
        }
    }
}

/// A walk down a list, from the front on.
pub struct Iter<T> {
    node: Ptr<Node<T>>,
    pin: Pin,
    index: Ghost<int>,
}

impl<T> Iter<T> {
    /// The index of the value that comes next.
    pub closed spec fn position(&self) -> int {
        self.index@
    }

    /// The walk stands on the node at its position in `list`, or at the end.
    pub closed spec fn on(&self, list: &List<T>) -> bool {
        &&& 0 <= self.index@ <= list.chain.order().len()
        &&& self.node.spec_as_raw() == target(list.chain.order(), self.index@ - 1)
    }

    /// The next value of the list, or `None` at the end.
    pub fn next<'a>(&mut self, list: &'a List<T>) -> (r: Option<&'a T>)
        requires
            list.wf(),
            old(self).on(list),
        ensures
            final(self).on(list),
            old(self).position() < list@.len() ==> r == Some(&list@[old(self).position()])
                && final(self).position() == old(self).position() + 1,
            old(self).position() >= list@.len() ==> r is None && final(self).position() == old(self).position(),
    {
        proof {
            if self.index@ < list.chain.order().len() {
                lemma_list_at(&list.chain, self.index@);
            }
            if self.index@ + 1 < list.chain.order().len() {
                lemma_list_at(&list.chain, self.index@ + 1);
            }
        }
        if self.node.is_null() {
            None
        } else {
            let data = list.chain.value(self.node);
            self.node = list.chain.load_next(self.node, Ordering::SeqCst);
            proof {
                self.index = Ghost(self.index@ + 1);
            }
            Some(data)
        }
    }

    /// The number of values that the walk has still to come.
    pub fn count(self, list: &List<T>) -> (n: usize)
        requires
            list.wf(),
            self.on(list),
        ensures
            n == list@.len() - self.position(),
    {
        let mut it = self;
        let mut n: usize = 0;
        let cap = list.chain.allocated();
        proof {
            list.chain.lemma_order_bound();
        }
        loop
            invariant
                list.wf(),
                it.on(list),
                0 <= self.position() <= it.position() <= list@.len(),
                n == it.position() - self.position(),
                list@.len() <= cap,
            decreases list@.len() - it.position(),
        {
            match it.next(list) {
                Some(_) => {
                    n += 1;
                },
                None => {
                    return n;
                },
            }
        }
    }
}

impl<T> List<T> {
    /// A walk down the list that starts at the front.
    pub fn iter(&self, pin: Pin) -> (it: Iter<T>)
        requires
            self.wf(),
        ensures
            it.on(self),
            it.position() == 0,
    {
        proof {
            if self.chain.order().len() > 0 {
                lemma_list_at(&self.chain, 0);
            }
            lemma_tag_laws::<Node<T>>(self.chain.first(), 0);
        }
        Iter { node: self.chain.load_head(Ordering::SeqCst), pin: pin, index: Ghost(0) }
    }
}

} // verus!
