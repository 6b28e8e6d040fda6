//! A linked list that reclaims nothing.
use vstd::prelude::*;
use std::sync::atomic::Ordering;
use crate::chain::{
    Chain, contents, data_at, tidy, node_tidy, link_ok, first_match, lemma_contents_out, lemma_contents_same,
};
use crate::hp::atomic::{Owned, Ptr, lemma_zero, lemma_tag_laws};
use vstd::std_specs::cmp::PartialEqSpec;

pub use crate::node::Node;

verus! {

/// A list of values. New values go to the front.
pub struct List<T> {
    chain: Chain<T>,
}

impl<T> View for List<T> {
    type V = Seq<T>;

    /// The values, from the front on.
    closed spec fn view(&self) -> Seq<T> {
        contents(self.chain.nodes(), self.chain.order(), 0)
    }
}

impl<T> List<T> {
    /// The nodes are linked from the head, each holds a value, and no link
    /// carries a mark.
    pub closed spec fn wf(&self) -> bool {
        &&& self.chain.inv()
        &&& tidy(self.chain.nodes(), self.chain.first(), self.chain.order(), 0)
    }

    /// Whether the heap of the list can take one more node.
    pub closed spec fn has_room(&self) -> bool {
        self.chain.has_room()
    }

    /// An empty list.
    pub fn new() -> (list: Self)
        ensures
            list.wf(),
            list@ == Seq::<T>::empty(),
    {
        proof {
            lemma_zero::<Node<T>>(0);
        }
        let list = List { chain: Chain::new() };
        assert(list@ =~= Seq::<T>::empty());
        list
    }

    /// Ends the list. Each node leaves the heap, once, from the head on, and
    /// the values that the list still held are handed out, the first of the
    /// list first, for the caller to let go.
    pub fn drop(self) -> (values: Vec<T>)
        requires
            self.wf(),
        ensures
            values@ == self@,
    {
        self.chain.dissolve(0)
    }

    /// Tells whether the heap of the list can take one more node.
    pub fn room(&self) -> (b: bool)
        ensures
            b == self.has_room(),
    {
        self.chain.room()
    }

    /// Puts `data` at the front of the list.
    pub fn insert(&mut self, data: T)
        requires
            old(self).wf(),
            old(self).has_room(),
        ensures
            final(self).wf(),
            final(self)@ == seq![data] + old(self)@,
    {
        let curr_ptr = self.chain.adopt(Owned::new(Node::new(data)));
        let mut head = self.chain.load_head(Ordering::SeqCst);
        let ghost mid = *self;
        proof {
            lemma_zero::<Node<T>>(old(self).chain.frontier());
            lemma_tag_laws::<Node<T>>(old(self).chain.frontier(), 0);
            self.chain.lemma_addresses();
        }
        loop
            invariant
                self.chain.inv(),
                self.chain.order() == old(self).chain.order(),
                self.chain.first() == old(self).chain.first(),
                head@ == self.chain.first(),
                curr_ptr@ == old(self).chain.frontier(),
                curr_ptr.spec_as_raw() == old(self).chain.frontier(),
                self.chain.detached(curr_ptr.spec_as_raw()),
                !old(self).chain.nodes().contains_key(curr_ptr.spec_as_raw()),
                self.chain.nodes().dom() =~= mid.chain.nodes().dom(),
                forall|a: usize|
                    a != curr_ptr.spec_as_raw() && #[trigger] old(self).chain.nodes().contains_key(a)
                        ==> self.chain.nodes()[a] == old(self).chain.nodes()[a],
                mid.chain.nodes() == old(self).chain.nodes().insert(
                    curr_ptr.spec_as_raw(),
                    (Node { data: Some(data), next: 0 }),
                ),
                self.chain.nodes()[curr_ptr.spec_as_raw()].data == Some(data),
                crate::hp::atomic::spec_tag::<Node<T>>(curr_ptr@) == 0,
                old(self).wf(),
            decreases 0int,
        {
            self.chain.store_next(curr_ptr, head, Ordering::SeqCst);
            let res = self.chain.cas_head_in(head, curr_ptr, Ordering::SeqCst);
            match res {
                Ok(_) => {
                    proof {
                        let o1 = old(self).chain.order();
                        let o2 = self.chain.order();
                        let n1 = old(self).chain.nodes();
                        let n2 = self.chain.nodes();
                        assert forall|i: int| 0 <= i < o2.len() implies #[trigger] node_tidy(
                            n2,
                            o2,
                            i,
                        ) by {
                            if i > 0 {
                                assert(o2[i] == o1[i - 1]);
                                assert(node_tidy(n1, o1, i - 1));
                                assert(link_ok(n1, o1, i - 1));
                            } else {
                                assert(o2[0] == curr_ptr.spec_as_raw());
                                assert(n2[o2[0]].next == head@);
                            }
                        }
                        assert(self@ =~= seq![data] + old(self)@) by {
                            assert forall|i: int| 0 <= i < o2.len() implies self@[i] == (seq![data]
                                + old(self)@)[i] by {
                                if i > 0 {
                                    assert(o2[i] == o1[i - 1]);
                                    assert(link_ok(n1, o1, i - 1));
                                }
                            }
                        }
                    }
                    return ;
                },
                Err(new_head) => {
                    head = new_head;
                },
            }
        }
    }

    /// Tells whether the list holds no value.
    pub fn is_empty(&self) -> (b: bool)
        requires
            self.wf(),
        ensures
            b == (self@.len() == 0),
    {
        let head = self.chain.load_head(Ordering::SeqCst);
        proof {
            if self.chain.order().len() > 0 {
                assert(link_ok(self.chain.nodes(), self.chain.order(), 0));
            }
        }
        head.is_null()
    }

    /// Takes the first value off the list.
    pub fn remove_front(&mut self) -> (r: Option<T>)
        requires
            old(self).wf(),
        ensures
            final(self).wf(),
            old(self)@.len() == 0 ==> r is None && final(self)@ == old(self)@,
            old(self)@.len() > 0 ==> r == Some(old(self)@[0]) && final(self)@ == old(self)@.drop_first(),
    {
        let mut head_ptr = self.chain.load_head(Ordering::SeqCst);
        loop
            invariant
                old(self).wf(),
                *self == *old(self),
                head_ptr@ == self.chain.first(),
            decreases 0int,
        {
            proof {
                if self.chain.order().len() > 0 {
                    assert(link_ok(self.chain.nodes(), self.chain.order(), 0));
                    assert(node_tidy(self.chain.nodes(), self.chain.order(), 0));
                }
            }
            if head_ptr.is_null() {
                return None;
            }
            let next = self.chain.load_next(head_ptr, Ordering::SeqCst);
            if next.tag() != 0 {
                head_ptr = self.chain.load_head(Ordering::SeqCst);
                continue ;
            }
            let tag_res = self.chain.cas_next_tag(
                head_ptr,
                next,
                next.with_tag(1),
                Ordering::SeqCst,
            );
            if tag_res.is_err() {
                continue ;
            }
            match self.chain.cas_out(None, head_ptr, next, Ordering::SeqCst, Ghost(0)) {
                Ok(()) => {
                    let data = self.chain.take_data(head_ptr);
                    proof {
                        self.lemma_after_out(old(self), 0);
                    }
                    return data;
                },
                Err(new_head) => {
                    let _res = self.chain.cas_next_tag(
                        head_ptr,
                        next.with_tag(1),
                        next,
                        Ordering::SeqCst,
                    );
                    head_ptr = new_head;
                },
            }
        }
    }

    /// The list is well formed again once the node at index `i` was marked,
    /// linked out and emptied, and it has lost the value of that node.
    proof fn lemma_after_out(&self, prev: &Self, i: int)
        requires
            prev.wf(),
            self.chain.inv(),
            0 <= i < prev.chain.order().len(),
            self.chain.order() == prev.chain.order().remove(i),
            crate::hp::atomic::spec_tag::<Node<T>>(self.chain.first()) == 0,
            forall|k: int|
                0 <= k < prev.chain.order().len() && k != i && k != i - 1
                    ==> self.chain.nodes()[#[trigger] prev.chain.order()[k]]
                    == prev.chain.nodes()[prev.chain.order()[k]],
            i > 0 ==> self.chain.nodes()[prev.chain.order()[i - 1]].data
                == prev.chain.nodes()[prev.chain.order()[i - 1]].data
                && crate::hp::atomic::spec_tag::<Node<T>>(
                self.chain.nodes()[prev.chain.order()[i - 1]].next,
            ) == 0,
        ensures
            self.wf(),
            self@ == prev@.remove(i),
    {
        let o1 = prev.chain.order();
        let o2 = self.chain.order();
        let n1 = prev.chain.nodes();
        let n2 = self.chain.nodes();
        assert forall|k: int| 0 <= k < o2.len() implies #[trigger] node_tidy(n2, o2, k) by {
            let kk = if k < i {
                k
            } else {
                k + 1
            };
            assert(o2[k] == o1[kk]);
            assert(node_tidy(n1, o1, kk));
        }
        assert forall|k: int| 0 <= k < o1.len() && k != i implies #[trigger] data_at(n2, o1, k)
            == data_at(n1, o1, k) by {
            if k != i - 1 {
                assert(n2[o1[k]] == n1[o1[k]]);
            }
        }
        lemma_contents_out(n1, n2, o1, i, 0);
    }
}

impl<T: PartialEq> List<T> {
    /// Tells whether the list holds a value equal to `value`.
    pub fn contains(&self, value: &T) -> (b: bool)
        requires
            self.wf(),
        ensures
            T::obeys_eq_spec() ==> b == (first_match(self@, *value, 0) < self@.len()),
    {
        loop
            invariant
                self.wf(),
            decreases 0int,
        {
            let mut node_ptr = self.chain.load_head(Ordering::SeqCst);
            let ghost mut i: int = 0;
            while !node_ptr.is_null()
                invariant
                    self.wf(),
                    0 <= i <= self.chain.order().len(),
                    node_ptr.spec_as_raw() == crate::chain::target(self.chain.order(), i - 1),
                    T::obeys_eq_spec() ==> first_match(self@, *value, 0) == first_match(
                        self@,
                        *value,
                        i,
                    ),
                ensures
                    node_ptr.spec_is_null(),
                decreases self.chain.order().len() - i,
            {
                proof {
                    if i < self.chain.order().len() {
                        assert(link_ok(self.chain.nodes(), self.chain.order(), i));
                        assert(node_tidy(self.chain.nodes(), self.chain.order(), i));
                    }
                }
                if *self.chain.value(node_ptr) == *value {
                    return true;
                }
                node_ptr = self.chain.load_next(node_ptr, Ordering::SeqCst);
                if node_ptr.tag() != 0 {
                    // Marked: the node is being removed. Start again.
                    break ;
                }
                proof {
                    i = i + 1;
                }
            }
            proof {
                if i < self.chain.order().len() {
                    assert(link_ok(self.chain.nodes(), self.chain.order(), i));
                }
            }
            return false;
        }
    }

    /// Takes the first value that is equal to `value` out of the list.
    pub fn remove(&mut self, value: &T) -> (r: Option<T>)
        requires
            old(self).wf(),
        ensures
            final(self).wf(),
            r is None ==> final(self)@ == old(self)@,
            r matches Some(v) ==> exists|k: int|
                0 <= k < old(self)@.len() && v == old(self)@[k] && final(self)@ == old(self)@.remove(k),
            T::obeys_eq_spec() ==> {
                let k = first_match(old(self)@, *value, 0);
                &&& k < old(self)@.len() ==> r == Some(old(self)@[k]) && final(self)@ == old(self)@.remove(k)
                &&& k >= old(self)@.len() ==> r is None
            },
    {
        loop
            invariant
                old(self).wf(),
                *self == *old(self),
            decreases 0int,
        {
            let mut prev: Option<Ptr<Node<T>>> = None;
            let mut current_ptr = self.chain.load_head(Ordering::SeqCst);
            proof {
                if self.chain.order().len() > 0 {
                    assert(link_ok(self.chain.nodes(), self.chain.order(), 0));
                }
            }
            if current_ptr.is_null() {
                return None;
            }
            let ghost mut i: int = 0;
            loop
                invariant
                    old(self).wf(),
                    *self == *old(self),
                    0 <= i < self.chain.order().len(),
                    current_ptr.spec_as_raw() == self.chain.order()[i],
                    current_ptr@ == self.chain.cell(prev),
                    crate::hp::atomic::spec_tag::<Node<T>>(current_ptr@) == 0,
                    i == 0 <==> prev is None,
                    prev matches Some(p) ==> p.spec_as_raw() == self.chain.order()[i - 1],
                    T::obeys_eq_spec() ==> first_match(self@, *value, 0) == first_match(
                        self@,
                        *value,
                        i,
                    ),
                ensures
                    self.chain.cell(prev) != current_ptr@ || crate::hp::atomic::spec_tag::<Node<T>>(
                        current_ptr@,
                    ) != 0,
                decreases self.chain.order().len() - i,
            {
                proof {
                    assert(link_ok(self.chain.nodes(), self.chain.order(), i));
                    assert(node_tidy(self.chain.nodes(), self.chain.order(), i));
                    lemma_zero::<Node<T>>(self.chain.nodes()[self.chain.order()[i]].next);
                    lemma_zero::<Node<T>>(current_ptr@);
                }
                if *self.chain.value(current_ptr) == *value {
                    let next_ptr = self.chain.load_next(current_ptr, Ordering::SeqCst).with_tag(0);
                    if self.chain.cas_next_tag(
                        current_ptr,
                        next_ptr,
                        next_ptr.with_tag(1),
                        Ordering::SeqCst,
                    ).is_err() {
                        // The mark failed. Start again.
                        break ;
                    }
                    proof {
                        if i > 0 {
                            assert(link_ok(old(self).chain.nodes(), old(self).chain.order(), i - 1));
                        }
                    }
                    let res = self.chain.cas_out(
                        prev,
                        current_ptr.with_tag(0),
                        next_ptr,
                        Ordering::SeqCst,
                        Ghost(i),
                    );
                    match res {
                        Ok(_) => {
                            let data = self.chain.take_data(current_ptr);
                            proof {
                                self.lemma_after_out(old(self), i);
                                assert(data == Some(old(self)@[i]));
                            }
                            return data;
                        },
                        Err(_) => {
                            let _res = self.chain.cas_next_tag(
                                current_ptr,
                                next_ptr.with_tag(1),
                                next_ptr,
                                Ordering::SeqCst,
                            );
                            break ;
                        },
                    }
                } else {
                    proof {
                        assert(self@[i] == self.chain.nodes()[self.chain.order()[i]].data->0);
                        assert(T::obeys_eq_spec() ==> first_match(self@, *value, i) == first_match(
                            self@,
                            *value,
                            i + 1,
                        ));
                    }
                    prev = Some(current_ptr);
                    current_ptr = self.chain.load_next(current_ptr, Ordering::SeqCst);
                    if current_ptr.tag() != 0 {
                        // Marked: the node is being removed. Start again.
                        break ;
                    }
                    proof {
                        if i + 1 < self.chain.order().len() {
                            assert(link_ok(self.chain.nodes(), self.chain.order(), i + 1));
                        }
                    }
                    if current_ptr.is_null() {
                        return None;
                    }
                    proof {
                        i = i + 1;
                    }
                }
            }
        }
    }
}

} // verus!
