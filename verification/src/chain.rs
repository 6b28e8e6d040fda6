//! Nodes in a heap, linked into one chain from a head cell.
//!
//! The queues and the lists of this library are all built from the steps of
//! this file. Each step reads or writes one cell: the head cell, or the link
//! of one node. What a step does to the cell is what the matching operation
//! of [`Atomic`] does; what it does to the chain is stated over the order of
//! the linked nodes.
//!
//! A node of the heap that is not linked is detached. A node is detached
//! before it is linked in and after it was linked out, until it leaves the
//! heap.
use vstd::prelude::*;
use std::sync::atomic::Ordering;
use crate::heap::Heap;
use crate::hp::atomic::{
    Atomic, HazardPtr, Owned, Ptr, spec_raw, spec_with_tag, spec_retire, spec_tick, lemma_tag_laws,
};
use crate::hp::{Garbage, Registry, spec_release};
use crate::node::Node;
use vstd::std_specs::cmp::PartialEqSpec;

verus! {

/// The address of the first node of `order`, or zero where there is none.
pub open spec fn first_of(order: Seq<usize>) -> usize {
    if order.len() > 0 {
        order[0]
    } else {
        0
    }
}

/// The address of the node behind the one at index `i`, or zero where that
/// one is the last.
pub open spec fn target(order: Seq<usize>, i: int) -> usize {
    if i + 1 < order.len() {
        order[i + 1]
    } else {
        0
    }
}

/// The node at index `i` of `order` is in the heap, not at address zero, and
/// its link points to the node behind it.
pub open spec fn link_ok<T>(nodes: Map<usize, Node<T>>, order: Seq<usize>, i: int) -> bool {
    &&& order[i] != 0
    &&& nodes.contains_key(order[i])
    &&& spec_raw::<Node<T>>(nodes[order[i]].next) == target(order, i)
}

/// The word `head` and the links of the nodes lead through the addresses of
/// `order`, one after the other, and end there. No address comes twice.
pub open spec fn linked<T>(nodes: Map<usize, Node<T>>, head: usize, order: Seq<usize>) -> bool {
    &&& spec_raw::<Node<T>>(head) == first_of(order)
    &&& order.no_duplicates()
    &&& forall|i: int| 0 <= i < order.len() ==> #[trigger] link_ok(nodes, order, i)
}

/// The node `node` with the link `next`.
pub open spec fn relinked<T>(node: Node<T>, next: usize) -> Node<T> {
    Node { data: node.data, next: next }
}

/// A chain stays linked while each of its nodes keeps the address part of its
/// link, and the head word the address part of its own.
pub proof fn lemma_frame<T>(
    nodes: Map<usize, Node<T>>,
    after: Map<usize, Node<T>>,
    head: usize,
    head2: usize,
    order: Seq<usize>,
)
    requires
        linked(nodes, head, order),
        spec_raw::<Node<T>>(head2) == spec_raw::<Node<T>>(head),
        forall|i: int|
            0 <= i < order.len() ==> after.contains_key(#[trigger] order[i]) && spec_raw::<Node<T>>(
                after[order[i]].next,
            ) == spec_raw::<Node<T>>(nodes[order[i]].next),
    ensures
        linked(after, head2, order),
{
    assert forall|i: int| 0 <= i < order.len() implies #[trigger] link_ok(after, order, i) by {
        assert(link_ok(nodes, order, i));
    }
}

/// A detached node whose link points to the first node can be linked in
/// before it.
pub proof fn lemma_front<T>(
    nodes: Map<usize, Node<T>>,
    head: usize,
    head2: usize,
    order: Seq<usize>,
    a: usize,
)
    requires
        linked(nodes, head, order),
        nodes.contains_key(a),
        !order.contains(a),
        a != 0,
        spec_raw::<Node<T>>(nodes[a].next) == first_of(order),
        spec_raw::<Node<T>>(head2) == a,
    ensures
        linked(nodes, head2, seq![a] + order),
{
    let o2 = seq![a] + order;
    assert forall|i: int, j: int| 0 <= i < o2.len() && 0 <= j < o2.len() && i != j implies o2[i]
        != o2[j] by {
        if i > 0 {
            assert(o2[i] == order[i - 1]);
        }
        if j > 0 {
            assert(o2[j] == order[j - 1]);
        }
    }
    assert forall|i: int| 0 <= i < o2.len() implies #[trigger] link_ok(nodes, o2, i) by {
        if i > 0 {
            assert(link_ok(nodes, order, i - 1));
            assert(o2[i] == order[i - 1]);
            if i + 1 < o2.len() {
                assert(o2[i + 1] == order[i]);
            }
        } else {
            if order.len() > 0 {
                assert(o2[1] == order[0]);
            }
        }
    }
}

/// A detached node without a successor can be linked in behind the last
/// node.
pub proof fn lemma_append<T>(
    nodes: Map<usize, Node<T>>,
    after: Map<usize, Node<T>>,
    head: usize,
    order: Seq<usize>,
    a: usize,
    word: usize,
)
    requires
        linked(nodes, head, order),
        order.len() > 0,
        nodes.contains_key(a),
        !order.contains(a),
        a != 0,
        spec_raw::<Node<T>>(nodes[a].next) == 0,
        spec_raw::<Node<T>>(word) == a,
        after == nodes.insert(order.last(), relinked(nodes[order.last()], word)),
    ensures
        linked(after, head, order.push(a)),
{
    let o2 = order.push(a);
    let n = order.len() as int;
    assert forall|i: int, j: int| 0 <= i < o2.len() && 0 <= j < o2.len() && i != j implies o2[i]
        != o2[j] by {
        if i < n {
            assert(o2[i] == order[i]);
        }
        if j < n {
            assert(o2[j] == order[j]);
        }
    }
    assert forall|i: int| 0 <= i < o2.len() implies #[trigger] link_ok(after, o2, i) by {
        if i < n {
            assert(link_ok(nodes, order, i));
            assert(o2[i] == order[i]);
            if i + 1 < n {
                assert(o2[i + 1] == order[i + 1]);
                assert(order[i] != order[n - 1]);
            }
        }
    }
}

/// The node at index `i` leaves the chain when the cell before it is made to
/// point to the node behind it. The node stays in the heap, detached.
pub proof fn lemma_out<T>(
    nodes: Map<usize, Node<T>>,
    after: Map<usize, Node<T>>,
    head: usize,
    head2: usize,
    order: Seq<usize>,
    i: int,
    word: usize,
)
    requires
        linked(nodes, head, order),
        0 <= i < order.len(),
        spec_raw::<Node<T>>(word) == target(order, i),
        i == 0 ==> after == nodes && head2 == word,
        i > 0 ==> head2 == head && after == nodes.insert(
            order[i - 1],
            relinked(nodes[order[i - 1]], word),
        ),
    ensures
        linked(after, head2, order.remove(i)),
        after.contains_key(order[i]),
        !order.remove(i).contains(order[i]),
        after[order[i]] == nodes[order[i]],
{
    let o2 = order.remove(i);
    assert(link_ok(nodes, order, i));
    assert forall|x: int, y: int| 0 <= x < o2.len() && 0 <= y < o2.len() && x != y implies o2[x]
        != o2[y] by {
        let xx = if x < i {
            x
        } else {
            x + 1
        };
        let yy = if y < i {
            y
        } else {
            y + 1
        };
        assert(o2[x] == order[xx]);
        assert(o2[y] == order[yy]);
    }
    assert forall|x: int| 0 <= x < o2.len() implies #[trigger] link_ok(after, o2, x) by {
        let xx = if x < i {
            x
        } else {
            x + 1
        };
        assert(o2[x] == order[xx]);
        assert(link_ok(nodes, order, xx));
        if x + 1 < o2.len() {
            let yy = if x + 1 < i {
                x + 1
            } else {
                x + 2
            };
            assert(o2[x + 1] == order[yy]);
        }
        if i > 0 {
            assert(order[xx] != order[i - 1] || xx == i - 1);
        }
    }
    if o2.contains(order[i]) {
        let x = choose|x: int| 0 <= x < o2.len() && o2[x] == order[i];
        let xx = if x < i {
            x
        } else {
            x + 1
        };
        assert(o2[x] == order[xx]);
    }
    if i > 0 {
        assert(order[i] != order[i - 1]);
    }
}

/// In a chain only the last node has a link without an address.
pub proof fn lemma_last<T>(nodes: Map<usize, Node<T>>, head: usize, order: Seq<usize>, i: int)
    requires
        linked(nodes, head, order),
        0 <= i < order.len(),
        spec_raw::<Node<T>>(nodes[order[i]].next) == 0,
    ensures
        i == order.len() - 1,
{
    assert(link_ok(nodes, order, i));
    if i + 1 < order.len() {
        assert(link_ok(nodes, order, i + 1));
    }
}

/// Nodes of one type in a heap, some of them linked into a chain from the
/// head cell.
pub struct Chain<T> {
    head: Atomic<Node<T>>,
    heap: Heap<Node<T>>,
    order: Ghost<Seq<usize>>,
}

impl<T> Chain<T> {
    /// The nodes in the heap, by address.
    pub closed spec fn nodes(&self) -> Map<usize, Node<T>> {
        self.heap@
    }

    /// The addresses of the linked nodes, from the head on.
    pub closed spec fn order(&self) -> Seq<usize> {
        self.order@
    }

    /// The word in the head cell.
    pub closed spec fn first(&self) -> usize {
        self.head@
    }

    /// The address that the next node gets.
    pub closed spec fn frontier(&self) -> usize {
        self.heap.frontier()
    }

    /// Whether the heap can take one more node.
    pub closed spec fn has_room(&self) -> bool {
        self.heap.has_room()
    }

    /// The heap is well formed.
    pub closed spec fn heap_wf(&self) -> bool {
        self.heap.wf()
    }

    /// The heap is well formed, and the head cell and the links lead through
    /// the nodes of `order()`.
    pub open spec fn inv(&self) -> bool {
        &&& self.heap_wf()
        &&& linked(self.nodes(), self.first(), self.order())
    }

    /// Whether `addr` holds a node that is not linked.
    pub open spec fn detached(&self, addr: usize) -> bool {
        self.nodes().contains_key(addr) && !self.order().contains(addr)
    }

    /// No address of the heap is zero, and each lies below the frontier.
    pub proof fn lemma_addresses(&self)
        requires
            self.inv(),
        ensures
            forall|a: usize| #[trigger] self.nodes().contains_key(a) ==> a != 0,
    {
    }

    /// The linked nodes are no more than the nodes of the heap.
    pub proof fn lemma_order_bound(&self)
        requires
            self.inv(),
        ensures
            self.order().len() <= self.nodes().len(),
    {
        self.heap.lemma_finite();
        let order = self.order();
        order.unique_seq_to_set();
        assert forall|a: usize| order.to_set().contains(a) implies self.nodes().dom().contains(
            a,
        ) by {
            let i = choose|i: int| 0 <= i < order.len() && order[i] == a;
            assert(link_ok(self.nodes(), order, i));
        }
        vstd::set_lib::lemma_len_subset(order.to_set(), self.nodes().dom());
    }

    /// An empty heap and an empty chain.
    pub fn new() -> (chain: Self)
        ensures
            chain.inv(),
            chain.nodes() == Map::<usize, Node<T>>::empty(),
            chain.order() == Seq::<usize>::empty(),
            chain.first() == 0,
            chain.has_room(),
    {
        proof {
            lemma_tag_laws::<Node<T>>(0, 0);
            let m = crate::hp::atomic::spec_low_bits::<Node<T>>();
            assert(0usize & !m == 0) by (bit_vector);
        }
        Chain { head: Atomic::null(), heap: Heap::new(), order: Ghost(Seq::empty()) }
    }

    /// Tells whether the heap can take one more node.
    pub fn room(&self) -> (b: bool)
        ensures
            b == self.has_room(),
    {
        self.heap.room()
    }

    /// The number of nodes in the heap, linked or not.
    pub fn allocated(&self) -> (n: usize)
        ensures
            n == self.nodes().len(),
    {
        self.heap.len()
    }

    /// Reads the head cell.
    pub fn load_head(&self, ord: Ordering) -> (p: Ptr<Node<T>>)
        ensures
            p@ == self.first(),
    {
        self.head.load(ord)
    }

    /// Reads the link of the node at `at`.
    pub fn load_next(&self, at: Ptr<Node<T>>, ord: Ordering) -> (p: Ptr<Node<T>>)
        requires
            self.nodes().contains_key(at.spec_as_raw()),
        ensures
            p@ == self.nodes()[at.spec_as_raw()].next,
    {
        let node = self.heap.get(at.as_raw());
        Ptr::from_data(node.next)
    }

    /// Reads the cell before a node: the head cell, or the link of the node at
    /// `prev`.
    pub fn load_cell(&self, prev: Option<Ptr<Node<T>>>, ord: Ordering) -> (p: Ptr<Node<T>>)
        requires
            prev matches Some(q) ==> self.nodes().contains_key(q.spec_as_raw()),
        ensures
            p@ == self.cell(prev),
    {
        match prev {
            None => self.load_head(ord),
            Some(q) => self.load_next(q, ord),
        }
    }

    /// Tells whether the node at `at` holds a value.
    pub fn has_value(&self, at: Ptr<Node<T>>) -> (b: bool)
        requires
            self.nodes().contains_key(at.spec_as_raw()),
        ensures
            b == (self.nodes()[at.spec_as_raw()].data is Some),
    {
        self.heap.get(at.as_raw()).data.is_some()
    }

    /// The value that the node at `at` holds.
    pub fn value(&self, at: Ptr<Node<T>>) -> (v: &T)
        requires
            self.nodes().contains_key(at.spec_as_raw()),
            self.nodes()[at.spec_as_raw()].data is Some,
        ensures
            Some(*v) == self.nodes()[at.spec_as_raw()].data,
    {
        self.heap.get(at.as_raw()).data.as_ref().unwrap()
    }

    /// Puts the node of `node` into the heap, detached, and returns the
    /// pointer to it, with the tag of `node`.
    pub fn adopt(&mut self, node: Owned<Node<T>>) -> (p: Ptr<Node<T>>)
        requires
            old(self).inv(),
            old(self).has_room(),
        ensures
            final(self).inv(),
            final(self).order() == old(self).order(),
            final(self).first() == old(self).first(),
            final(self).nodes() == old(self).nodes().insert(old(self).frontier(), node.value),
            !old(self).nodes().contains_key(old(self).frontier()),
            final(self).detached(old(self).frontier()),
            p.spec_as_raw() == old(self).frontier(),
            p@ == spec_with_tag::<Node<T>>(old(self).frontier(), node.data),
    {
        let p = node.into_ptr(&mut self.heap);
        proof {
            let a = old(self).frontier();
            assert forall|i: int| 0 <= i < self.order().len() implies self.nodes().contains_key(
                #[trigger] self.order()[i],
            ) && self.nodes()[self.order()[i]] == old(self).nodes()[self.order()[i]] by {
                assert(link_ok(old(self).nodes(), old(self).order(), i));
            }
            lemma_frame(
                old(self).nodes(),
                self.nodes(),
                self.first(),
                self.first(),
                self.order(),
            );
            if self.order().contains(a) {
                let i = choose|i: int| 0 <= i < self.order().len() && self.order()[i] == a;
                assert(link_ok(old(self).nodes(), old(self).order(), i));
            }
        }
        p
    }

    /// Writes `new` into the link of the detached node at `at`.
    pub fn store_next(&mut self, at: Ptr<Node<T>>, new: Ptr<Node<T>>, ord: Ordering)
        requires
            old(self).inv(),
            old(self).detached(at.spec_as_raw()),
        ensures
            final(self).inv(),
            final(self).order() == old(self).order(),
            final(self).first() == old(self).first(),
            final(self).frontier() == old(self).frontier(),
            final(self).nodes() == old(self).nodes().insert(
                at.spec_as_raw(),
                relinked(old(self).nodes()[at.spec_as_raw()], new@),
            ),
    {
        let addr = at.as_raw();
        let mut node = self.heap.replace(addr, Node::empty());
        let mut cell = Atomic::<Node<T>>::from_data(node.next);
        cell.store(new, ord);
        node.next = cell.into_data();
        let _ = self.heap.replace(addr, node);
        proof {
            assert(self.nodes() =~= old(self).nodes().insert(
                addr,
                relinked(old(self).nodes()[addr], new@),
            ));
            self.lemma_kept(old(self), addr);
        }
    }

    /// The chain of `prev` stays linked where only the node at `addr` has
    /// changed, and that node has kept the address part of its link or is
    /// detached.
    proof fn lemma_kept(&self, prev: &Self, addr: usize)
        requires
            prev.inv(),
            self.order() == prev.order(),
            spec_raw::<Node<T>>(self.first()) == spec_raw::<Node<T>>(prev.first()),
            self.nodes().dom() =~= prev.nodes().dom(),
            forall|a: usize|
                a != addr && prev.nodes().contains_key(a) ==> #[trigger] self.nodes()[a]
                    == prev.nodes()[a],
            prev.nodes().contains_key(addr),
            prev.order().contains(addr) ==> spec_raw::<Node<T>>(self.nodes()[addr].next)
                == spec_raw::<Node<T>>(prev.nodes()[addr].next),
        ensures
            linked(self.nodes(), self.first(), self.order()),
    {
        assert forall|i: int| 0 <= i < self.order().len() implies self.nodes().contains_key(
            #[trigger] self.order()[i],
        ) && spec_raw::<Node<T>>(self.nodes()[self.order()[i]].next) == spec_raw::<Node<T>>(
            prev.nodes()[self.order()[i]].next,
        ) by {
            assert(link_ok(prev.nodes(), prev.order(), i));
            assert(prev.nodes().dom().contains(self.order()[i]));
            if self.order()[i] != addr {
                assert(self.nodes()[self.order()[i]] == prev.nodes()[self.order()[i]]);
            }
        }
        lemma_frame(prev.nodes(), self.nodes(), prev.first(), self.first(), self.order());
    }

    /// Links the detached node at `new` in at the front: the head cell is set
    /// to `new` if it holds `current`. The link of the node has to point
    /// where `current` points.
    pub fn cas_head_in(&mut self, current: Ptr<Node<T>>, new: Ptr<Node<T>>, ord: Ordering) -> (r:
        Result<(), Ptr<Node<T>>>)
        requires
            old(self).inv(),
            old(self).detached(new.spec_as_raw()),
            spec_raw::<Node<T>>(old(self).nodes()[new.spec_as_raw()].next)
                == current.spec_as_raw(),
        ensures
            final(self).inv(),
            final(self).nodes() == old(self).nodes(),
            final(self).frontier() == old(self).frontier(),
            old(self).first() == current@ ==> r is Ok && final(self).first() == new@ && final(self).order() == seq![new.spec_as_raw()] + old(self).order(),
            old(self).first() != current@ ==> final(self).first() == old(self).first() && final(self).order() == old(self).order() && (r matches Err(p) && p@ == old(self).first()),
    {
        let r = self.head.compare_and_set(current, new, ord);
        proof {
            if r is Ok {
                lemma_front(
                    old(self).nodes(),
                    old(self).first(),
                    new@,
                    old(self).order(),
                    new.spec_as_raw(),
                );
                self.order = Ghost(seq![new.spec_as_raw()] + old(self).order());
            }
        }
        r
    }

    /// Changes the tag of the link of the node at `at`: the link is set to
    /// `new` if it holds `current`. The two point to the same address.
    pub fn cas_next_tag(
        &mut self,
        at: Ptr<Node<T>>,
        current: Ptr<Node<T>>,
        new: Ptr<Node<T>>,
        ord: Ordering,
    ) -> (r: Result<(), Ptr<Node<T>>>)
        requires
            old(self).inv(),
            old(self).nodes().contains_key(at.spec_as_raw()),
            new.spec_as_raw() == current.spec_as_raw(),
        ensures
            final(self).inv(),
            final(self).order() == old(self).order(),
            final(self).first() == old(self).first(),
            final(self).frontier() == old(self).frontier(),
            old(self).nodes()[at.spec_as_raw()].next == current@ ==> r is Ok && final(self).nodes()
                == old(self).nodes().insert(
                at.spec_as_raw(),
                relinked(old(self).nodes()[at.spec_as_raw()], new@),
            ),
            old(self).nodes()[at.spec_as_raw()].next != current@ ==> final(self).nodes() == old(self).nodes() && (r matches Err(p) && p@ == old(self).nodes()[at.spec_as_raw()].next),
    {
        let addr = at.as_raw();
        let mut node = self.heap.replace(addr, Node::empty());
        let mut cell = Atomic::<Node<T>>::from_data(node.next);
        let r = cell.compare_and_set(current, new, ord);
        node.next = cell.into_data();
        let _ = self.heap.replace(addr, node);
        proof {
            if r is Ok {
                assert(self.nodes() =~= old(self).nodes().insert(
                    addr,
                    relinked(old(self).nodes()[addr], new@),
                ));
            } else {
                assert(self.nodes() =~= old(self).nodes());
            }
            self.lemma_kept(old(self), addr);
        }
        r
    }

    /// Links the node at index `i` out: the cell before it (the head cell, or
    /// the link of the node at `prev`) is set to `new` if it holds `current`.
    /// `current` points to that node and `new` to the one behind it.
    pub fn cas_out(
        &mut self,
        prev: Option<Ptr<Node<T>>>,
        current: Ptr<Node<T>>,
        new: Ptr<Node<T>>,
        ord: Ordering,
        Ghost(i): Ghost<int>,
    ) -> (r: Result<(), Ptr<Node<T>>>)
        requires
            old(self).inv(),
            0 <= i < old(self).order().len(),
            current.spec_as_raw() == old(self).order()[i],
            new.spec_as_raw() == target(old(self).order(), i),
            i == 0 <==> prev is None,
            prev matches Some(p) ==> p.spec_as_raw() == old(self).order()[i - 1],
        ensures
            final(self).inv(),
            final(self).frontier() == old(self).frontier(),
            old(self).cell(prev) == current@ ==> {
                &&& r is Ok
                &&& final(self).order() == old(self).order().remove(i)
                &&& final(self).detached(old(self).order()[i])
                &&& final(self).cell(prev) == new@
                &&& prev is None ==> final(self).nodes() == old(self).nodes()
                &&& prev matches Some(p) ==> final(self).first() == old(self).first() && final(self).nodes() == old(self).nodes().insert(
                    p.spec_as_raw(),
                    relinked(old(self).nodes()[p.spec_as_raw()], new@),
                )
            },
            old(self).cell(prev) != current@ ==> {
                &&& r matches Err(p) && p@ == old(self).cell(prev)
                &&& final(self).order() == old(self).order()
                &&& final(self).nodes() == old(self).nodes()
                &&& final(self).first() == old(self).first()
            },
    {
        match prev {
            None => {
                let r = self.head.compare_and_set(current, new, ord);
                proof {
                    if r is Ok {
                        lemma_out(
                            old(self).nodes(),
                            self.nodes(),
                            old(self).first(),
                            new@,
                            old(self).order(),
                            i,
                            new@,
                        );
                        self.order = Ghost(old(self).order().remove(i));
                    }
                }
                r
            },
            Some(p) => {
                let addr = p.as_raw();
                proof {
                    assert(link_ok(old(self).nodes(), old(self).order(), i - 1));
                }
                let mut node = self.heap.replace(addr, Node::empty());
                let mut cell = Atomic::<Node<T>>::from_data(node.next);
                let r = cell.compare_and_set(current, new, ord);
                node.next = cell.into_data();
                let _ = self.heap.replace(addr, node);
                proof {
                    if r is Ok {
                        assert(self.nodes() =~= old(self).nodes().insert(
                            addr,
                            relinked(old(self).nodes()[addr], new@),
                        ));
                        lemma_out(
                            old(self).nodes(),
                            self.nodes(),
                            old(self).first(),
                            old(self).first(),
                            old(self).order(),
                            i,
                            new@,
                        );
                        self.order = Ghost(old(self).order().remove(i));
                    } else {
                        assert(self.nodes() =~= old(self).nodes());
                    }
                }
                r
            },
        }
    }

    /// The word in the cell before a node: the head cell, or the link of the
    /// node at `prev`.
    pub open spec fn cell(&self, prev: Option<Ptr<Node<T>>>) -> usize {
        match prev {
            None => self.first(),
            Some(p) => self.nodes()[p.spec_as_raw()].next,
        }
    }

    /// Links the detached node at `new` in behind the node at `last`: the
    /// link of that node is set to `new` if it is null. The node at `new` has
    /// no successor.
    pub fn cas_tail_in(&mut self, last: Ptr<Node<T>>, new: Ptr<Node<T>>, ord: Ordering) -> (r:
        Result<(), Ptr<Node<T>>>)
        requires
            old(self).inv(),
            old(self).order().contains(last.spec_as_raw()),
            old(self).detached(new.spec_as_raw()),
            spec_raw::<Node<T>>(old(self).nodes()[new.spec_as_raw()].next) == 0,
        ensures
            final(self).inv(),
            final(self).first() == old(self).first(),
            final(self).frontier() == old(self).frontier(),
            old(self).nodes()[last.spec_as_raw()].next == 0 ==> {
                &&& r is Ok
                &&& last.spec_as_raw() == old(self).order().last()
                &&& final(self).order() == old(self).order().push(new.spec_as_raw())
                &&& final(self).nodes() == old(self).nodes().insert(
                    last.spec_as_raw(),
                    relinked(old(self).nodes()[last.spec_as_raw()], new@),
                )
            },
            old(self).nodes()[last.spec_as_raw()].next != 0 ==> {
                &&& r matches Err(p) && p@ == old(self).nodes()[last.spec_as_raw()].next
                &&& final(self).order() == old(self).order()
                &&& final(self).nodes() == old(self).nodes()
            },
    {
        let addr = last.as_raw();
        let ghost k = choose|k: int|
            0 <= k < old(self).order().len() && old(self).order()[k] == last.spec_as_raw();
        proof {
            assert(link_ok(old(self).nodes(), old(self).order(), k));
            self.lemma_addresses();
        }
        let mut node = self.heap.replace(addr, Node::empty());
        let mut cell = Atomic::<Node<T>>::from_data(node.next);
        let r = cell.compare_and_set(Ptr::null(), new, ord);
        node.next = cell.into_data();
        let _ = self.heap.replace(addr, node);
        proof {
            if r is Ok {
                lemma_tag_laws::<Node<T>>(0, 0);
                let m = crate::hp::atomic::spec_low_bits::<Node<T>>();
                assert(0usize & !m == 0) by (bit_vector);
                lemma_last(old(self).nodes(), old(self).first(), old(self).order(), k);
                assert(self.nodes() =~= old(self).nodes().insert(
                    addr,
                    relinked(old(self).nodes()[addr], new@),
                ));
                lemma_append(
                    old(self).nodes(),
                    self.nodes(),
                    old(self).first(),
                    old(self).order(),
                    new.spec_as_raw(),
                    new@,
                );
                self.order = Ghost(old(self).order().push(new.spec_as_raw()));
            } else {
                assert(self.nodes() =~= old(self).nodes());
            }
        }
        r
    }

    /// Takes the value out of the node at `at`. The node stays where it is.
    pub fn take_data(&mut self, at: Ptr<Node<T>>) -> (data: Option<T>)
        requires
            old(self).inv(),
            old(self).nodes().contains_key(at.spec_as_raw()),
        ensures
            final(self).inv(),
            final(self).order() == old(self).order(),
            final(self).first() == old(self).first(),
            final(self).frontier() == old(self).frontier(),
            data == old(self).nodes()[at.spec_as_raw()].data,
            final(self).nodes() == old(self).nodes().insert(
                at.spec_as_raw(),
                (Node { data: None, next: old(self).nodes()[at.spec_as_raw()].next }),
            ),
    {
        let addr = at.as_raw();
        let node = self.heap.replace(addr, Node::empty());
        let Node { data, next } = node;
        let _ = self.heap.replace(addr, Node { data: None, next: next });
        proof {
            assert(self.nodes() =~= old(self).nodes().insert(
                addr,
                (Node { data: None, next: old(self).nodes()[addr].next }),
            ));
            self.lemma_kept(old(self), addr);
        }
        data
    }

    /// Takes the detached node at `at` out of the heap. The owned node keeps
    /// the word of `at`.
    pub fn evict(&mut self, at: Ptr<Node<T>>) -> (o: Owned<Node<T>>)
        requires
            old(self).inv(),
            old(self).detached(at.spec_as_raw()),
        ensures
            final(self).inv(),
            final(self).order() == old(self).order(),
            final(self).first() == old(self).first(),
            final(self).frontier() == old(self).frontier(),
            final(self).nodes() == old(self).nodes().remove(at.spec_as_raw()),
            o.data == at@,
            o.value == old(self).nodes()[at.spec_as_raw()],
    {
        let o = at.into_owned(&mut self.heap);
        proof {
            assert forall|i: int| 0 <= i < self.order().len() implies self.nodes().contains_key(
                #[trigger] self.order()[i],
            ) && self.nodes()[self.order()[i]] == old(self).nodes()[self.order()[i]] by {
                assert(link_ok(old(self).nodes(), old(self).order(), i));
            }
            lemma_frame(
                old(self).nodes(),
                self.nodes(),
                self.first(),
                self.first(),
                self.order(),
            );
        }
        o
    }

    /// Takes the chain apart, from the head on. Each linked node leaves the
    /// heap, once. The first `skip` nodes are let go with what they hold; the
    /// values of the others are handed out, in the order of the chain. The
    /// detached nodes go with the heap.
    pub fn dissolve(self, skip: usize) -> (out: Vec<T>)
        requires
            self.inv(),
            skip <= self.order().len(),
            tidy(self.nodes(), self.first(), self.order(), skip as int),
        ensures
            out@ == contents(self.nodes(), self.order(), skip as int),
    {
        let ghost nodes = self.nodes();
        let ghost order = self.order();
        proof {
            self.lemma_order_bound();
        }
        let Chain { head, mut heap, order: _ } = self;
        let total = heap.len();
        let ghost first = head@;
        let mut out: Vec<T> = Vec::new();
        let mut ptr = Ptr::from_data(head.into_data());
        let mut i: usize = 0;
        proof {
            assert forall|j: int| 0 <= j < order.len() implies heap@.contains_key(
                #[trigger] order[j],
            ) by {
                assert(link_ok(nodes, order, j));
            }
        }
        while !ptr.is_null()
            invariant
                heap.wf(),
                linked(nodes, first, order),
                tidy(nodes, first, order, skip as int),
                skip <= order.len() <= total,
                i <= order.len(),
                ptr.spec_as_raw() == target(order, i - 1),
                forall|j: int|
                    i <= j < order.len() ==> heap@.contains_key(#[trigger] order[j]) && heap@[order[j]]
                        == nodes[order[j]],
                i <= skip ==> out@.len() == 0,
                i > skip ==> out@.len() == i - skip,
                forall|j: int| 0 <= j < out@.len() ==> out@[j] == data_at(nodes, order, j + skip)->0,
            decreases order.len() - i,
        {
            proof {
                assert(link_ok(nodes, order, i as int));
            }
            let node = ptr.into_owned(&mut heap).into_inner();
            let Node { data, next } = node;
            proof {
                assert forall|j: int| i + 1 <= j < order.len() implies heap@.contains_key(
                    #[trigger] order[j],
                ) && heap@[order[j]] == nodes[order[j]] by {
                    assert(order[j] != order[i as int]);
                }
            }
            if i >= skip {
                proof {
                    assert(node_tidy(nodes, order, i as int));
                }
                match data {
                    Some(value) => out.push(value),
                    None => {},
                }
            }
            ptr = Ptr::from_data(next);
            i += 1;
        }
        proof {
            if i < order.len() {
                assert(link_ok(nodes, order, i as int));
            }
            assert(out@ =~= contents(nodes, order, skip as int));
        }
        out
    }
}

} // verus!

verus! {

/// The node at index `i` of `order` holds a value, and its link has no tag.
pub open spec fn node_tidy<T>(nodes: Map<usize, Node<T>>, order: Seq<usize>, i: int) -> bool {
    &&& nodes[order[i]].data is Some
    &&& crate::hp::atomic::spec_tag::<Node<T>>(nodes[order[i]].next) == 0
}

/// Every node of `order` from index `from` on holds a value and has a link
/// without a tag, and `head` has no tag.
pub open spec fn tidy<T>(nodes: Map<usize, Node<T>>, head: usize, order: Seq<usize>, from: int) -> bool {
    &&& crate::hp::atomic::spec_tag::<Node<T>>(head) == 0
    &&& forall|i: int| from <= i < order.len() ==> #[trigger] node_tidy(nodes, order, i)
}

/// What the node at index `i` of `order` holds.
pub open spec fn data_at<T>(nodes: Map<usize, Node<T>>, order: Seq<usize>, i: int) -> Option<T> {
    nodes[order[i]].data
}

/// The values that the nodes of `order` hold from index `from` on.
pub open spec fn contents<T>(nodes: Map<usize, Node<T>>, order: Seq<usize>, from: int) -> Seq<T> {
    Seq::new((order.len() - from) as nat, |i: int| data_at(nodes, order, i + from)->0)
}

/// The first index from `from` on at which `s` holds a value equal to `v`,
/// or the length of `s` if there is none.
pub open spec fn first_match<T: PartialEq>(s: Seq<T>, v: T, from: int) -> int
    decreases s.len() - from,
{
    if from < 0 || from >= s.len() {
        s.len() as int
    } else if s[from].eq_spec(&v) {
        from
    } else {
        first_match(s, v, from + 1)
    }
}

/// Whether every value of `s` from index `from` on meets `f`.
pub open spec fn all_meet<T, F: Fn(&T) -> bool>(s: Seq<T>, f: F, from: int) -> bool {
    forall|i: int| from <= i < s.len() ==> call_ensures(f, (&#[trigger] s[i],), true)
}

} // verus!

verus! {

/// When the node at index `i` leaves `order` and the other nodes keep their
/// values, the contents lose the value at that index and nothing else.
pub proof fn lemma_contents_out<T>(
    n1: Map<usize, Node<T>>,
    n2: Map<usize, Node<T>>,
    order: Seq<usize>,
    i: int,
    from: int,
)
    requires
        0 <= from <= i < order.len(),
        forall|k: int|
            from <= k < order.len() && k != i ==> #[trigger] data_at(n2, order, k) == data_at(
                n1,
                order,
                k,
            ),
    ensures
        contents(n2, order.remove(i), from) == contents(n1, order, from).remove(i - from),
{
    let a = contents(n2, order.remove(i), from);
    let b = contents(n1, order, from).remove(i - from);
    assert(a.len() == b.len());
    assert forall|k: int| 0 <= k < a.len() implies a[k] == b[k] by {
        if k + from < i {
            assert(order.remove(i)[k + from] == order[k + from]);
            assert(data_at(n2, order, k + from) == data_at(n1, order, k + from));
        } else {
            assert(order.remove(i)[k + from] == order[k + from + 1]);
            assert(data_at(n2, order, k + from + 1) == data_at(n1, order, k + from + 1));
        }
    }
    assert(a =~= b);
}

/// Nodes that keep what they hold keep the contents.
pub proof fn lemma_contents_same<T>(
    n1: Map<usize, Node<T>>,
    n2: Map<usize, Node<T>>,
    order: Seq<usize>,
    from: int,
)
    requires
        0 <= from <= order.len(),
        forall|k: int|
            from <= k < order.len() ==> #[trigger] data_at(n2, order, k) == data_at(n1, order, k),
    ensures
        contents(n2, order, from) == contents(n1, order, from),
{
    let a = contents(n2, order, from);
    let b = contents(n1, order, from);
    assert forall|k: int| 0 <= k < a.len() implies a[k] == b[k] by {
        assert(data_at(n2, order, k + from) == data_at(n1, order, k + from));
    }
    assert(a =~= b);
}

} // verus!

verus! {

impl<T> Chain<T> {
    /// Retires the detached node that `hp` claims: the claim is given back,
    /// the node leaves the heap for the queue of `reg`, and the retirement is
    /// counted, which at every `SWEEP_PERIOD`-th time sweeps that queue.
    pub fn free_hazard(
        &mut self,
        hp: HazardPtr<Node<T>>,
        reg: &mut Registry<Node<T>>,
        thread: usize,
    )
        requires
            old(self).inv(),
            old(self).detached(spec_raw::<Node<T>>(hp@)),
            old(reg).wf(),
            old(reg).registered(thread),
        ensures
            final(self).inv(),
            final(self).order() == old(self).order(),
            final(self).first() == old(self).first(),
            final(self).frontier() == old(self).frontier(),
            final(self).nodes() == old(self).nodes().remove(spec_raw::<Node<T>>(hp@)),
            final(reg).wf(),
            final(reg).registered(thread),
            final(reg).same_others(old(reg), thread),
            final(reg).slots(thread) == spec_release(old(reg).slots(thread), hp@),
            final(reg).deferred() == spec_retire(
                old(reg).deferred(),
                Garbage(
                    (Owned { data: hp@, value: old(self).nodes()[spec_raw::<Node<T>>(hp@)] }),
                    hp@,
                ),
                old(reg).pace(thread),
                final(reg).hazards(),
            ),
            final(reg).pace(thread) == spec_tick(old(reg).pace(thread)),
    {
        hp.free(reg, thread, &mut self.heap);
        proof {
            assert forall|i: int| 0 <= i < self.order().len() implies self.nodes().contains_key(
                #[trigger] self.order()[i],
            ) && self.nodes()[self.order()[i]] == old(self).nodes()[self.order()[i]] by {
                assert(link_ok(old(self).nodes(), old(self).order(), i));
            }
            lemma_frame(
                old(self).nodes(),
                self.nodes(),
                self.first(),
                self.first(),
                self.order(),
            );
        }
    }
}

} // verus!
