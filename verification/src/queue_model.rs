//! What a Michael-Scott queue is, whatever reclaims its nodes.
//!
//! The queue is a chain that starts with a sentinel: a node whose value is
//! not part of the queue. A push links a node in behind the last one. A pop
//! links the sentinel out, and the node behind it gives its value up and is
//! the sentinel from then on.
use vstd::prelude::*;
use crate::chain::{Chain, contents, data_at, tidy, node_tidy, link_ok};
use crate::hp::atomic::{spec_raw, spec_tag, lemma_zero, lemma_tag_laws};
use crate::node::Node;

verus! {

/// What a queue holds once `t` was pushed onto one that held `s`.
pub open spec fn spec_push<T>(s: Seq<T>, t: T) -> Seq<T> {
    s.push(t)
}

/// What a pop hands out from a queue that holds `s`, and what the queue
/// holds after it.
pub open spec fn spec_pop<T>(s: Seq<T>) -> (Option<T>, Seq<T>) {
    if s.len() == 0 {
        (None, s)
    } else {
        (Some(s[0]), s.drop_first())
    }
}

/// The chain of a queue at rest: it starts with the sentinel, every node
/// behind the sentinel holds a value, no link carries a tag, and the tail
/// cell points to the last node.
pub open spec fn queue_wf<T>(chain: &Chain<T>, tail: usize) -> bool {
    &&& chain.inv()
    &&& chain.order().len() >= 1
    &&& tidy(chain.nodes(), chain.first(), chain.order(), 1)
    &&& spec_tag::<Node<T>>(chain.nodes()[chain.order()[0]].next) == 0
    &&& spec_raw::<Node<T>>(tail) == chain.order().last()
    &&& spec_tag::<Node<T>>(tail) == 0
}

/// The tags are zero on every link of a queue at rest, the sentinel's too.
pub proof fn lemma_links<T>(chain: &Chain<T>, tail: usize, i: int)
    requires
        queue_wf(chain, tail),
        0 <= i < chain.order().len(),
    ensures
        chain.nodes().contains_key(chain.order()[i]),
        chain.order()[i] != 0,
        spec_tag::<Node<T>>(chain.nodes()[chain.order()[i]].next) == 0,
        spec_raw::<Node<T>>(chain.nodes()[chain.order()[i]].next) == crate::chain::target(
            chain.order(),
            i,
        ),
        i == chain.order().len() - 1 ==> chain.nodes()[chain.order()[i]].next == 0,
        i < chain.order().len() - 1 ==> chain.nodes()[chain.order()[i]].next == chain.order()[i
            + 1],
{
    assert(link_ok(chain.nodes(), chain.order(), i));
    if i > 0 {
        assert(node_tidy(chain.nodes(), chain.order(), i));
    }
    lemma_zero::<Node<T>>(chain.nodes()[chain.order()[i]].next);
    lemma_tag_laws::<Node<T>>(chain.nodes()[chain.order()[i]].next, 0);
}

/// A queue after the node of `t` was linked in behind the last node.
pub proof fn lemma_pushed<T>(prev: &Chain<T>, tail: usize, now: &Chain<T>, word: usize, t: T)
    requires
        queue_wf(prev, tail),
        now.inv(),
        spec_tag::<Node<T>>(word) == 0,
        now.first() == prev.first(),
        now.order() == prev.order().push(spec_raw::<Node<T>>(word)),
        !prev.order().contains(spec_raw::<Node<T>>(word)),
        now.nodes()[spec_raw::<Node<T>>(word)] == (Node { data: Some(t), next: 0 }),
        forall|k: int|
            0 <= k < prev.order().len() - 1 ==> now.nodes()[#[trigger] prev.order()[k]]
                == prev.nodes()[prev.order()[k]],
        now.nodes()[prev.order().last()] == crate::chain::relinked(
            prev.nodes()[prev.order().last()],
            word,
        ),
    ensures
        queue_wf(now, word),
        contents(now.nodes(), now.order(), 1) == spec_push(
            contents(prev.nodes(), prev.order(), 1),
            t,
        ),
{
    let o1 = prev.order();
    let o2 = now.order();
    let n1 = prev.nodes();
    let n2 = now.nodes();
    let n = o1.len() as int;
    lemma_zero::<Node<T>>(0);
    assert(o2[n] == spec_raw::<Node<T>>(word));
    assert forall|k: int| 1 <= k < o2.len() implies #[trigger] node_tidy(n2, o2, k) by {
        if k < n {
            assert(o2[k] == o1[k]);
            assert(node_tidy(n1, o1, k));
        }
    }
    assert(o2[0] == o1[0]);
    lemma_links(prev, tail, 0);
    let a = contents(n2, o2, 1);
    let b = spec_push(contents(n1, o1, 1), t);
    assert forall|k: int| 0 <= k < a.len() implies a[k] == b[k] by {
        if k + 1 < n {
            assert(o2[k + 1] == o1[k + 1]);
            assert(data_at(n2, o2, k + 1) == data_at(n1, o1, k + 1));
        }
    }
    assert(a =~= b);
}

/// A queue after its sentinel was linked out and the node behind it was
/// emptied to be the new sentinel.
pub proof fn lemma_popped<T>(prev: &Chain<T>, tail: usize, now: &Chain<T>)
    requires
        queue_wf(prev, tail),
        prev.order().len() >= 2,
        now.inv(),
        now.first() == prev.nodes()[prev.order()[0]].next,
        now.order() == prev.order().remove(0),
        forall|k: int|
            2 <= k < prev.order().len() ==> now.nodes()[#[trigger] prev.order()[k]]
                == prev.nodes()[prev.order()[k]],
        now.nodes()[prev.order()[1]].next == prev.nodes()[prev.order()[1]].next,
    ensures
        queue_wf(now, tail),
        contents(now.nodes(), now.order(), 1) == contents(
            prev.nodes(),
            prev.order(),
            1,
        ).drop_first(),
        prev.nodes()[prev.order()[1]].data == Some(contents(prev.nodes(), prev.order(), 1)[0]),
{
    let o1 = prev.order();
    let o2 = now.order();
    let n1 = prev.nodes();
    let n2 = now.nodes();
    lemma_links(prev, tail, 0);
    lemma_links(prev, tail, 1);
    assert(node_tidy(n1, o1, 1));
    assert forall|k: int| 1 <= k < o2.len() implies #[trigger] node_tidy(n2, o2, k) by {
        assert(o2[k] == o1[k + 1]);
        assert(node_tidy(n1, o1, k + 1));
    }
    assert(o2[0] == o1[1]);
    assert(o2.last() == o1.last());
    let a = contents(n2, o2, 1);
    let b = contents(n1, o1, 1).drop_first();
    assert forall|k: int| 0 <= k < a.len() implies a[k] == b[k] by {
        assert(o2[k + 1] == o1[k + 2]);
        assert(data_at(n2, o2, k + 1) == data_at(n1, o1, k + 2));
    }
    assert(a =~= b);
    assert(data_at(n1, o1, 1) == n1[o1[1]].data);
}

} // verus!
