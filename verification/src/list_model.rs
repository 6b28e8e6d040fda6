//! What a list is, whatever reclaims its nodes.
//!
//! The list is a chain in which every node holds a value. A new value goes
//! to the front. A node is removed in two steps: its link is marked, so that
//! nothing is linked in behind it any more, and then the cell before it is
//! made to point past it.
use vstd::prelude::*;
use crate::chain::{Chain, contents, data_at, tidy, node_tidy, link_ok, lemma_contents_out};
use crate::hp::atomic::spec_tag;
use crate::node::Node;

verus! {

/// The chain of a list at rest: every node holds a value, and no link
/// carries a mark.
pub open spec fn list_wf<T>(chain: &Chain<T>) -> bool {
    &&& chain.inv()
    &&& tidy(chain.nodes(), chain.first(), chain.order(), 0)
}

/// No node of the heap is detached.
pub open spec fn compact<T>(chain: &Chain<T>) -> bool {
    forall|a: usize| #[trigger] chain.nodes().contains_key(a) ==> chain.order().contains(a)
}

/// The values of a list, from the front on.
pub open spec fn list_view<T>(chain: &Chain<T>) -> Seq<T> {
    contents(chain.nodes(), chain.order(), 0)
}

/// A list is at rest again once the node at index `i` was linked out, and it
/// has lost the value of that node and no other.
pub proof fn lemma_list_out<T>(prev: &Chain<T>, now: &Chain<T>, i: int)
    requires
        list_wf(prev),
        now.inv(),
        0 <= i < prev.order().len(),
        now.order() == prev.order().remove(i),
        spec_tag::<Node<T>>(now.first()) == 0,
        forall|k: int|
            0 <= k < prev.order().len() && k != i && k != i - 1 ==> now.nodes()[#[trigger] prev.order()[k]]
                == prev.nodes()[prev.order()[k]],
        i > 0 ==> now.nodes()[prev.order()[i - 1]].data == prev.nodes()[prev.order()[i - 1]].data
            && spec_tag::<Node<T>>(now.nodes()[prev.order()[i - 1]].next) == 0,
    ensures
        list_wf(now),
        list_view(now) == list_view(prev).remove(i),
        prev.nodes()[prev.order()[i]].data == Some(list_view(prev)[i]),
{
    let o1 = prev.order();
    let o2 = now.order();
    let n1 = prev.nodes();
    let n2 = now.nodes();
    assert(node_tidy(n1, o1, i));
    assert forall|k: int| 0 <= k < o2.len() implies #[trigger] node_tidy(n2, o2, k) by {
        let kk = if k < i {
            k
        } else {
            k + 1
        };
        assert(o2[k] == o1[kk]);
        assert(node_tidy(n1, o1, kk));
    }
    assert forall|k: int| 0 <= k < o1.len() && k != i implies #[trigger] data_at(n2, o1, k)
        == data_at(n1, o1, k) by {
        if k != i - 1 {
            assert(n2[o1[k]] == n1[o1[k]]);
        }
    }
    lemma_contents_out(n1, n2, o1, i, 0);
    assert(data_at(n1, o1, i) == n1[o1[i]].data);
}

/// A list is at rest again once a node that holds `data` was linked in at
/// the front, and it has gained that value there.
pub proof fn lemma_list_in<T>(prev: &Chain<T>, now: &Chain<T>, word: usize, data: T)
    requires
        list_wf(prev),
        now.inv(),
        now.first() == word,
        spec_tag::<Node<T>>(word) == 0,
        now.order() == seq![crate::hp::atomic::spec_raw::<Node<T>>(word)] + prev.order(),
        now.nodes()[crate::hp::atomic::spec_raw::<Node<T>>(word)] == (Node {
            data: Some(data),
            next: prev.first(),
        }),
        forall|k: int|
            0 <= k < prev.order().len() ==> now.nodes()[#[trigger] prev.order()[k]]
                == prev.nodes()[prev.order()[k]],
    ensures
        list_wf(now),
        list_view(now) == seq![data] + list_view(prev),
{
    let o1 = prev.order();
    let o2 = now.order();
    let n1 = prev.nodes();
    let n2 = now.nodes();
    assert forall|k: int| 0 <= k < o2.len() implies #[trigger] node_tidy(n2, o2, k) by {
        if k > 0 {
            assert(o2[k] == o1[k - 1]);
            assert(node_tidy(n1, o1, k - 1));
        }
    }
    let a = list_view(now);
    let b = seq![data] + list_view(prev);
    assert forall|k: int| 0 <= k < a.len() implies a[k] == b[k] by {
        if k > 0 {
            assert(o2[k] == o1[k - 1]);
            assert(data_at(n2, o2, k) == data_at(n1, o1, k - 1));
        } else {
            assert(data_at(n2, o2, 0) == n2[o2[0]].data);
        }
    }
    assert(a =~= b);
}

/// What a walk down a list at rest finds at index `i`.
pub proof fn lemma_list_at<T>(chain: &Chain<T>, i: int)
    requires
        list_wf(chain),
        0 <= i < chain.order().len(),
    ensures
        chain.order()[i] != 0,
        chain.nodes().contains_key(chain.order()[i]),
        chain.nodes()[chain.order()[i]].data == Some(list_view(chain)[i]),
        spec_tag::<Node<T>>(chain.nodes()[chain.order()[i]].next) == 0,
        chain.nodes()[chain.order()[i]].next == crate::chain::target(chain.order(), i),
        crate::hp::atomic::spec_raw::<Node<T>>(chain.nodes()[chain.order()[i]].next)
            == crate::chain::target(chain.order(), i),
        chain.cell(None) == crate::chain::first_of(chain.order()),
        crate::hp::atomic::spec_raw::<Node<T>>(chain.first()) == crate::chain::first_of(
            chain.order(),
        ),
{
    assert(link_ok(chain.nodes(), chain.order(), i));
    assert(node_tidy(chain.nodes(), chain.order(), i));
    crate::hp::atomic::lemma_tag_laws::<Node<T>>(chain.nodes()[chain.order()[i]].next, 0);
    crate::hp::atomic::lemma_tag_laws::<Node<T>>(chain.first(), 0);
    assert(data_at(chain.nodes(), chain.order(), i) == chain.nodes()[chain.order()[i]].data);
}

/// A list without detached nodes is one again once the node at index `i`
/// was linked out and has left the heap.
pub proof fn lemma_list_gone<T>(prev: &Chain<T>, now: &Chain<T>, i: int)
    requires
        list_wf(prev),
        compact(prev),
        now.inv(),
        0 <= i < prev.order().len(),
        now.order() == prev.order().remove(i),
        spec_tag::<Node<T>>(now.first()) == 0,
        now.nodes().dom() =~= prev.nodes().dom().remove(prev.order()[i]),
        forall|k: int|
            0 <= k < prev.order().len() && k != i && k != i - 1 ==> now.nodes()[#[trigger] prev.order()[k]]
                == prev.nodes()[prev.order()[k]],
        i > 0 ==> now.nodes()[prev.order()[i - 1]].data == prev.nodes()[prev.order()[i - 1]].data
            && spec_tag::<Node<T>>(now.nodes()[prev.order()[i - 1]].next) == 0,
    ensures
        list_wf(now),
        compact(now),
        list_view(now) == list_view(prev).remove(i),
        prev.nodes()[prev.order()[i]].data == Some(list_view(prev)[i]),
{
    lemma_list_out(prev, now, i);
    let o1 = prev.order();
    let o2 = now.order();
    assert forall|a: usize| #[trigger] now.nodes().contains_key(a) implies o2.contains(a) by {
        assert(prev.nodes().contains_key(a));
        let k = choose|k: int| 0 <= k < o1.len() && o1[k] == a;
        if k < i {
            assert(o2[k] == a);
        } else {
            assert(o2[k - 1] == a);
        }
    }
}

/// A list without detached nodes is one again once a node was linked in at
/// the front.
pub proof fn lemma_list_grown<T>(prev: &Chain<T>, now: &Chain<T>, word: usize, data: T)
    requires
        list_wf(prev),
        compact(prev),
        now.inv(),
        now.first() == word,
        spec_tag::<Node<T>>(word) == 0,
        now.order() == seq![crate::hp::atomic::spec_raw::<Node<T>>(word)] + prev.order(),
        now.nodes() == prev.nodes().insert(
            crate::hp::atomic::spec_raw::<Node<T>>(word),
            (Node { data: Some(data), next: prev.first() }),
        ),
        !prev.nodes().contains_key(crate::hp::atomic::spec_raw::<Node<T>>(word)),
    ensures
        list_wf(now),
        compact(now),
        list_view(now) == seq![data] + list_view(prev),
{
    assert forall|k: int| 0 <= k < prev.order().len() implies now.nodes()[#[trigger] prev.order()[k]]
        == prev.nodes()[prev.order()[k]] by {
        assert(link_ok(prev.nodes(), prev.order(), k));
    }
    lemma_list_in(prev, now, word, data);
    let a0 = crate::hp::atomic::spec_raw::<Node<T>>(word);
    assert forall|a: usize| #[trigger] now.nodes().contains_key(a) implies now.order().contains(
        a,
    ) by {
        if a == a0 {
            assert(now.order()[0] == a);
        } else {
            assert(prev.nodes().contains_key(a));
            let k = choose|k: int| 0 <= k < prev.order().len() && prev.order()[k] == a;
            assert(now.order()[k + 1] == a);
        }
    }
}

} // verus!
