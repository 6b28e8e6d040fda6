//! The node that the queues and the lists are linked from.
use vstd::prelude::*;

verus! {

/// A value and the link to the node behind it. The link is a word: the
/// address of that node, or zero, with a tag in its low bits. The value is
/// gone once it was handed out, and the node at the head of a queue never had
/// one.
pub struct Node<T> {
    pub data: Option<T>,
    pub next: usize,
}

impl<T> Node<T> {
    /// A node that holds `data` and has no successor.
    pub fn new(data: T) -> (node: Self)
        ensures
            node == (Node { data: Some(data), next: 0 }),
    {
        Node { data: Some(data), next: 0 }
    }

    /// A node without a value and without a successor.
    pub fn empty() -> (node: Self)
        ensures
            node == (Node::<T> { data: None, next: 0 }),
    {
        Node { data: None, next: 0 }
    }

    /// The value, to look at or to change.
    pub fn data_mut(&mut self) -> (data: &mut Option<T>)
        ensures
            *data == old(self).data,
            *final(self) == (Node { data: *final(data), next: old(self).next }),
    {
        &mut self.data
    }
}

} // verus!
