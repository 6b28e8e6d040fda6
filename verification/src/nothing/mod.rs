//! The queue and the list without any reclamation: a node that was linked
//! out stays in the heap for good. This is the baseline that the two
//! reclamation schemes are measured against.
use vstd::prelude::*;

pub mod list;
pub mod queue;

verus! {

} // verus!
