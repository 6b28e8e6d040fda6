//! Safe memory reclamation for linked containers, as an executable model.
//!
//! The library holds a tagged pointer word with its owned, borrowed and null
//! forms, the two reclamation runtimes (epochs and hazard pointers), and a
//! Michael-Scott queue and a Harris list on top of each of them, besides a
//! variant that reclaims nothing.
//!
//! Every structure here is owned by one caller at a time: an operation takes
//! `&mut self`, runs its steps to the end and meets no interference on the
//! way. Nodes live in a [`heap::Heap`], which hands out addresses and never
//! hands one out twice. The threads of a runtime are named by their index,
//! and one caller may act for each of them in turn.
pub mod heap;
pub mod node;
pub mod chain;
pub mod queue_model;
pub mod list_model;
pub mod hp;
pub mod nothing;
pub mod ebr;
pub mod bench;
pub mod history;
pub mod workload;
