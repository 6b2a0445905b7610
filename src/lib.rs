//! An unbounded first-in first-out queue kept as a chain of nodes in an
//! arena. Nodes are addressed by their index in the arena; a node that a
//! dequeue unlinks goes on a free list and its slot is reused by a later
//! enqueue, so storage never grows past the largest number of values that
//! were pending at once.
pub mod history;
pub mod queue;

pub use queue::Queue;
