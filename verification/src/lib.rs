//! Grid pathfinding and maze generation with contracts proved by Verus.
//!
//! The crate is organised around [`universe::Universe`], a rectangular grid of
//! weighted cells, the search algorithms that run on it, and the
//! [`priority_queue::priority_queue::PriorityQueue`] that the weighted searches share.

pub mod priority_queue;
pub mod universe;
