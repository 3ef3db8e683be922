//! A max-priority queue and the item type it stores.

pub mod priority_queue;
pub mod priority_queue_item;
