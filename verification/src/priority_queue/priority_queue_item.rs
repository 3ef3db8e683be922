use std::cmp::Ordering;
use vstd::prelude::*;
use vstd::std_specs::cmp::PartialEqSpecImpl;
use vstd::std_specs::cmp::PartialOrdSpecImpl;

verus! {

/// A payload paired with the integer priority that orders it.
///
/// Equality and ordering look at `priority` only: two items with the same
/// priority compare equal whatever they carry.
#[derive(Eq, Debug)]
pub struct PriorityQueueItem<T> {
    pub item: T,
    pub priority: i32,
}

impl<T> PartialEq for PriorityQueueItem<T> {
    fn eq(&self, other: &Self) -> (r: bool) {
        self.priority == other.priority
    }
}

impl<T> PartialEqSpecImpl for PriorityQueueItem<T> {
    open spec fn obeys_eq_spec() -> bool {
        true
    }

    open spec fn eq_spec(&self, other: &Self) -> bool {
        self.priority == other.priority
    }
}

impl<T> PartialOrd for PriorityQueueItem<T> {
    fn partial_cmp(&self, other: &Self) -> (r: Option<Ordering>) {
        if self.priority < other.priority {
            Some(Ordering::Less)
        } else if self.priority > other.priority {
            Some(Ordering::Greater)
        } else {
            Some(Ordering::Equal)
        }
    }
}

impl<T> PartialOrdSpecImpl for PriorityQueueItem<T> {
    open spec fn obeys_partial_cmp_spec() -> bool {
        true
    }

    open spec fn partial_cmp_spec(&self, other: &Self) -> Option<Ordering> {
        if self.priority < other.priority {
            Some(Ordering::Less)
        } else if self.priority > other.priority {
            Some(Ordering::Greater)
        } else {
            Some(Ordering::Equal)
        }
    }
}

} // verus!
