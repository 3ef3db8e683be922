use super::path_result::PathResult;
use crate::priority_queue::priority_queue_item::PriorityQueueItem;
use super::universe::Universe;
use vstd::prelude::*;

verus! {

impl Universe {
    /// Dijkstra's algorithm from `(start_x, start_y)` to `(end_x, end_y)`.
    ///
    /// Cells leave the priority queue by lowest accumulated cost; entering a
    /// cell costs one plus the cell's weight.  The path returned is a
    /// cheapest one.  `processed` lists the cells taken from the queue; a
    /// cell that was queued again for a cheaper way appears once per entry
    /// that left the queue.
    pub fn dijkstra(&self, start_x: i32, start_y: i32, end_x: i32, end_y: i32) -> (result:
        PathResult)
        requires
            self.wf(),
            self.costs_fit(),
            self.in_bounds(start_x as int, start_y as int),
            self.in_bounds(end_x as int, end_y as int),
        ensures
            self.cheapest_result(
                self.cell(start_x as int, start_y as int),
                self.cell(end_x as int, end_y as int),
                result,
            ),
            exists|picks: Seq<PriorityQueueItem<usize>>| #[trigger]
                self.quest_reports(
                    self.index_of(start_x as int, start_y as int),
                    self.index_of(end_x as int, end_y as int),
                    None,
                    picks,
                    result,
                ),
    {
        self.weighted_search(start_x, start_y, end_x, end_y, false)
    }
}

} // verus!
