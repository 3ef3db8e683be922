use super::grid_node::GridNode;
use super::path_result::PathResult;
use crate::priority_queue::priority_queue_item::PriorityQueueItem;
use super::route::path_cost;
use super::universe::Universe;
use vstd::prelude::*;

verus! {

impl Universe {
    /// A* from `(start_x, start_y)` to `(end_x, end_y)`.
    ///
    /// Cells leave the priority queue by lowest sum of accumulated cost and
    /// Manhattan distance to the end; entering a cell costs one plus the
    /// cell's weight.  The path returned is a cheapest one.  `processed`
    /// lists the cells taken from the queue; a cell that was queued again
    /// for a cheaper way appears once per entry that left the queue.
    pub fn astar(&self, start_x: i32, start_y: i32, end_x: i32, end_y: i32) -> (result: PathResult)
        requires
            self.wf(),
            self.costs_fit(),
            self.in_bounds(start_x as int, start_y as int),
            self.in_bounds(end_x as int, end_y as int),
        ensures
            self.cheapest_result(
                self.cell(start_x as int, start_y as int),
                self.cell(end_x as int, end_y as int),
                result,
            ),
            exists|picks: Seq<PriorityQueueItem<usize>>| #[trigger]
                self.quest_reports(
                    self.index_of(start_x as int, start_y as int),
                    self.index_of(end_x as int, end_y as int),
                    Some(self.index_of(end_x as int, end_y as int)),
                    picks,
                    result,
                ),
    {
        self.weighted_search(start_x, start_y, end_x, end_y, true)
    }

    /// Dijkstra's algorithm and A* agree on the cost: whatever the two
    /// return for the same start and end, both paths are empty or both cost
    /// the same.
    pub proof fn lemma_dijkstra_and_astar_agree(
        &self,
        start: GridNode,
        end: GridNode,
        by_dijkstra: PathResult,
        by_astar: PathResult,
    )
        requires
            self.cheapest_result(start, end, by_dijkstra),
            self.cheapest_result(start, end, by_astar),
        ensures
            by_dijkstra.path@.len() > 0 <==> by_astar.path@.len() > 0,
            path_cost(by_dijkstra.path@) == path_cost(by_astar.path@),
    {
        if by_dijkstra.path@.len() > 0 {
            assert(self.is_path(by_dijkstra.path@, start, end));
            assert(self.is_path(by_astar.path@, start, end));
        } else {
            assert(by_dijkstra.path@ =~= by_astar.path@);
        }
    }
}

} // verus!
