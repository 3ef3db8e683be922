use super::path_result::PathResult;
use super::pathfinding_algorithm::PathFindingAlgorithm;
use super::universe::Universe;
use crate::priority_queue::priority_queue_item::PriorityQueueItem;
use vstd::prelude::*;

verus! {

/// The algorithm computes with accumulated costs or weights, so that costs
/// and priorities have to fit the grid.
pub open spec fn counts_costs(algorithm: PathFindingAlgorithm) -> bool {
    algorithm is Astar || algorithm is AstarBidirectional || algorithm is Dijkstra
        || algorithm is GreedyBFS
}

impl Universe {
    /// `result` is what the algorithm chosen returns for the cells `start`
    /// and `end` when it is run step by step.  Where cells leave a priority
    /// queue, the steps may take any entry of highest priority.
    pub open spec fn runs_as(
        &self,
        algorithm: PathFindingAlgorithm,
        start: int,
        end: int,
        result: PathResult,
    ) -> bool {
        match algorithm {
            PathFindingAlgorithm::BFS => self.reports(self.breadth_first(start, end), end, result),
            PathFindingAlgorithm::DFS => self.dive_reports(
                self.depth_first(start, end),
                end,
                result,
            ),
            PathFindingAlgorithm::BFSBidirectional => self.meeting_reports(
                self.both_ways(start, end),
                result,
            ),
            PathFindingAlgorithm::GreedyBFS => exists|picks: Seq<int>| #[trigger]
                self.greedy_reports(start, end, picks, result),
            PathFindingAlgorithm::Dijkstra => exists|picks: Seq<PriorityQueueItem<usize>>|
                #[trigger] self.quest_reports(start, end, None, picks, result),
            PathFindingAlgorithm::Astar => exists|picks: Seq<PriorityQueueItem<usize>>|
                #[trigger] self.quest_reports(start, end, Some(end), picks, result),
            PathFindingAlgorithm::AstarBidirectional => exists|
                rounds: Seq<(Option<PriorityQueueItem<usize>>, Option<PriorityQueueItem<usize>>)>,
            | #[trigger] self.duel_reports(start, end, rounds, result),
        }
    }

    /// Searches a path from `(start_x, start_y)` to `(end_x, end_y)` with
    /// the algorithm chosen.
    pub fn find_path(
        &self,
        start_x: i32,
        start_y: i32,
        end_x: i32,
        end_y: i32,
        algorithm: PathFindingAlgorithm,
    ) -> (result: PathResult)
        requires
            self.wf(),
            self.in_bounds(start_x as int, start_y as int),
            self.in_bounds(end_x as int, end_y as int),
            counts_costs(algorithm) ==> self.costs_fit(),
        ensures
            self.runs_as(
                algorithm,
                self.index_of(start_x as int, start_y as int),
                self.index_of(end_x as int, end_y as int),
                result,
            ),
            ({
                let start = self.cell(start_x as int, start_y as int);
                let end = self.cell(end_x as int, end_y as int);
                match algorithm {
                    PathFindingAlgorithm::Dijkstra
                    | PathFindingAlgorithm::Astar => self.cheapest_result(start, end, result),
                    PathFindingAlgorithm::AstarBidirectional => self.bidirectional_result(
                        start,
                        end,
                        result,
                    ),
                    PathFindingAlgorithm::BFSBidirectional => self.bidirectional_shortest_result(
                        start,
                        end,
                        result,
                    ),
                    PathFindingAlgorithm::BFS => self.shortest_result(start, end, result),
                    PathFindingAlgorithm::GreedyBFS => self.single_visit_result(start, end, result),
                    PathFindingAlgorithm::DFS => self.search_result(start, end, result),
                }
            }),
    {
        match algorithm {
            PathFindingAlgorithm::Dijkstra => self.dijkstra(start_x, start_y, end_x, end_y),
            PathFindingAlgorithm::Astar => self.astar(start_x, start_y, end_x, end_y),
            PathFindingAlgorithm::AstarBidirectional => {
                self.astar_bidirectional(start_x, start_y, end_x, end_y)
            },
            PathFindingAlgorithm::BFS => self.bfs(start_x, start_y, end_x, end_y),
            PathFindingAlgorithm::BFSBidirectional => {
                self.bfs_bidirectional(start_x, start_y, end_x, end_y)
            },
            PathFindingAlgorithm::DFS => self.dfs(start_x, start_y, end_x, end_y),
            PathFindingAlgorithm::GreedyBFS => self.greedy_bfs(start_x, start_y, end_x, end_y),
        }
    }
}

} // verus!
