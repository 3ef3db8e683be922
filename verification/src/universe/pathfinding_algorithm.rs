use vstd::prelude::*;

verus! {

/// The search algorithms a caller can choose from.
pub enum PathFindingAlgorithm {
    Astar,
    AstarBidirectional,
    Dijkstra,
    BFS,
    BFSBidirectional,
    DFS,
    GreedyBFS,
}

} // verus!
