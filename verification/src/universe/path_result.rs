use super::grid_node::GridNode;
use vstd::prelude::*;

verus! {

/// Outcome of one search: the path from start to end (empty when there is
/// none) and every cell the search took from its frontier, in that order.
#[derive(Debug)]
pub struct PathResult {
    pub path: Vec<GridNode>,
    pub processed: Vec<GridNode>,
}

} // verus!
