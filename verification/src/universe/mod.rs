//! The grid, its cells, and the searches and maze generators that run on it.

pub use grid_node::GridNode;
pub use grid_snapshot::GridSnapshot;
pub use maze_type::MazeType;
pub use orientation::Orientation;
pub use path_result::PathResult;
pub use pathfinding_algorithm::PathFindingAlgorithm;
pub use universe::Universe;

pub mod astar;
pub mod astar_bidirectional;
pub mod bfs;
pub mod bfs_bidirectional;
pub mod bfs_levels;
pub mod dfs;
pub mod dijkstra;
pub mod find_path;
pub mod forest;
pub mod greedy_bfs;
pub mod grid_node;
pub mod grid_snapshot;
pub mod maze;
pub mod maze_type;
pub mod neighbors;
pub mod orientation;
pub mod path_result;
pub mod pathfinding_algorithm;
mod random;
pub mod route;
pub mod universe;
pub mod weighted;
