use pathgrid::universe::GridNode;
use pathgrid::universe::PathFindingAlgorithm;
use pathgrid::universe::Universe;

fn positions(cells: &[GridNode]) -> Vec<(i32, i32)> {
    cells.iter().map(|c| (c.x, c.y)).collect()
}

fn assert_route(universe: &Universe, path: &[GridNode], from: (i32, i32), to: (i32, i32)) {
    assert_eq!(path[0], universe.get_cell(from.0, from.1));
    assert_eq!(*path.last().unwrap(), universe.get_cell(to.0, to.1));
    for pair in path.windows(2) {
        assert_eq!((pair[0].x - pair[1].x).abs() + (pair[0].y - pair[1].y).abs(), 1);
        assert!(pair[1].passable);
        assert_eq!(universe.get_cell(pair[1].x, pair[1].y), pair[1]);
    }
}

fn walled_grid() -> Universe {
    let mut universe = Universe::new(5, 5);
    for y in 0..3 {
        universe.set_passable(2, y, false);
    }
    universe.set_weight(2, 3, 1000);
    universe
}

#[test]
fn dfs_takes_the_neighbour_put_on_the_stack_last() {
    let universe = Universe::new(2, 2);
    let result = universe.dfs(0, 0, 1, 1);
    assert_eq!(positions(&result.path), vec![(0, 0), (1, 0), (1, 1)]);
    assert_eq!(positions(&result.processed), vec![(0, 0), (1, 0), (1, 1)]);
}

#[test]
fn dfs_processes_a_cell_again_when_it_waits_twice() {
    let mut universe = Universe::new(3, 2);
    universe.set_passable(2, 0, false);
    universe.set_passable(2, 1, false);
    let result = universe.dfs(0, 0, 2, 1);
    assert!(result.path.is_empty());
    assert_eq!(
        positions(&result.processed),
        vec![(0, 0), (1, 0), (1, 1), (0, 1), (0, 1)]
    );
}

#[test]
fn dfs_with_start_equal_to_end_returns_that_cell() {
    let universe = Universe::new(3, 3);
    let result = universe.dfs(2, 0, 2, 0);
    assert_eq!(result.path, vec![universe.get_cell(2, 0)]);
    assert_eq!(result.processed, vec![universe.get_cell(2, 0)]);
}

#[test]
fn dfs_finds_a_path_through_a_maze() {
    let universe = walled_grid();
    let result = universe.dfs(0, 0, 4, 0);
    assert!(!result.path.is_empty());
    assert_route(&universe, &result.path, (0, 0), (4, 0));
    assert_eq!(*result.processed.last().unwrap(), universe.get_cell(4, 0));
}

#[test]
fn greedy_follows_distance_plus_weight_and_ignores_the_cost_so_far() {
    let mut universe = Universe::new(3, 2);
    universe.set_weight(1, 0, 5);
    let result = universe.greedy_bfs(0, 0, 2, 0);
    assert_eq!(
        positions(&result.path),
        vec![(0, 0), (0, 1), (1, 1), (2, 1), (2, 0)]
    );
    assert_eq!(
        positions(&result.processed),
        vec![(0, 0), (0, 1), (1, 1), (2, 1), (2, 0)]
    );
}

#[test]
fn greedy_heads_straight_for_the_end_on_an_open_grid() {
    let universe = Universe::new(3, 3);
    let result = universe.greedy_bfs(0, 0, 2, 2);
    assert_eq!(result.path.len(), 5);
    assert_route(&universe, &result.path, (0, 0), (2, 2));
    let mut seen = positions(&result.processed);
    seen.sort();
    seen.dedup();
    assert_eq!(seen.len(), result.processed.len());
}

#[test]
fn greedy_reports_an_unreachable_end_with_an_empty_path() {
    let mut universe = Universe::new(4, 2);
    universe.set_passable(2, 0, false);
    universe.set_passable(2, 1, false);
    let result = universe.greedy_bfs(0, 0, 3, 1);
    assert!(result.path.is_empty());
    let mut seen = positions(&result.processed);
    seen.sort();
    assert_eq!(seen, vec![(0, 0), (0, 1), (1, 0), (1, 1)]);
}

#[test]
fn bidirectional_astar_walks_a_corridor_from_both_ends() {
    let universe = Universe::new(6, 1);
    let result = universe.astar_bidirectional(0, 0, 5, 0);
    assert_eq!(
        positions(&result.path),
        vec![(0, 0), (1, 0), (2, 0), (3, 0), (4, 0), (5, 0)]
    );
    assert_eq!(result.processed[0], universe.get_cell(0, 0));
    assert_eq!(result.processed[1], universe.get_cell(5, 0));
}

#[test]
fn bidirectional_astar_finds_a_path_around_the_wall() {
    let universe = walled_grid();
    let result = universe.astar_bidirectional(0, 0, 4, 3);
    assert!(!result.path.is_empty());
    assert_route(&universe, &result.path, (0, 0), (4, 3));
}

#[test]
fn bidirectional_astar_with_start_equal_to_end_returns_that_cell() {
    let universe = walled_grid();
    let result = universe.astar_bidirectional(4, 4, 4, 4);
    assert_eq!(result.path, vec![universe.get_cell(4, 4)]);
    assert_eq!(result.processed, vec![universe.get_cell(4, 4)]);
}

#[test]
fn bidirectional_astar_reports_separated_ends_with_an_empty_path() {
    let mut universe = Universe::new(5, 3);
    for y in 0..3 {
        universe.set_passable(2, y, false);
    }
    let result = universe.astar_bidirectional(0, 1, 4, 1);
    assert!(result.path.is_empty());
    let mut seen = positions(&result.processed);
    seen.sort();
    seen.dedup();
    assert_eq!(seen.len(), 12);
    assert!(!seen.iter().any(|p| p.0 == 2));
}

#[test]
fn bidirectional_searches_run_from_start_to_end() {
    let mut universe = Universe::new(3, 1);
    universe.set_passable(1, 0, false);
    let by_astar = universe.astar_bidirectional(0, 0, 1, 0);
    assert_eq!(positions(&by_astar.path), vec![(0, 0), (1, 0)]);
    let by_bfs = universe.bfs_bidirectional(0, 0, 1, 0);
    assert_eq!(positions(&by_bfs.path), vec![(0, 0), (1, 0)]);
}

#[test]
fn find_path_runs_the_algorithm_chosen() {
    let universe = walled_grid();
    let direct = [
        universe.astar(0, 0, 4, 3),
        universe.astar_bidirectional(0, 0, 4, 3),
        universe.dijkstra(0, 0, 4, 3),
        universe.bfs(0, 0, 4, 3),
        universe.bfs_bidirectional(0, 0, 4, 3),
        universe.dfs(0, 0, 4, 3),
        universe.greedy_bfs(0, 0, 4, 3),
    ];
    let chosen = [
        universe.find_path(0, 0, 4, 3, PathFindingAlgorithm::Astar),
        universe.find_path(0, 0, 4, 3, PathFindingAlgorithm::AstarBidirectional),
        universe.find_path(0, 0, 4, 3, PathFindingAlgorithm::Dijkstra),
        universe.find_path(0, 0, 4, 3, PathFindingAlgorithm::BFS),
        universe.find_path(0, 0, 4, 3, PathFindingAlgorithm::BFSBidirectional),
        universe.find_path(0, 0, 4, 3, PathFindingAlgorithm::DFS),
        universe.find_path(0, 0, 4, 3, PathFindingAlgorithm::GreedyBFS),
    ];
    for (a, b) in direct.iter().zip(chosen.iter()) {
        assert_eq!(a.path, b.path);
        assert_eq!(a.processed, b.processed);
        assert_route(&universe, &a.path, (0, 0), (4, 3));
    }
    // breadth-first search ignores the weight and crosses the heavy cell
    assert_eq!(chosen[3].path.len(), 8);
    assert!(positions(&chosen[3].path).contains(&(2, 3)));
    // the searches that settle costs go around it
    assert_eq!(chosen[0].path.len(), 10);
    assert_eq!(chosen[2].path.len(), 10);
}

#[test]
fn every_algorithm_returns_the_single_cell_when_start_is_end() {
    let universe = walled_grid();
    for algorithm in [
        PathFindingAlgorithm::Astar,
        PathFindingAlgorithm::AstarBidirectional,
        PathFindingAlgorithm::Dijkstra,
        PathFindingAlgorithm::BFS,
        PathFindingAlgorithm::BFSBidirectional,
        PathFindingAlgorithm::DFS,
        PathFindingAlgorithm::GreedyBFS,
    ] {
        let result = universe.find_path(1, 3, 1, 3, algorithm);
        assert_eq!(result.path, vec![universe.get_cell(1, 3)]);
    }
}

#[test]
fn every_algorithm_returns_an_empty_path_to_a_walled_off_end() {
    let mut universe = Universe::new(5, 5);
    universe.set_passable(3, 4, false);
    universe.set_passable(4, 3, false);
    universe.set_passable(3, 3, false);
    for algorithm in [
        PathFindingAlgorithm::Astar,
        PathFindingAlgorithm::AstarBidirectional,
        PathFindingAlgorithm::Dijkstra,
        PathFindingAlgorithm::BFS,
        PathFindingAlgorithm::BFSBidirectional,
        PathFindingAlgorithm::DFS,
        PathFindingAlgorithm::GreedyBFS,
    ] {
        let result = universe.find_path(0, 0, 4, 4, algorithm);
        assert!(result.path.is_empty());
        // every cell that can be reached from the start was processed
        for y in 0..5 {
            for x in 0..5 {
                let cell = universe.get_cell(x, y);
                if cell.passable && (x, y) != (4, 4) {
                    assert!(result.processed.contains(&cell));
                }
            }
        }
    }
}

#[test]
fn a_search_may_start_on_an_impassable_cell() {
    let mut universe = Universe::new(3, 1);
    universe.set_passable(0, 0, false);
    let result = universe.bfs(0, 0, 2, 0);
    assert_eq!(positions(&result.path), vec![(0, 0), (1, 0), (2, 0)]);
    let none = universe.bfs(2, 0, 0, 0);
    assert!(none.path.is_empty());
}
