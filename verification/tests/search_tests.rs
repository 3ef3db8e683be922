use pathgrid::universe::GridNode;
use pathgrid::universe::Universe;

fn open_grid(width: u32, height: u32) -> Universe {
    Universe::new(width, height)
}

fn assert_walkable(universe: &Universe, path: &[GridNode]) {
    for pair in path.windows(2) {
        let dx = (pair[0].x - pair[1].x).abs();
        let dy = (pair[0].y - pair[1].y).abs();
        assert_eq!(dx + dy, 1);
        assert!(pair[1].passable);
        assert_eq!(universe.get_cell(pair[1].x, pair[1].y), pair[1]);
    }
}

#[test]
fn bfs_finds_a_shortest_path_on_an_open_grid() {
    let universe = open_grid(5, 5);
    let result = universe.bfs(0, 0, 4, 4);
    assert_eq!(result.path.len(), 9);
    assert_eq!(result.path[0], universe.get_cell(0, 0));
    assert_eq!(result.path[8], universe.get_cell(4, 4));
    assert_walkable(&universe, &result.path);
    assert_eq!(result.processed[0], universe.get_cell(0, 0));
    assert_eq!(*result.processed.last().unwrap(), universe.get_cell(4, 4));
}

#[test]
fn bfs_with_start_equal_to_end_returns_that_cell() {
    let universe = open_grid(3, 3);
    let result = universe.bfs(1, 1, 1, 1);
    assert_eq!(result.path, vec![universe.get_cell(1, 1)]);
    assert_eq!(result.processed, vec![universe.get_cell(1, 1)]);
}

#[test]
fn bfs_reports_an_unreachable_end_with_an_empty_path() {
    let mut universe = open_grid(5, 5);
    for y in 0..5 {
        universe.set_passable(2, y, false);
    }
    let result = universe.bfs(0, 0, 4, 4);
    assert!(result.path.is_empty());
    // every cell left of the wall is reachable and processed exactly once
    assert_eq!(result.processed.len(), 10);
    for y in 0..5 {
        for x in 0..2 {
            assert!(result.processed.contains(&universe.get_cell(x, y)));
        }
    }
}

#[test]
fn bfs_expands_neighbours_up_down_left_right() {
    let universe = open_grid(3, 3);
    let result = universe.bfs(1, 1, 2, 2);
    let order: Vec<(i32, i32)> = result.processed.iter().map(|c| (c.x, c.y)).collect();
    assert_eq!(&order[..5], &[(1, 1), (1, 0), (1, 2), (0, 1), (2, 1)]);
}

#[test]
fn bidirectional_bfs_matches_bfs_on_an_open_grid() {
    let universe = open_grid(5, 5);
    let both = universe.bfs_bidirectional(0, 0, 4, 4);
    let single = universe.bfs(0, 0, 4, 4);
    assert_eq!(both.path.len(), 9);
    assert_eq!(both.path.len(), single.path.len());
    assert_eq!(both.path[0], universe.get_cell(0, 0));
    assert_eq!(both.path[8], universe.get_cell(4, 4));
    assert_walkable(&universe, &both.path);
}

#[test]
fn bidirectional_bfs_with_start_equal_to_end_returns_that_cell() {
    let universe = open_grid(4, 4);
    let result = universe.bfs_bidirectional(2, 3, 2, 3);
    assert_eq!(result.path, vec![universe.get_cell(2, 3)]);
}

#[test]
fn bidirectional_bfs_reports_separated_ends_with_an_empty_path() {
    let mut universe = open_grid(5, 5);
    for y in 0..5 {
        universe.set_passable(2, y, false);
    }
    let result = universe.bfs_bidirectional(0, 0, 4, 4);
    assert!(result.path.is_empty());
    // both sides exhaust their half of the grid
    assert_eq!(result.processed.len(), 20);
}

#[test]
fn bidirectional_bfs_runs_from_start_to_an_impassable_neighbour() {
    let mut universe = open_grid(3, 1);
    universe.set_passable(1, 0, false);
    let result = universe.bfs_bidirectional(0, 0, 1, 0);
    assert_eq!(
        result.path,
        vec![universe.get_cell(0, 0), universe.get_cell(1, 0)]
    );
}

#[test]
fn bfs_lists_cells_in_the_order_they_leave_the_queue() {
    let universe = open_grid(2, 2);
    let result = universe.bfs(0, 0, 1, 1);
    let path: Vec<(i32, i32)> = result.path.iter().map(|c| (c.x, c.y)).collect();
    let processed: Vec<(i32, i32)> = result.processed.iter().map(|c| (c.x, c.y)).collect();
    assert_eq!(path, vec![(0, 0), (0, 1), (1, 1)]);
    assert_eq!(processed, vec![(0, 0), (0, 1), (1, 0), (1, 1)]);
}

#[test]
fn bidirectional_bfs_takes_turns_and_joins_where_the_sides_meet() {
    let universe = open_grid(3, 1);
    let result = universe.bfs_bidirectional(0, 0, 2, 0);
    let path: Vec<(i32, i32)> = result.path.iter().map(|c| (c.x, c.y)).collect();
    let processed: Vec<(i32, i32)> = result.processed.iter().map(|c| (c.x, c.y)).collect();
    assert_eq!(path, vec![(0, 0), (1, 0), (2, 0)]);
    assert_eq!(processed, vec![(0, 0), (2, 0), (1, 0)]);
}

#[test]
fn bidirectional_bfs_ends_when_the_end_side_takes_a_cell_the_start_side_reached() {
    let universe = open_grid(4, 1);
    let result = universe.bfs_bidirectional(0, 0, 3, 0);
    let path: Vec<(i32, i32)> = result.path.iter().map(|c| (c.x, c.y)).collect();
    let processed: Vec<(i32, i32)> = result.processed.iter().map(|c| (c.x, c.y)).collect();
    assert_eq!(path, vec![(0, 0), (1, 0), (2, 0), (3, 0)]);
    assert_eq!(processed, vec![(0, 0), (3, 0), (1, 0), (2, 0)]);
}
