use pathgrid::universe::GridNode;
use pathgrid::universe::Universe;

fn walled_grid() -> Universe {
    let w: i32 = -1;
    let h = 1000;

    let grid_w = [
        [0, 0, w, 0, 0],
        [0, 0, w, 0, 0],
        [0, 0, w, 0, 0],
        [0, 0, h, 0, 0],
        [0, 0, 0, 0, 0],
    ];

    let mut universe = Universe::new(grid_w[0].len() as u32, grid_w.len() as u32);
    for y in 0..grid_w.len() {
        for x in 0..grid_w[y].len() {
            match grid_w[y][x] {
                n if n == w => universe.set_passable(x as i32, y as i32, false),
                n if n == h => universe.set_weight(x as i32, y as i32, n as i32),
                _ => {}
            }
        }
    }
    universe
}

fn cost_of(path: &[GridNode]) -> i32 {
    path.iter().skip(1).map(|c| c.weight + 1).sum()
}

fn assert_path(universe: &Universe, path: &[GridNode], from: (i32, i32), to: (i32, i32)) {
    assert_eq!(path[0], universe.get_cell(from.0, from.1));
    assert_eq!(*path.last().unwrap(), universe.get_cell(to.0, to.1));
    for pair in path.windows(2) {
        assert_eq!((pair[0].x - pair[1].x).abs() + (pair[0].y - pair[1].y).abs(), 1);
        assert!(pair[1].passable);
        assert_eq!(universe.get_cell(pair[1].x, pair[1].y), pair[1]);
    }
}

#[test]
fn astar_works() {
    let w: i32 = -1;
    let h = 1000;

    let grid_w = [
        [0, 0, w, 0, 0],
        [0, 0, w, 0, 0],
        [0, 0, w, 0, 0],
        [0, 0, h, 0, 0],
        [0, 0, 0, 0, 0],
    ];

    let mut universe = Universe::new(grid_w[0].len() as u32, grid_w.len() as u32);

    assert_eq!(universe.nodes.len(), grid_w[0].len() * grid_w.len());

    for y in 0..grid_w.len() {
        for x in 0..grid_w[y].len() {
            match grid_w[y][x] {
                n if n == w => universe.set_passable(x as i32, y as i32, false),
                n if n == h => universe.set_weight(x as i32, y as i32, n as i32),
                _ => {}
            }
        }
    }

    let path = universe.astar(0, 0, 4, 3);
    println!("visited {}", path.processed.len());
    assert_eq!(path.path.len(), 10);
}

#[test]
fn astar_goes_around_the_wall_and_the_heavy_cell() {
    let universe = walled_grid();
    let result = universe.astar(0, 0, 4, 3);
    let cells: Vec<(i32, i32)> = result.path.iter().map(|c| (c.x, c.y)).collect();
    assert_eq!(cells.len(), 10);
    assert!(!cells.contains(&(2, 3)));
    assert!(cells.contains(&(2, 4)));
    assert_eq!(cost_of(&result.path), 9);
    assert_path(&universe, &result.path, (0, 0), (4, 3));
}

#[test]
fn dijkstra_and_astar_return_paths_of_equal_cost() {
    let universe = walled_grid();
    for (from, to) in [((0, 0), (4, 3)), ((1, 2), (3, 0)), ((0, 4), (4, 0)), ((3, 3), (1, 3))] {
        let by_dijkstra = universe.dijkstra(from.0, from.1, to.0, to.1);
        let by_astar = universe.astar(from.0, from.1, to.0, to.1);
        assert!(!by_dijkstra.path.is_empty());
        assert_eq!(cost_of(&by_dijkstra.path), cost_of(&by_astar.path));
        assert_path(&universe, &by_dijkstra.path, from, to);
        assert_path(&universe, &by_astar.path, from, to);
    }
}

#[test]
fn dijkstra_pays_the_weight_when_the_detour_costs_more() {
    let mut universe = Universe::new(3, 1);
    universe.set_weight(1, 0, 5);
    let result = universe.dijkstra(0, 0, 2, 0);
    assert_eq!(result.path.len(), 3);
    assert_eq!(cost_of(&result.path), 7);
}

#[test]
fn dijkstra_prefers_a_longer_path_that_costs_less() {
    let mut universe = Universe::new(3, 2);
    universe.set_weight(1, 0, 5);
    let result = universe.dijkstra(0, 0, 2, 0);
    let cells: Vec<(i32, i32)> = result.path.iter().map(|c| (c.x, c.y)).collect();
    assert_eq!(cells, vec![(0, 0), (0, 1), (1, 1), (2, 1), (2, 0)]);
    assert_eq!(cost_of(&result.path), 4);
}

#[test]
fn weighted_searches_with_start_equal_to_end_return_that_cell() {
    let universe = walled_grid();
    assert_eq!(universe.dijkstra(1, 1, 1, 1).path, vec![universe.get_cell(1, 1)]);
    assert_eq!(universe.astar(3, 3, 3, 3).path, vec![universe.get_cell(3, 3)]);
    assert_eq!(universe.astar(3, 3, 3, 3).processed, vec![universe.get_cell(3, 3)]);
}

#[test]
fn weighted_searches_report_an_unreachable_end_with_an_empty_path() {
    let mut universe = Universe::new(5, 5);
    for x in 0..5 {
        universe.set_passable(x, 2, false);
    }
    for result in [universe.dijkstra(0, 0, 4, 4), universe.astar(0, 0, 4, 4)] {
        assert!(result.path.is_empty());
        for y in 0..2 {
            for x in 0..5 {
                assert!(result.processed.contains(&universe.get_cell(x, y)));
            }
        }
        for cell in &result.processed {
            assert!(cell.y < 2);
        }
    }
}

#[test]
fn costs_fit_unless_the_weights_add_up_too_high() {
    let mut universe = Universe::new(4, 4);
    assert!(universe.has_room_for_costs());
    universe.set_weight(0, 0, i32::MAX / 2);
    assert!(!universe.has_room_for_costs());
    universe.set_weight(0, 0, i32::MAX / 2 - 100);
    assert!(universe.has_room_for_costs());
}
