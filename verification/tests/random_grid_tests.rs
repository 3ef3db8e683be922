use pathgrid::universe::GridNode;
use pathgrid::universe::MazeType;
use pathgrid::universe::PathFindingAlgorithm;
use pathgrid::universe::Universe;

struct Dice(u64);

impl Dice {
    fn roll(&mut self, sides: u64) -> u64 {
        self.0 = self.0.wrapping_mul(6364136223846793005).wrapping_add(1442695040888963407);
        (self.0 >> 33) % sides
    }
}

fn random_grid(dice: &mut Dice, width: i32, height: i32) -> Universe {
    let mut universe = Universe::new(width as u32, height as u32);
    for y in 0..height {
        for x in 0..width {
            if dice.roll(4) == 0 {
                universe.set_passable(x, y, false);
            }
            if dice.roll(3) == 0 {
                universe.set_weight(x, y, dice.roll(9) as i32);
            }
        }
    }
    universe
}

/// Cheapest cost and fewest moves from `from` to every cell, by relaxing
/// every move until nothing changes.
fn distances(universe: &Universe, from: (i32, i32)) -> (Vec<Option<i32>>, Vec<Option<i32>>) {
    let w = universe.width as i32;
    let h = universe.height as i32;
    let at = |x: i32, y: i32| (y * w + x) as usize;
    let mut cost: Vec<Option<i32>> = vec![None; (w * h) as usize];
    let mut moves: Vec<Option<i32>> = vec![None; (w * h) as usize];
    cost[at(from.0, from.1)] = Some(0);
    moves[at(from.0, from.1)] = Some(0);
    let mut changed = true;
    while changed {
        changed = false;
        for y in 0..h {
            for x in 0..w {
                let (Some(c), Some(m)) = (cost[at(x, y)], moves[at(x, y)]) else {
                    continue;
                };
                for (nx, ny) in [(x, y - 1), (x, y + 1), (x - 1, y), (x + 1, y)] {
                    if nx < 0 || ny < 0 || nx >= w || ny >= h {
                        continue;
                    }
                    let cell = universe.get_cell(nx, ny);
                    if !cell.passable {
                        continue;
                    }
                    let through = c + cell.weight + 1;
                    if cost[at(nx, ny)].map_or(true, |known| through < known) {
                        cost[at(nx, ny)] = Some(through);
                        changed = true;
                    }
                    if moves[at(nx, ny)].map_or(true, |known| m + 1 < known) {
                        moves[at(nx, ny)] = Some(m + 1);
                        changed = true;
                    }
                }
            }
        }
    }
    (cost, moves)
}

fn cost_of(path: &[GridNode]) -> i32 {
    path.iter().skip(1).map(|c| c.weight + 1).sum()
}

fn assert_steps(universe: &Universe, path: &[GridNode], last_may_be_wall: bool) {
    for (i, pair) in path.windows(2).enumerate() {
        assert_eq!((pair[0].x - pair[1].x).abs() + (pair[0].y - pair[1].y).abs(), 1);
        assert_eq!(universe.get_cell(pair[1].x, pair[1].y), pair[1]);
        if !(last_may_be_wall && i + 2 == path.len()) {
            assert!(pair[1].passable);
        }
    }
}

#[test]
fn searches_agree_with_plain_relaxation_on_random_grids() {
    let mut dice = Dice(2024);
    for round in 0..3000 {
        let width = 1 + dice.roll(7) as i32;
        let height = 1 + dice.roll(7) as i32;
        let universe = random_grid(&mut dice, width, height);
        assert!(universe.has_room_for_costs());
        let from = (dice.roll(width as u64) as i32, dice.roll(height as u64) as i32);
        let to = (dice.roll(width as u64) as i32, dice.roll(height as u64) as i32);
        let at = |x: i32, y: i32| (y * width + x) as usize;
        let (cost, moves) = distances(&universe, from);
        let (back_cost, _) = distances(&universe, to);
        let start = universe.get_cell(from.0, from.1);
        let end = universe.get_cell(to.0, to.1);
        let reachable: Vec<GridNode> = universe
            .nodes
            .iter()
            .filter(|c| cost[at(c.x, c.y)].is_some())
            .cloned()
            .collect();

        for algorithm in [
            PathFindingAlgorithm::Astar,
            PathFindingAlgorithm::Dijkstra,
            PathFindingAlgorithm::BFS,
            PathFindingAlgorithm::DFS,
            PathFindingAlgorithm::GreedyBFS,
        ] {
            let cheapest = matches!(
                algorithm,
                PathFindingAlgorithm::Astar | PathFindingAlgorithm::Dijkstra
            );
            let shortest = matches!(algorithm, PathFindingAlgorithm::BFS);
            let result = universe.find_path(from.0, from.1, to.0, to.1, algorithm);
            assert_eq!(result.processed[0], start, "round {}", round);
            for cell in &result.processed {
                assert!(reachable.contains(cell));
            }
            match cost[at(to.0, to.1)] {
                None => {
                    assert!(result.path.is_empty());
                    for cell in &reachable {
                        assert!(result.processed.contains(cell));
                    }
                }
                Some(best) => {
                    assert_eq!(result.path[0], start);
                    assert_eq!(*result.path.last().unwrap(), end);
                    assert_eq!(*result.processed.last().unwrap(), end);
                    assert_steps(&universe, &result.path, false);
                    if cheapest {
                        assert_eq!(cost_of(&result.path), best, "round {}", round);
                    }
                    if shortest {
                        assert_eq!(
                            result.path.len() as i32 - 1,
                            moves[at(to.0, to.1)].unwrap(),
                            "round {}",
                            round
                        );
                    }
                }
            }
        }

        for algorithm in [
            PathFindingAlgorithm::AstarBidirectional,
            PathFindingAlgorithm::BFSBidirectional,
        ] {
            let by_levels = matches!(algorithm, PathFindingAlgorithm::BFSBidirectional);
            let result = universe.find_path(from.0, from.1, to.0, to.1, algorithm);
            assert_eq!(result.processed[0], start);
            let meet = universe
                .nodes
                .iter()
                .any(|c| cost[at(c.x, c.y)].is_some() && back_cost[at(c.x, c.y)].is_some());
            assert_eq!(!result.path.is_empty(), meet, "round {}", round);
            if end.passable {
                assert_eq!(meet, cost[at(to.0, to.1)].is_some());
            }
            if meet {
                assert_eq!(result.path[0], start);
                assert_eq!(*result.path.last().unwrap(), end);
                assert_steps(&universe, &result.path, true);
                if end.passable {
                    assert_steps(&universe, &result.path, false);
                    if by_levels {
                        assert_eq!(
                            result.path.len() as i32 - 1,
                            moves[at(to.0, to.1)].unwrap(),
                            "round {}",
                            round
                        );
                    }
                }
            } else {
                for cell in &universe.nodes {
                    if cost[at(cell.x, cell.y)].is_some() || back_cost[at(cell.x, cell.y)].is_some() {
                        assert!(result.processed.contains(cell));
                    }
                }
            }
        }
    }
}

#[test]
fn a_random_fill_of_one_half_picks_some_cells_and_leaves_some() {
    let universe = Universe::new(40, 40);
    let maze = universe.generate_maze(MazeType::Random50);
    assert!(!maze.is_empty());
    assert!(maze.len() < 1600);
}

#[test]
fn recursive_division_leaves_the_gaps_open() {
    for size in [7u32, 12, 21] {
        let universe = Universe::new(size, size);
        let maze = universe.generate_maze(MazeType::RecursiveDivision);
        let border = 4 * size as usize;
        // behind the surrounding wall every cell lies strictly inside it
        for cell in &maze[border..] {
            assert!(1 <= cell.x && cell.x <= size as i32 - 2);
            assert!(1 <= cell.y && cell.y <= size as i32 - 2);
        }
    }
}
