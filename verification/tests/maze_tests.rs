use pathgrid::universe::maze::Chamber;
use pathgrid::universe::GridNode;
use pathgrid::universe::MazeType;
use pathgrid::universe::Orientation;
use pathgrid::universe::Universe;

#[test]
fn recursive_division_maze_works() {
    let h: i32 = 25;
    let w: i32 = 62;
    let universe = Universe::new(w as u32, h as u32);

    assert_eq!(universe.nodes.len(), (w * h) as usize);

    let mut maze: Vec<GridNode> = Vec::new();
    universe.recursive_division_maze(
        &mut maze,
        2,
        h - 3,
        2,
        w - 3,
        Orientation::Horizontal,
        true,
    );

    assert_eq!(maze.len() > 0, true);
}

#[test]
fn recursive_division_stays_inside_the_grid() {
    for (w, h) in [(5u32, 5u32), (6, 9), (12, 7), (31, 17)] {
        let universe = Universe::new(w, h);
        let maze = universe.generate_maze(MazeType::RecursiveDivision);
        assert!(!maze.is_empty());
        for cell in &maze {
            assert!(0 <= cell.x && cell.x < w as i32);
            assert!(0 <= cell.y && cell.y < h as i32);
            assert_eq!(universe.get_cell(cell.x, cell.y), *cell);
        }
    }
}

#[test]
fn recursive_division_starts_with_the_surrounding_wall() {
    let universe = Universe::new(7, 6);
    let maze = universe.generate_maze(MazeType::RecursiveDivision);
    let mut border: Vec<(i32, i32)> = Vec::new();
    for row in 0..6 {
        border.push((0, row));
        border.push((6, row));
    }
    for col in 0..7 {
        border.push((col, 0));
        border.push((col, 5));
    }
    assert!(maze.len() > border.len());
    let begun: Vec<(i32, i32)> = maze[..border.len()].iter().map(|c| (c.x, c.y)).collect();
    assert_eq!(begun, border);
}

#[test]
fn recursive_division_is_empty_on_a_grid_too_small() {
    let universe = Universe::new(4, 9);
    assert!(universe.generate_maze(MazeType::RecursiveDivision).is_empty());
}

#[test]
fn an_empty_chamber_adds_nothing() {
    let universe = Universe::new(8, 8);
    let mut maze: Vec<GridNode> = vec![universe.get_cell(1, 1)];
    universe.recursive_division_maze(&mut maze, 4, 3, 2, 5, Orientation::Vertical, true);
    assert_eq!(maze, vec![universe.get_cell(1, 1)]);
}

#[test]
fn divide_draws_a_horizontal_wall_with_a_gap() {
    let universe = Universe::new(9, 9);
    let chamber = Chamber {
        row_start: 2,
        row_end: 6,
        col_start: 2,
        col_end: 6,
        orientation: Orientation::Horizontal,
    };
    let mut maze: Vec<GridNode> = Vec::new();
    let (above, below) = universe.divide(&mut maze, chamber, 4, 3);
    let wall: Vec<(i32, i32)> = maze.iter().map(|c| (c.x, c.y)).collect();
    assert_eq!(wall, vec![(1, 4), (2, 4), (4, 4), (5, 4), (6, 4), (7, 4)]);
    assert_eq!((above.row_start, above.row_end, above.col_start, above.col_end), (2, 2, 2, 6));
    assert_eq!(above.orientation, Orientation::Vertical);
    assert_eq!((below.row_start, below.row_end, below.col_start, below.col_end), (6, 6, 2, 6));
    assert_eq!(below.orientation, Orientation::Vertical);
}

#[test]
fn divide_draws_a_vertical_wall_with_a_gap() {
    let universe = Universe::new(9, 12);
    let chamber = Chamber {
        row_start: 2,
        row_end: 9,
        col_start: 2,
        col_end: 6,
        orientation: Orientation::Vertical,
    };
    let mut maze: Vec<GridNode> = Vec::new();
    let (left, right) = universe.divide(&mut maze, chamber, 5, 4);
    let wall: Vec<(i32, i32)> = maze.iter().map(|c| (c.x, c.y)).collect();
    assert_eq!(
        wall,
        vec![(4, 1), (4, 2), (4, 3), (4, 4), (4, 6), (4, 7), (4, 8), (4, 9), (4, 10)]
    );
    assert_eq!((left.row_start, left.row_end, left.col_start, left.col_end), (2, 9, 2, 2));
    assert_eq!(left.orientation, Orientation::Horizontal);
    assert_eq!((right.row_start, right.row_end, right.col_start, right.col_end), (2, 9, 6, 6));
    assert_eq!(right.orientation, Orientation::Horizontal);
}

#[test]
fn positions_lists_every_second_position() {
    assert_eq!(Universe::positions(2, 7), vec![2, 4, 6]);
    assert_eq!(Universe::positions(1, 8), vec![1, 3, 5, 7]);
    assert_eq!(Universe::positions(-1, 0), vec![-1]);
    assert_eq!(Universe::positions(3, 3), Vec::<i32>::new());
    assert_eq!(Universe::positions(5, 2), Vec::<i32>::new());
}

#[test]
fn select_nodes_keeps_the_cells_whose_draw_is_below_the_percentage() {
    let universe = Universe::new(3, 2);
    let mut maze: Vec<GridNode> = Vec::new();
    universe.select_nodes(&mut maze, &vec![10, 60, 49, 50, 0, 99], 50);
    let picked: Vec<(i32, i32)> = maze.iter().map(|c| (c.x, c.y)).collect();
    assert_eq!(picked, vec![(0, 0), (2, 0), (1, 1)]);
}

#[test]
fn random_fill_yields_cells_of_the_grid_in_grid_order() {
    let universe = Universe::new(10, 10);
    for maze_type in [MazeType::Random25, MazeType::Random50, MazeType::Random75] {
        let maze = universe.generate_maze(maze_type);
        assert!(maze.len() <= 100);
        let mut last: i32 = -1;
        for cell in &maze {
            assert_eq!(universe.get_cell(cell.x, cell.y), *cell);
            let index = cell.y * 10 + cell.x;
            assert!(index > last);
            last = index;
        }
    }
}

#[test]
fn random_nodes_picks_all_or_none_at_the_extremes() {
    let universe = Universe::new(4, 3);
    let mut all: Vec<GridNode> = Vec::new();
    universe.random_nodes(&mut all, 100);
    assert_eq!(all, universe.nodes);
    let mut none: Vec<GridNode> = Vec::new();
    universe.random_nodes(&mut none, 0);
    assert!(none.is_empty());
}

#[test]
fn surround_emits_the_ends_of_rows_then_of_columns() {
    let universe = Universe::new(3, 2);
    let mut maze: Vec<GridNode> = Vec::new();
    universe.surround(&mut maze);
    let cells: Vec<(i32, i32)> = maze.iter().map(|c| (c.x, c.y)).collect();
    assert_eq!(
        cells,
        vec![
            (0, 0), (2, 0), (0, 1), (2, 1),
            (0, 0), (0, 1), (1, 0), (1, 1), (2, 0), (2, 1)
        ]
    );
}
