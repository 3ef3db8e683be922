use pathgrid::universe::GridNode;
use pathgrid::universe::Universe;

#[test]
fn new_grid_is_blank_and_row_major() {
    let universe = Universe::new(3, 2);
    assert_eq!(universe.width, 3);
    assert_eq!(universe.height, 2);
    assert_eq!(universe.nodes.len(), 6);
    for y in 0..2 {
        for x in 0..3 {
            let expected = GridNode { x, y, weight: 0, passable: true };
            assert_eq!(universe.get_cell(x, y), expected);
            assert_eq!(universe.nodes[(y * 3 + x) as usize], expected);
            assert_eq!(universe.get_index(x, y), (y * 3 + x) as usize);
            assert_eq!(*universe.get_cell_ref(x, y), expected);
        }
    }
}

#[test]
fn set_weight_and_set_passable_change_one_cell() {
    let mut universe = Universe::new(4, 4);
    universe.set_weight(1, 2, 7);
    universe.set_passable(3, 0, false);
    for y in 0..4 {
        for x in 0..4 {
            let cell = universe.get_cell(x, y);
            assert_eq!(cell.weight, if (x, y) == (1, 2) { 7 } else { 0 });
            assert_eq!(cell.passable, (x, y) != (3, 0));
            assert_eq!((cell.x, cell.y), (x, y));
        }
    }
}

#[test]
fn reset_clears_weights_and_walls_and_keeps_dimensions() {
    let mut universe = Universe::new(4, 3);
    universe.set_weight(1, 2, 7);
    universe.set_passable(3, 0, false);
    universe.reset();
    assert_eq!((universe.width, universe.height), (4, 3));
    assert_eq!(universe.nodes, Universe::new(4, 3).nodes);
}

#[test]
fn resize_replaces_the_grid_by_a_blank_one() {
    let mut universe = Universe::new(4, 3);
    universe.set_weight(1, 2, 7);
    universe.resize(2, 5);
    assert_eq!((universe.width, universe.height), (2, 5));
    assert_eq!(universe.nodes, Universe::new(2, 5).nodes);
    assert_eq!(universe.get_cell(1, 4), GridNode { x: 1, y: 4, weight: 0, passable: true });
}

#[test]
fn neighbours_come_up_down_left_right_without_walls_or_outside_cells() {
    let mut universe = Universe::new(3, 3);
    let around: Vec<(i32, i32)> = universe.get_neighbors(1, 1).iter().map(|c| (c.x, c.y)).collect();
    assert_eq!(around, vec![(1, 0), (1, 2), (0, 1), (2, 1)]);
    let corner: Vec<(i32, i32)> = universe.get_neighbors(0, 0).iter().map(|c| (c.x, c.y)).collect();
    assert_eq!(corner, vec![(0, 1), (1, 0)]);
    universe.set_passable(1, 2, false);
    universe.set_passable(0, 1, false);
    let fewer: Vec<(i32, i32)> = universe.get_neighbors(1, 1).iter().map(|c| (c.x, c.y)).collect();
    assert_eq!(fewer, vec![(1, 0), (2, 1)]);
    let last: Vec<(i32, i32)> = universe.get_neighbors(2, 2).iter().map(|c| (c.x, c.y)).collect();
    assert_eq!(last, vec![(2, 1)]);
}

#[test]
fn heuristic_is_the_manhattan_distance() {
    let a = GridNode { x: 1, y: 7, weight: 3, passable: true };
    let b = GridNode { x: 4, y: 2, weight: 0, passable: false };
    assert_eq!(Universe::heuristic(&a, &b), 8);
    assert_eq!(Universe::heuristic(&b, &a), 8);
    assert_eq!(Universe::heuristic(&a, &a), 0);
}

#[test]
fn default_cell_sits_at_the_origin_and_is_impassable() {
    assert_eq!(GridNode::default(), GridNode { x: 0, y: 0, weight: 0, passable: false });
}
