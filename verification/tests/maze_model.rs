use maze_generator::grid::Cell;
use maze_generator::maze::Maze;

#[test]
fn new_cell_has_all_walls() {
    let cell = Cell::new();
    assert!(cell.north && cell.south && cell.east && cell.west);
    assert!(cell.is_isolated());
    assert_eq!(Cell::default(), cell);
}

#[test]
fn new_maze_is_fully_walled() {
    let maze = Maze::new(4, 3);
    assert_eq!(maze.width(), 4);
    assert_eq!(maze.height(), 3);
    for y in 0..3 {
        for x in 0..4 {
            assert!(maze.get_cell(x, y).unwrap().is_isolated());
        }
    }
    assert!(maze.get_cell(4, 0).is_none());
    assert!(maze.get_cell(0, 3).is_none());
}

#[test]
fn remove_wall_clears_both_sides() {
    let mut maze = Maze::new(3, 3);
    maze.remove_wall(0, 0, 1, 0);
    assert!(!maze.get_cell(0, 0).unwrap().east);
    assert!(!maze.get_cell(1, 0).unwrap().west);
    assert!(!maze.has_wall(0, 0, 1, 0));
    assert!(!maze.has_wall(1, 0, 0, 0));
    maze.remove_wall(1, 1, 1, 0);
    assert!(!maze.get_cell(1, 1).unwrap().north);
    assert!(!maze.get_cell(1, 0).unwrap().south);
}

#[test]
fn remove_wall_ignores_bad_coordinates() {
    let mut maze = Maze::new(3, 3);
    maze.remove_wall(0, 0, 1, 0);
    let before = maze.clone();
    maze.remove_wall(0, 0, 2, 0);
    maze.remove_wall(0, 0, 1, 1);
    maze.remove_wall(0, 0, 0, 0);
    maze.remove_wall(2, 2, 3, 2);
    maze.remove_wall(5, 5, 5, 6);
    maze.remove_wall(u32::MAX, 0, 0, 0);
    assert_eq!(maze, before);
}

#[test]
fn corridor_is_solved_straight() {
    let mut maze = Maze::new(1, 5);
    for y in 0..4 {
        maze.remove_wall(0, y, 0, y + 1);
    }
    assert_eq!(maze.solve(), Some(vec![(0, 0), (0, 1), (0, 2), (0, 3), (0, 4)]));
}

#[test]
fn walled_maze_has_no_solution() {
    let maze = Maze::new(3, 3);
    assert_eq!(maze.solve(), None);
}

#[test]
fn a_maze_without_cells_has_only_its_size() {
    for (width, height) in [(0u32, 0u32), (0, 3), (5, 0)] {
        let maze = Maze::new(width, height);
        assert_eq!(maze.width(), width);
        assert_eq!(maze.height(), height);
        assert!(maze.get_cell(0, 0).is_none());
        assert!(maze.get_cell(4, 2).is_none());
    }
}

#[test]
fn walls_of_a_maze_without_cells_cannot_be_changed() {
    for (width, height) in [(0u32, 0u32), (0, 3), (5, 0)] {
        let mut maze = Maze::new(width, height);
        maze.remove_wall(0, 0, 1, 0);
        maze.remove_wall(0, 0, 0, 1);
        maze.add_wall(0, 0, 1, 0);
        assert_eq!(maze, Maze::new(width, height));
        assert!(maze.has_wall(0, 0, 1, 0));
        assert!(maze.has_wall(0, 0, 0, 1));
        assert!(maze.get_accessible_neighbors(0, 0).is_empty());
        assert!(maze.get_accessible_neighbors(2, 1).is_empty());
    }
}
