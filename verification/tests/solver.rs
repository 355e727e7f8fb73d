use maze_generator::maze::Maze;

#[test]
fn shortest_path_is_found_among_several() {
    let mut maze = Maze::new(3, 3);
    // A ring around the centre, and a shortcut through it.
    maze.remove_wall(0, 0, 1, 0);
    maze.remove_wall(1, 0, 2, 0);
    maze.remove_wall(2, 0, 2, 1);
    maze.remove_wall(2, 1, 2, 2);
    maze.remove_wall(0, 0, 0, 1);
    maze.remove_wall(0, 1, 0, 2);
    maze.remove_wall(0, 2, 1, 2);
    maze.remove_wall(1, 2, 2, 2);
    let path = maze.solve().unwrap();
    assert_eq!(path.len(), 5);
    assert_eq!(path, vec![(0, 0), (1, 0), (2, 0), (2, 1), (2, 2)]);
}

#[test]
fn solver_takes_the_detour_when_the_direct_way_is_walled() {
    let mut maze = Maze::new(3, 2);
    maze.remove_wall(0, 0, 0, 1);
    maze.remove_wall(0, 1, 1, 1);
    maze.remove_wall(1, 1, 1, 0);
    maze.remove_wall(1, 0, 2, 0);
    maze.remove_wall(2, 0, 2, 1);
    assert_eq!(
        maze.solve(),
        Some(vec![(0, 0), (0, 1), (1, 1), (1, 0), (2, 0), (2, 1)])
    );
}

#[test]
fn single_cell_maze_is_solved_in_place() {
    let maze = Maze::new(1, 1);
    assert_eq!(maze.solve(), Some(vec![(0, 0)]));
}

#[test]
fn flood_records_distances_and_predecessors() {
    let mut maze = Maze::new(3, 1);
    maze.remove_wall(0, 0, 1, 0);
    let found = maze.flood(0, 0);
    assert!(found.reaches(0, 0));
    assert!(found.reaches(1, 0));
    assert!(!found.reaches(2, 0));
    assert_eq!(found.steps_to(0, 0), 0);
    assert_eq!(found.steps_to(1, 0), 1);
    assert_eq!(found.before(1, 0), (0, 0));
    assert_eq!(found.cells(), vec![(0, 0), (1, 0)]);
    assert_eq!(found.width(), 3);
    assert_eq!(found.height(), 1);
}

#[test]
fn neighbors_are_listed_west_east_north_south() {
    let maze = Maze::new(3, 3);
    assert_eq!(maze.get_neighbors(1, 1), vec![(0, 1), (2, 1), (1, 0), (1, 2)]);
    assert_eq!(maze.get_neighbors(0, 0), vec![(1, 0), (0, 1)]);
    assert_eq!(maze.get_neighbors(2, 2), vec![(1, 2), (2, 1)]);
    assert!(Maze::new(1, 1).get_neighbors(0, 0).is_empty());
}

#[test]
fn accessible_neighbors_follow_the_walls() {
    let mut maze = Maze::new(3, 3);
    assert!(maze.get_accessible_neighbors(1, 1).is_empty());
    maze.remove_wall(1, 1, 1, 2);
    maze.remove_wall(1, 1, 0, 1);
    assert_eq!(maze.get_accessible_neighbors(1, 1), vec![(0, 1), (1, 2)]);
    assert_eq!(maze.get_accessible_neighbors(0, 1), vec![(1, 1)]);
    assert!(maze.get_accessible_neighbors(7, 7).is_empty());
}

#[test]
fn has_wall_reads_the_first_cell() {
    let mut maze = Maze::new(3, 3);
    assert!(maze.has_wall(0, 0, 1, 0));
    maze.remove_wall(0, 0, 1, 0);
    assert!(!maze.has_wall(0, 0, 1, 0));
    assert!(maze.has_wall(0, 0, 0, 1));
    assert!(maze.has_wall(0, 0, 2, 2));
    assert!(maze.has_wall(0, 0, 5, 0));
    assert!(maze.has_wall(3, 0, 2, 0));
}

#[test]
fn add_wall_closes_both_sides() {
    let mut maze = Maze::new(2, 2);
    maze.remove_wall(0, 0, 1, 0);
    maze.remove_wall(0, 0, 0, 1);
    maze.add_wall(1, 0, 0, 0);
    assert!(maze.get_cell(0, 0).unwrap().east);
    assert!(maze.get_cell(1, 0).unwrap().west);
    assert!(!maze.get_cell(0, 0).unwrap().south);
    let before = maze.clone();
    maze.add_wall(0, 0, 1, 1);
    maze.add_wall(0, 0, 2, 0);
    assert_eq!(maze, before);
}

#[test]
fn solver_takes_the_way_the_search_enters_first() {
    // Every wall of a 3 by 3 grid removed: six shortest ways.
    let mut maze = Maze::new(3, 3);
    for y in 0..3 {
        for x in 0..3 {
            maze.remove_wall(x, y, x + 1, y);
            maze.remove_wall(x, y, x, y + 1);
        }
    }
    let expected = vec![(0, 0), (1, 0), (2, 0), (2, 1), (2, 2)];
    assert_eq!(maze.solve(), Some(expected.clone()));
    assert_eq!(maze.solve(), Some(expected));
    // The exit is entered from the first cell of the level before it, which
    // is not the first of its own neighbours: west comes before north.
    let found = maze.flood(0, 0);
    assert_eq!(found.before(2, 2), (2, 1));
    assert_eq!(found.before(1, 1), (1, 0));
    assert_eq!(found.before(2, 1), (2, 0));
    assert_eq!(found.before(1, 2), (1, 1));
}

#[test]
fn has_wall_chooses_the_side_by_the_columns_first() {
    let mut maze = Maze::new(3, 3);
    maze.remove_wall(0, 0, 1, 0);
    // One column to the east, two rows down: the east wall is read.
    assert!(!maze.has_wall(0, 0, 1, 2));
    assert!(maze.has_wall(0, 0, 0, 2));
    assert!(maze.has_wall(0, 0, 2, 0));
}
