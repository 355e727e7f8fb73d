use maze_generator::cell_grid::CellSet;
use maze_generator::connectivity::{cell_distance, flood_region, nearest_pair, regions};
use maze_generator::maze::Maze;

fn passages(maze: &Maze) -> u32 {
    let mut count = 0;
    for y in 0..maze.height() {
        for x in 0..maze.width() {
            let cell = maze.get_cell(x, y).unwrap();
            if x + 1 < maze.width() && !cell.east {
                count += 1;
            }
            if y + 1 < maze.height() && !cell.south {
                count += 1;
            }
        }
    }
    count
}

fn two_halves() -> Maze {
    // Columns 0..2 hang together, columns 2..4 hang together, and every wall
    // between column 1 and column 2 stands.
    let mut maze = Maze::new(4, 3);
    for y in 0..3 {
        maze.remove_wall(0, y, 1, y);
        maze.remove_wall(2, y, 3, y);
    }
    for y in 0..2 {
        maze.remove_wall(0, y, 0, y + 1);
        maze.remove_wall(3, y, 3, y + 1);
    }
    maze
}

#[test]
fn repair_joins_two_halves_by_one_corridor() {
    let mut maze = two_halves();
    assert_eq!(maze.solve(), None);
    let before = passages(&maze);
    maze.ensure_connectivity();
    assert_eq!(passages(&maze), before + 1);
    assert!(!maze.has_wall(1, 0, 2, 0));
    let path = maze.solve().unwrap();
    assert_eq!(path.first(), Some(&(0, 0)));
    assert_eq!(path.last(), Some(&(3, 2)));
    assert!(maze.flood(0, 0).reaches(3, 2));
}

#[test]
fn repair_leaves_a_solvable_maze_alone() {
    let mut maze = Maze::new(3, 3);
    maze.carve_corridor(0, 0, 2, 2);
    let before = maze.clone();
    maze.ensure_connectivity();
    assert_eq!(maze, before);
}

#[test]
fn repair_of_a_walled_maze_carves_entry_to_exit() {
    let mut maze = Maze::new(3, 3);
    maze.ensure_connectivity();
    assert_eq!(maze.solve(), Some(vec![(0, 0), (1, 0), (2, 0), (2, 1), (2, 2)]));
    assert_eq!(passages(&maze), 4);
}

#[test]
fn repair_takes_the_nearest_pair() {
    let mut maze = Maze::new(5, 5);
    // The entry side reaches (2, 2); the exit side reaches (3, 2).
    maze.carve_corridor(0, 0, 2, 2);
    maze.carve_corridor(4, 4, 3, 2);
    assert_eq!(maze.solve(), None);
    let before = passages(&maze);
    maze.ensure_connectivity();
    assert_eq!(passages(&maze), before + 1);
    assert!(!maze.has_wall(2, 2, 3, 2));
}

#[test]
fn corridor_runs_along_the_row_then_the_column() {
    let mut maze = Maze::new(4, 4);
    maze.carve_corridor(3, 1, 1, 3);
    assert!(!maze.has_wall(3, 1, 2, 1));
    assert!(!maze.has_wall(2, 1, 1, 1));
    assert!(!maze.has_wall(1, 1, 1, 2));
    assert!(!maze.has_wall(1, 2, 1, 3));
    assert_eq!(passages(&maze), 4);
    let mut same = Maze::new(4, 4);
    same.carve_corridor(2, 2, 2, 2);
    assert_eq!(same, Maze::new(4, 4));
}

#[test]
fn manhattan_distance_is_symmetric() {
    assert_eq!(cell_distance((1, 5), (4, 1)), 7);
    assert_eq!(cell_distance((4, 1), (1, 5)), 7);
    assert_eq!(cell_distance((3, 3), (3, 3)), 0);
    assert_eq!(cell_distance((0, 0), (u32::MAX, u32::MAX)), 2 * (u32::MAX as u64));
}

#[test]
fn nearest_pair_prefers_the_first_on_a_tie() {
    let near = vec![(0, 0), (2, 0), (2, 2)];
    let far = vec![(5, 5), (4, 0), (2, 4)];
    assert_eq!(nearest_pair(&near, &far), Some((1, 1)));
    assert_eq!(nearest_pair(&near, &vec![]), None);
    assert_eq!(nearest_pair(&vec![], &far), None);
    assert_eq!(nearest_pair(&vec![(1, 1)], &vec![(1, 1)]), Some((0, 0)));
}

#[test]
fn connect_nearest_reports_the_ends() {
    let mut maze = Maze::new(4, 4);
    let joined = maze.connect_nearest(&vec![(0, 0), (1, 1)], &vec![(3, 3), (3, 1)]);
    assert_eq!(joined, Some(((1, 1), (3, 1))));
    assert!(!maze.has_wall(1, 1, 2, 1));
    assert!(!maze.has_wall(2, 1, 3, 1));
    assert_eq!(passages(&maze), 2);
    let before = maze.clone();
    assert_eq!(maze.connect_nearest(&vec![], &vec![(0, 0)]), None);
    assert_eq!(maze, before);
}

#[test]
fn regions_are_listed_row_by_row() {
    let mut maze = Maze::new(3, 2);
    maze.remove_wall(0, 0, 1, 0);
    maze.remove_wall(2, 0, 2, 1);
    let mut eligible = CellSet::new(3, 2);
    for y in 0..2 {
        for x in 0..3 {
            eligible.insert(x, y);
        }
    }
    eligible.remove(1, 1);
    let groups = regions(&maze, &eligible);
    assert_eq!(groups, vec![vec![(0, 0), (1, 0)], vec![(2, 0), (2, 1)], vec![(0, 1)]]);
    let mut visited = CellSet::new(3, 2);
    assert_eq!(flood_region(&maze, &eligible, &mut visited, 2, 1), vec![(2, 1), (2, 0)]);
    assert!(visited.contains(2, 0));
}

#[test]
fn stitching_links_each_group_to_the_next() {
    let mut maze = Maze::new(5, 1);
    let groups = vec![vec![(0, 0)], vec![(2, 0)], vec![(4, 0)]];
    maze.stitch_components(&groups);
    assert_eq!(maze.solve(), Some(vec![(0, 0), (1, 0), (2, 0), (3, 0), (4, 0)]));
}

#[test]
fn stitching_carves_its_corridors_and_nothing_else() {
    let mut maze = Maze::new(4, 3);
    let groups = vec![vec![(0, 0), (0, 1)], vec![], vec![(2, 1)], vec![(3, 2), (3, 0)]];
    maze.stitch_components(&groups);
    // Nothing is joined to the empty group; the last two groups are joined
    // between (2, 1) and (3, 2), the first of two pairs equally near.
    let mut expected = Maze::new(4, 3);
    expected.remove_wall(2, 1, 3, 1);
    expected.remove_wall(3, 1, 3, 2);
    assert_eq!(maze, expected);
}
