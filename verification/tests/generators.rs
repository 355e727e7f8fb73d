use maze_generator::algorithms::MazeGenerator;
use maze_generator::algorithms::recursive_backtracking::RecursiveBacktracking;
use maze_generator::algorithms::kruskal::Kruskal;
use maze_generator::complexity::Complexity;
use maze_generator::config::Algorithm;
use maze_generator::maze::Maze;

fn complexity(value: f64) -> Complexity {
    Complexity::from_millionths((value * 1_000_000.0).round() as u32)
}

fn passages(maze: &Maze) -> u32 {
    let mut count = 0;
    for y in 0..maze.height() {
        for x in 0..maze.width() {
            let cell = maze.get_cell(x, y).unwrap();
            if x + 1 < maze.width() && !cell.east {
                count += 1;
            }
            if y + 1 < maze.height() && !cell.south {
                count += 1;
            }
        }
    }
    count
}

fn walls_agree(maze: &Maze) -> bool {
    for y in 0..maze.height() {
        for x in 0..maze.width() {
            let cell = maze.get_cell(x, y).unwrap();
            if x + 1 < maze.width() && cell.east != maze.get_cell(x + 1, y).unwrap().west {
                return false;
            }
            if y + 1 < maze.height() && cell.south != maze.get_cell(x, y + 1).unwrap().north {
                return false;
            }
            if x == 0 && !cell.west {
                return false;
            }
            if y == 0 && !cell.north {
                return false;
            }
            if x + 1 == maze.width() && !cell.east {
                return false;
            }
            if y + 1 == maze.height() && !cell.south {
                return false;
            }
        }
    }
    true
}

fn is_solution(maze: &Maze, path: &[(u32, u32)]) -> bool {
    if path.first() != Some(&(0, 0)) {
        return false;
    }
    if path.last() != Some(&(maze.width() - 1, maze.height() - 1)) {
        return false;
    }
    path.windows(2).all(|pair| {
        maze.get_accessible_neighbors(pair[0].0, pair[0].1).contains(&pair[1])
    })
}

#[test]
fn every_algorithm_yields_a_solvable_maze() {
    let sizes = [(2, 2), (2, 7), (5, 5), (9, 4), (12, 12)];
    let levels = [0.0, 0.05, 0.3, 0.5, 0.8, 1.0];
    for algorithm in Algorithm::all() {
        for &(width, height) in &sizes {
            for &level in &levels {
                for seed in [1u64, 42] {
                    let maze = algorithm.generate(width, height, complexity(level), Some(seed));
                    assert_eq!(maze.width(), width);
                    assert_eq!(maze.height(), height);
                    let path = maze.solve();
                    assert!(
                        path.is_some(),
                        "{} {}x{} at {} with seed {}",
                        algorithm.to_string(),
                        width,
                        height,
                        level,
                        seed
                    );
                    assert!(is_solution(&maze, &path.unwrap()));
                }
            }
        }
    }
}

#[test]
fn every_algorithm_keeps_walls_in_matched_pairs() {
    for algorithm in Algorithm::all() {
        for &level in &[0.0, 0.4, 1.0] {
            let maze = algorithm.generate(8, 6, complexity(level), Some(7));
            assert!(walls_agree(&maze), "{} at {}", algorithm.to_string(), level);
        }
    }
}

#[test]
fn every_algorithm_repeats_itself_under_a_seed() {
    for algorithm in Algorithm::all() {
        for &level in &[0.0, 0.5, 1.0] {
            let first = algorithm.generate(10, 8, complexity(level), Some(1234));
            let second = algorithm.generate(10, 8, complexity(level), Some(1234));
            assert_eq!(first, second, "{} at {}", algorithm.to_string(), level);
        }
    }
}

#[test]
fn seeds_change_the_maze() {
    let first = Algorithm::Prim.generate(12, 12, complexity(0.8), Some(1));
    let second = Algorithm::Prim.generate(12, 12, complexity(0.8), Some(2));
    assert_ne!(first, second);
}

#[test]
fn unseeded_generation_is_solvable() {
    for algorithm in Algorithm::all() {
        let maze = algorithm.generate(6, 6, complexity(0.5), None);
        assert!(maze.solve().is_some());
    }
}

#[test]
fn recursive_backtracking_at_zero_complexity_is_a_spanning_tree() {
    let maze = RecursiveBacktracking.generate(5, 5, complexity(0.0), Some(1));
    assert_eq!(passages(&maze), 5 * 5 - 1);
    assert!(maze.solve().is_some());
}

#[test]
fn kruskal_repeats_itself_under_a_seed() {
    let first = Kruskal.generate(3, 3, complexity(1.0), Some(7));
    let second = Kruskal.generate(3, 3, complexity(1.0), Some(7));
    assert_eq!(first, second);
    for y in 0..3 {
        for x in 0..3 {
            assert_eq!(first.get_cell(x, y), second.get_cell(x, y));
        }
    }
}

#[test]
fn a_corridor_is_solved_straight_under_every_algorithm() {
    let straight = vec![(0, 0), (0, 1), (0, 2), (0, 3), (0, 4)];
    for algorithm in Algorithm::all() {
        for &level in &[0.0, 0.5, 1.0] {
            let maze = algorithm.generate(1, 5, complexity(level), Some(3));
            assert_eq!(maze.solve(), Some(straight.clone()), "{}", algorithm.to_string());
        }
    }
}

#[test]
fn a_single_cell_is_its_own_solution() {
    for algorithm in Algorithm::all() {
        let maze = algorithm.generate(1, 1, complexity(0.5), Some(3));
        assert_eq!(maze.solve(), Some(vec![(0, 0)]), "{}", algorithm.to_string());
    }
}

#[test]
fn spanning_tree_algorithms_carve_a_tree_at_zero_complexity() {
    let trees = [
        Algorithm::RecursiveBacktracking,
        Algorithm::Kruskal,
        Algorithm::Prim,
        Algorithm::Wilsons,
        Algorithm::GrowingTree,
        Algorithm::HuntAndKill,
        Algorithm::BinaryTree,
        Algorithm::DfsIterative,
        Algorithm::Bfs,
    ];
    for algorithm in trees {
        let maze = algorithm.generate(7, 5, complexity(0.0), Some(11));
        assert_eq!(passages(&maze), 7 * 5 - 1, "{}", algorithm.to_string());
    }
}

#[test]
fn binary_tree_at_zero_complexity_opens_north_or_east() {
    let maze = Algorithm::BinaryTree.generate(4, 3, complexity(0.0), Some(5));
    for y in 0..3 {
        for x in 0..4 {
            let cell = maze.get_cell(x, y).unwrap();
            if y > 0 {
                assert!(!cell.north);
                assert_eq!(cell.east, true);
            } else if x < 3 {
                assert!(!cell.east);
            }
        }
    }
}

fn reaches_every_cell(maze: &Maze) -> bool {
    let found = maze.flood(0, 0);
    (0..maze.height()).all(|y| (0..maze.width()).all(|x| found.reaches(x, y)))
}

#[test]
fn tree_growing_algorithms_reach_every_cell() {
    let always = [
        Algorithm::RecursiveBacktracking,
        Algorithm::RecursiveBacktrackingBraided,
        Algorithm::Prim,
        Algorithm::GrowingTree,
        Algorithm::HuntAndKill,
        Algorithm::DfsIterative,
        Algorithm::BinaryTree,
        Algorithm::Sidewinder,
        Algorithm::RandomObstacle,
    ];
    for algorithm in always {
        for &level in &[0.0, 0.2, 0.45, 0.6, 0.9, 1.0] {
            for seed in 0..5u64 {
                let maze = algorithm.generate(9, 6, complexity(level), Some(seed));
                assert!(reaches_every_cell(&maze), "{} at {}", algorithm.to_string(), level);
            }
        }
    }
    for algorithm in [Algorithm::Kruskal, Algorithm::Bfs] {
        for &level in &[0.0, 0.05, 0.099] {
            for seed in 0..5u64 {
                let maze = algorithm.generate(9, 6, complexity(level), Some(seed));
                assert!(reaches_every_cell(&maze), "{} at {}", algorithm.to_string(), level);
            }
        }
    }
}

#[test]
fn binary_tree_cells_open_north_or_east() {
    for &level in &[0.0, 0.5, 1.0] {
        let maze = Algorithm::BinaryTree.generate(6, 5, complexity(level), Some(21));
        for y in 0..5 {
            for x in 0..6 {
                let cell = maze.get_cell(x, y).unwrap();
                let north = y > 0 && !cell.north;
                let east = x < 5 && !cell.east;
                assert!(north || east || (x == 5 && y == 0));
            }
        }
    }
}

#[test]
fn sidewinder_rows_are_open_and_linked_upward() {
    for &level in &[0.0, 0.5, 1.0] {
        let maze = Algorithm::Sidewinder.generate(6, 5, complexity(level), Some(21));
        for y in 0..5 {
            for x in 0..5 {
                assert!(!maze.get_cell(x, y).unwrap().east);
            }
            if y > 0 {
                assert!((0..6).any(|x| !maze.get_cell(x, y).unwrap().north));
            }
        }
    }
}

#[test]
fn tree_growing_algorithms_carve_a_tree_at_every_complexity() {
    let trees = [
        Algorithm::RecursiveBacktracking,
        Algorithm::Prim,
        Algorithm::GrowingTree,
        Algorithm::HuntAndKill,
        Algorithm::DfsIterative,
        Algorithm::BinaryTree,
        Algorithm::RecursiveDivision,
    ];
    for algorithm in trees {
        for &level in &[0.0, 0.3, 0.6, 1.0] {
            for seed in 0..4u64 {
                let maze = algorithm.generate(8, 5, complexity(level), Some(seed));
                assert_eq!(passages(&maze), 8 * 5 - 1, "{} at {}", algorithm.to_string(), level);
                assert!(reaches_every_cell(&maze));
            }
        }
    }
    for seed in 0..4u64 {
        let maze = Algorithm::Bfs.generate(8, 5, complexity(0.05), Some(seed));
        assert_eq!(passages(&maze), 8 * 5 - 1);
        let maze = Algorithm::Kruskal.generate(8, 5, complexity(0.05), Some(seed));
        assert_eq!(passages(&maze), 8 * 5 - 1);
    }
}

#[test]
fn binary_tree_does_not_depend_on_the_seed_at_low_complexity() {
    let first = Algorithm::BinaryTree.generate(7, 4, complexity(0.05), Some(1));
    let second = Algorithm::BinaryTree.generate(7, 4, complexity(0.0), Some(99));
    assert_eq!(first, second);
    for y in 0..4 {
        for x in 0..7 {
            let cell = first.get_cell(x, y).unwrap();
            assert_eq!(cell.north, y == 0);
            assert_eq!(cell.south, y == 3);
            assert_eq!(cell.east, y > 0 || x == 6);
            assert_eq!(cell.west, y > 0 || x == 0);
        }
    }
}

#[test]
fn random_obstacle_at_zero_complexity_is_open() {
    let maze = Algorithm::RandomObstacle.generate(5, 4, complexity(0.0), Some(3));
    assert_eq!(passages(&maze), 4 * 4 + 5 * 3);
    assert_eq!(maze, Algorithm::RandomObstacle.generate(5, 4, complexity(0.0), Some(8)));
}

#[test]
fn eller_links_every_cell_to_the_row_below() {
    for &level in &[0.0, 0.5, 1.0] {
        for seed in 0..3u64 {
            let maze = Algorithm::Eller.generate(7, 5, complexity(level), Some(seed));
            for y in 0..4 {
                for x in 0..7 {
                    let found = maze.flood(x, y);
                    assert!((0..7).any(|below| found.reaches(below, y + 1)));
                }
            }
        }
    }
}

#[test]
fn wilsons_carves_a_tree_at_every_complexity() {
    for &(width, height) in &[(1u32, 1u32), (1, 6), (2, 2), (8, 5), (13, 9)] {
        for &level in &[0.0, 0.05, 0.3, 0.6, 1.0] {
            for seed in 0..4u64 {
                let maze = Algorithm::Wilsons.generate(width, height, complexity(level), Some(seed));
                assert_eq!(passages(&maze), width * height - 1);
                assert!(reaches_every_cell(&maze));
                assert!(walls_agree(&maze));
            }
        }
    }
}

#[test]
fn aldous_broder_reaches_every_cell() {
    for &(width, height) in &[(1u32, 1u32), (1, 6), (2, 2), (8, 5), (13, 9)] {
        for &level in &[0.0, 0.05, 0.3, 0.6, 1.0] {
            for seed in 0..4u64 {
                let maze =
                    Algorithm::AldousBroder.generate(width, height, complexity(level), Some(seed));
                assert!(reaches_every_cell(&maze));
                assert!(passages(&maze) >= width * height - 1);
                if level == 0.0 {
                    assert_eq!(passages(&maze), width * height - 1);
                }
            }
        }
    }
}

#[test]
fn hamiltonian_at_zero_complexity_carves_the_serpentine() {
    let maze = Algorithm::Hamiltonian.generate(3, 2, complexity(0.0), Some(8));
    let mut expected = Maze::new(3, 2);
    expected.remove_wall(0, 0, 1, 0);
    expected.remove_wall(1, 0, 2, 0);
    expected.remove_wall(2, 0, 2, 1);
    expected.remove_wall(2, 1, 1, 1);
    expected.remove_wall(1, 1, 0, 1);
    assert_eq!(maze, expected);
    for &(width, height) in &[(1u32, 1u32), (4, 4), (7, 3), (2, 9)] {
        let maze = Algorithm::Hamiltonian.generate(width, height, complexity(0.0), None);
        assert_eq!(passages(&maze), width * height - 1);
        assert!(reaches_every_cell(&maze));
    }
}
