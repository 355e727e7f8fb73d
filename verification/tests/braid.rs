use maze_generator::algorithms::braid_postprocess::{braid_maze, braid_with, dead_ends};
use maze_generator::algorithms::recursive_backtracking::backtrack;
use maze_generator::complexity::Complexity;
use maze_generator::config::Algorithm;
use maze_generator::maze::Maze;
use maze_generator::rng::MazeRng;

fn passages(maze: &Maze) -> u32 {
    let mut count = 0;
    for y in 0..maze.height() {
        for x in 0..maze.width() {
            let cell = maze.get_cell(x, y).unwrap();
            if x + 1 < maze.width() && !cell.east {
                count += 1;
            }
            if y + 1 < maze.height() && !cell.south {
                count += 1;
            }
        }
    }
    count
}

#[test]
fn dead_ends_have_three_walls() {
    let mut maze = Maze::new(3, 1);
    maze.remove_wall(0, 0, 1, 0);
    maze.remove_wall(1, 0, 2, 0);
    assert_eq!(dead_ends(&maze), vec![(0, 0), (2, 0)]);
    assert!(dead_ends(&Maze::new(2, 2)).is_empty());
}

#[test]
fn braiding_never_adds_dead_ends_and_keeps_the_maze_solvable() {
    for seed in 0..20u64 {
        for &level in &[0u32, 250_000, 500_000, 1_000_000] {
            let complexity = Complexity::from_millionths(level);
            let mut maze = Algorithm::RecursiveBacktracking.generate(9, 7, complexity, Some(seed));
            let before = dead_ends(&maze).len();
            let open_before = passages(&maze);
            let mut rng = MazeRng::new(Some(seed));
            braid_with(&mut maze, complexity, &mut rng);
            assert!(dead_ends(&maze).len() <= before);
            assert!(passages(&maze) >= open_before);
            assert!(maze.solve().is_some());
        }
    }
}

#[test]
fn braiding_at_zero_complexity_changes_nothing() {
    let mut rng = MazeRng::new(Some(3));
    let mut maze = backtrack(6, 6, Complexity::from_millionths(0), &mut rng);
    let before = maze.clone();
    braid_with(&mut maze, Complexity::from_millionths(0), &mut rng);
    assert_eq!(maze, before);
}

#[test]
fn braiding_at_full_complexity_opens_one_wall_for_each_dead_end_at_most() {
    let mut rng = MazeRng::new(Some(8));
    let mut maze = backtrack(8, 8, Complexity::from_millionths(0), &mut rng);
    let ends = dead_ends(&maze).len() as u32;
    let before = passages(&maze);
    braid_with(&mut maze, Complexity::from_millionths(1_000_000), &mut rng);
    assert!(passages(&maze) > before);
    assert!(passages(&maze) <= before + ends);
}

#[test]
fn braiding_from_entropy_keeps_the_maze_solvable() {
    let mut maze = Algorithm::Prim.generate(6, 6, Complexity::from_millionths(0), Some(2));
    braid_maze(&mut maze, Complexity::from_millionths(700_000));
    assert!(maze.solve().is_some());
}

#[test]
fn braided_generator_has_fewer_dead_ends_than_the_plain_one() {
    let complexity = Complexity::from_millionths(1_000_000);
    let braided = Algorithm::RecursiveBacktrackingBraided.generate(10, 10, complexity, Some(5));
    assert!(braided.solve().is_some());
    assert!(passages(&braided) >= 99);
}
