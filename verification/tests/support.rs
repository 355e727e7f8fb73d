use maze_generator::algorithms::cellular_automata::smooth;
use maze_generator::algorithms::drunkards_walk::carve_target;
use maze_generator::algorithms::hamiltonian::{hamiltonian_path, search_with_effort};
use maze_generator::algorithms::random_obstacle::obstacle_count;
use maze_generator::algorithms::voronoi::{assign_regions, nearest_point, passage_count, point_count, squared};
use maze_generator::algorithms::{all_edges, cell_count, cell_index, pick_leaning, pick_step, same_cell, select_neighbors};
use maze_generator::cell_grid::{CellGrid, CellSet};
use maze_generator::complexity::Complexity;
use maze_generator::config::Algorithm;
use maze_generator::maze::Maze;
use maze_generator::rng::MazeRng;
use maze_generator::union_find::UnionFind;

#[test]
fn complexity_is_clamped_to_one() {
    assert_eq!(Complexity::from_millionths(0).millionths(), 0);
    assert_eq!(Complexity::from_millionths(333_333).millionths(), 333_333);
    assert_eq!(Complexity::from_millionths(1_000_000).millionths(), 1_000_000);
    assert_eq!(Complexity::from_millionths(1_000_001).millionths(), 1_000_000);
    assert_eq!(Complexity::from_millionths(u32::MAX).millionths(), 1_000_000);
    assert!(Complexity::from_millionths(99_999).below(100_000));
    assert!(!Complexity::from_millionths(100_000).below(100_000));
    assert!(!Complexity::from_millionths(0).positive());
    assert!(Complexity::from_millionths(1).positive());
}

#[test]
fn complexity_scales_probabilities() {
    let half = Complexity::from_millionths(500_000);
    assert_eq!(half.scaled(300_000, 500_000), 550_000);
    assert_eq!(half.scaled(0, 300_000), 150_000);
    assert_eq!(Complexity::from_millionths(0).scaled(300_000, 400_000), 300_000);
    assert_eq!(Complexity::from_millionths(1_000_000).scaled(300_000, 400_000), 700_000);
    assert_eq!(Complexity::from_millionths(333_333).scaled(0, 3), 0);
    assert_eq!(half.portion(9), 4);
    assert_eq!(half.portion(10), 5);
    assert_eq!(Complexity::from_millionths(1_000_000).portion(u64::MAX), u64::MAX);
    assert_eq!(Complexity::from_millionths(250_000).portion(4_000_000_000_003), 1_000_000_000_000);
    assert_eq!(Complexity::from_millionths(0).portion(77), 0);
}

#[test]
fn draws_stay_in_range_and_vary() {
    let mut rng = MazeRng::new(Some(99));
    let mut seen = std::collections::HashSet::new();
    for _ in 0..200 {
        let value = rng.between(10, 20);
        assert!((10..20).contains(&value));
        seen.insert(value);
    }
    assert!(seen.len() > 5);
    for _ in 0..50 {
        assert_eq!(rng.below(1), 0);
        assert!(rng.below(7) < 7);
        assert!(rng.coordinate(3) < 3);
        let c = rng.coordinate_between(4, 6);
        assert!((4..=6).contains(&c));
        assert_eq!(rng.coordinate_between(9, 9), 9);
    }
}

#[test]
fn seeded_draws_repeat() {
    let mut first = MazeRng::new(Some(5));
    let mut second = MazeRng::new(Some(5));
    let mut other = MazeRng::new(Some(6));
    let a: Vec<usize> = (0..32).map(|_| first.below(1_000_000)).collect();
    let b: Vec<usize> = (0..32).map(|_| second.below(1_000_000)).collect();
    let c: Vec<usize> = (0..32).map(|_| other.below(1_000_000)).collect();
    assert_eq!(a, b);
    assert_ne!(a, c);
}

#[test]
fn chances_respect_certainty() {
    let mut rng = MazeRng::new(Some(1));
    let mut hits = 0;
    for _ in 0..400 {
        assert!(!rng.chance(0, 5));
        assert!(rng.chance(5, 5));
        assert!(!rng.happens(0));
        assert!(rng.happens(1_000_000));
        assert!(rng.happens(2_000_000));
        if rng.chance(1, 2) {
            hits += 1;
        }
    }
    assert!(hits > 100 && hits < 300);
}

#[test]
fn shuffle_permutes() {
    let mut rng = MazeRng::new(Some(17));
    let mut items: Vec<u32> = (0..50).collect();
    rng.shuffle(&mut items);
    assert_ne!(items, (0..50).collect::<Vec<u32>>());
    let mut sorted = items.clone();
    sorted.sort();
    assert_eq!(sorted, (0..50).collect::<Vec<u32>>());
    let mut empty: Vec<u32> = Vec::new();
    rng.shuffle(&mut empty);
    assert!(empty.is_empty());
}

#[test]
fn picks_lean_toward_the_first() {
    let mut rng = MazeRng::new(Some(4));
    let low = Complexity::from_millionths(0);
    let high = Complexity::from_millionths(1_000_000);
    for _ in 0..50 {
        assert_eq!(pick_leaning(&mut rng, 4, low), 0);
        assert_eq!(pick_leaning(&mut rng, 1, high), 0);
        assert!(pick_leaning(&mut rng, 4, high) < 4);
        assert_eq!(pick_step(&mut rng, 1, low), 0);
        assert!(pick_step(&mut rng, 3, low) < 3);
        assert!(pick_step(&mut rng, 3, high) < 3);
    }
}

#[test]
fn cell_sets_count_their_members() {
    let mut set = CellSet::new(3, 2);
    assert_eq!(set.len(), 0);
    assert_eq!((set.width(), set.height()), (3, 2));
    assert!(set.insert(1, 1));
    assert!(!set.insert(1, 1));
    assert!(set.insert(2, 0));
    assert_eq!(set.len(), 2);
    assert!(set.contains(1, 1));
    assert!(!set.contains(0, 0));
    assert!(!set.contains(3, 0));
    assert!(!set.contains(0, 2));
    assert!(set.remove(1, 1));
    assert!(!set.remove(1, 1));
    assert_eq!(set.len(), 1);
    assert!(!set.contains(1, 1));
}

#[test]
fn cell_grids_hold_a_value_for_each_cell() {
    let mut grid = CellGrid::new(2, 3, 7u64);
    assert_eq!(grid.get(1, 2), 7);
    grid.set(1, 2, 9);
    assert_eq!(grid.get(1, 2), 9);
    assert_eq!(grid.get(0, 2), 7);
    assert_eq!(grid.get(1, 1), 7);
}

#[test]
fn union_find_merges_sets() {
    let mut sets = UnionFind::new(6);
    for i in 0..6 {
        assert_eq!(sets.find(i), i);
    }
    assert!(sets.union(0, 1));
    assert!(!sets.union(1, 0));
    assert!(sets.union(2, 3));
    assert!(sets.union(1, 3));
    assert_eq!(sets.find(0), sets.find(2));
    assert_eq!(sets.find(1), sets.find(3));
    assert_ne!(sets.find(0), sets.find(4));
    assert_ne!(sets.find(4), sets.find(5));
    assert!(sets.union(4, 5));
    assert!(sets.union(5, 0));
    let root = sets.find(0);
    for i in 0..6 {
        assert_eq!(sets.find(i), root);
    }
}

#[test]
fn recursive_division_reaches_every_cell_at_odd_sizes() {
    for (width, height) in [(1, 1), (1, 9), (9, 1), (2, 2), (3, 7), (11, 4)] {
        for level in [0u32, 400_000, 1_000_000] {
            let maze = Algorithm::RecursiveDivision.generate(
                width,
                height,
                Complexity::from_millionths(level),
                Some(13),
            );
            let found = maze.flood(0, 0);
            for y in 0..height {
                for x in 0..width {
                    assert!(found.reaches(x, y));
                }
            }
        }
    }
}

#[test]
fn union_by_rank_keeps_the_root_of_the_first_on_a_tie() {
    let mut sets = UnionFind::new(4);
    sets.union(2, 1);
    assert_eq!(sets.find(1), 2);
    sets.union(0, 2);
    assert_eq!(sets.find(0), 2);
    sets.union(3, 0);
    assert_eq!(sets.find(3), 2);
}

#[test]
fn grid_helpers_count_cells_and_edges() {
    assert_eq!(cell_count(4, 3), 12);
    assert_eq!(cell_index(4, 3, 0, 0), 0);
    assert_eq!(cell_index(4, 3, 3, 2), 11);
    assert_eq!(cell_index(4, 3, 1, 2), 9);
    assert_eq!(all_edges(1, 1), vec![]);
    assert_eq!(all_edges(2, 2), vec![(0, 0, 1, 0), (0, 0, 0, 1), (1, 0, 1, 1), (0, 1, 1, 1)]);
    assert_eq!(all_edges(4, 3).len(), 3 * 3 + 4 * 2);
    assert!(same_cell((1, 2), (1, 2)));
    assert!(!same_cell((1, 2), (2, 1)));
}

#[test]
fn neighbors_are_selected_by_membership() {
    let maze = Maze::new(3, 3);
    let mut set = CellSet::new(3, 3);
    set.insert(0, 1);
    set.insert(1, 2);
    assert_eq!(select_neighbors(&maze, &set, 1, 1, true), vec![(0, 1), (1, 2)]);
    assert_eq!(select_neighbors(&maze, &set, 1, 1, false), vec![(2, 1), (1, 0)]);
}

#[test]
fn smoothing_follows_the_majority() {
    let mut cells = CellGrid::new(3, 3, false);
    let next = smooth(&cells, 3, 3);
    // Corners see five positions outside the grid, edges three, the centre none.
    assert!(next.get(0, 0) && next.get(2, 0) && next.get(0, 2) && next.get(2, 2));
    assert!(!next.get(1, 0) && !next.get(0, 1) && !next.get(2, 1) && !next.get(1, 2));
    assert!(!next.get(1, 1));
    cells.set(0, 0, true);
    cells.set(1, 0, true);
    cells.set(2, 0, true);
    cells.set(0, 1, true);
    cells.set(2, 1, true);
    let next = smooth(&cells, 3, 3);
    assert!(next.get(1, 1));
    assert!(next.get(1, 0));
    assert!(next.get(1, 2));
    let wide = smooth(&CellGrid::new(5, 5, false), 5, 5);
    assert!(!wide.get(2, 2) && !wide.get(1, 1) && !wide.get(2, 0));
    assert!(wide.get(0, 0) && wide.get(4, 4));
}

#[test]
fn carve_targets_and_obstacle_counts_round_down() {
    assert_eq!(carve_target(100, Complexity::from_millionths(0)), 40);
    assert_eq!(carve_target(100, Complexity::from_millionths(1_000_000)), 70);
    assert_eq!(carve_target(100, Complexity::from_millionths(500_000)), 55);
    assert_eq!(carve_target(9, Complexity::from_millionths(0)), 3);
    assert_eq!(obstacle_count(100, Complexity::from_millionths(1_000_000)), 40);
    assert_eq!(obstacle_count(100, Complexity::from_millionths(0)), 0);
    assert_eq!(obstacle_count(17, Complexity::from_millionths(500_000)), 3);
}

#[test]
fn voronoi_counts_and_distances() {
    assert_eq!(point_count(10_000, Complexity::from_millionths(0)), 5);
    assert_eq!(point_count(10_000, Complexity::from_millionths(1_000_000)), 20);
    assert_eq!(point_count(10_000, Complexity::from_millionths(500_000)), 12);
    assert_eq!(point_count(16, Complexity::from_millionths(1_000_000)), 4);
    assert_eq!(point_count(4, Complexity::from_millionths(0)), 2);
    assert_eq!(passage_count(10, Complexity::from_millionths(0)), 1);
    assert_eq!(passage_count(10, Complexity::from_millionths(300_000)), 1);
    assert_eq!(passage_count(10, Complexity::from_millionths(500_000)), 2);
    assert_eq!(passage_count(10, Complexity::from_millionths(1_000_000)), 3);
    assert_eq!(passage_count(2, Complexity::from_millionths(1_000_000)), 2);
    assert_eq!(passage_count(1, Complexity::from_millionths(1_000_000)), 1);
    assert_eq!(squared((0, 0), (3, 4)), 25);
    assert_eq!(squared((3, 4), (0, 0)), 25);
    assert_eq!(squared((0, 0), (u32::MAX, u32::MAX)), 2 * (u32::MAX as u128) * (u32::MAX as u128));
    let points = vec![(0, 0), (4, 0), (0, 4)];
    assert_eq!(nearest_point(&points, (1, 1)), 0);
    assert_eq!(nearest_point(&points, (3, 1)), 1);
    assert_eq!(nearest_point(&points, (2, 0)), 0);
    assert_eq!(nearest_point(&points, (2, 2)), 0);
    assert_eq!(nearest_point(&points, (1, 3)), 2);
    let regions = assign_regions(&points, 5, 5);
    assert_eq!(regions.get(4, 1), 1);
    assert_eq!(regions.get(0, 3), 2);
    assert_eq!(regions.get(2, 2), 0);
}

#[test]
fn hamiltonian_path_visits_every_cell_once() {
    for (width, height) in [(1u32, 1u32), (2, 2), (4, 4), (3, 5), (6, 2)] {
        for level in [0u32, 500_000, 1_000_000] {
            let maze = Maze::new(width, height);
            let mut rng = MazeRng::new(Some(9));
            let found = hamiltonian_path(&maze, &mut rng, Complexity::from_millionths(level));
            if let Some(path) = found {
                assert_eq!(path.len() as u32, width * height);
                assert_eq!(path[0], (0, 0));
                let distinct: std::collections::HashSet<(u32, u32)> = path.iter().copied().collect();
                assert_eq!(distinct.len(), path.len());
                for pair in path.windows(2) {
                    let dx = pair[0].0.abs_diff(pair[1].0);
                    let dy = pair[0].1.abs_diff(pair[1].1);
                    assert_eq!(dx + dy, 1);
                }
            }
        }
    }
    let maze = Maze::new(4, 4);
    let mut rng = MazeRng::new(Some(1));
    assert!(hamiltonian_path(&maze, &mut rng, Complexity::from_millionths(0)).is_some());
}

#[test]
fn hamiltonian_path_without_draws_is_the_serpentine() {
    let maze = Maze::new(3, 3);
    let mut rng = MazeRng::new(Some(4));
    let found = hamiltonian_path(&maze, &mut rng, Complexity::from_millionths(0));
    assert_eq!(
        found,
        Some(vec![(0, 0), (1, 0), (2, 0), (2, 1), (1, 1), (0, 1), (0, 2), (1, 2), (2, 2)])
    );
    for (width, height) in [(1u32, 1u32), (1, 4), (5, 1), (4, 3), (2, 6)] {
        let maze = Maze::new(width, height);
        let mut rng = MazeRng::new(None);
        let path = hamiltonian_path(&maze, &mut rng, Complexity::from_millionths(0)).unwrap();
        assert_eq!(path.len() as u32, width * height);
        for (at, cell) in path.iter().enumerate() {
            let across = if cell.1 % 2 == 0 { cell.0 } else { width - 1 - cell.0 };
            assert_eq!((cell.1 * width + across) as usize, at);
        }
    }
}

#[test]
fn search_fails_only_when_the_effort_is_spent() {
    let maze = Maze::new(4, 3);
    let mut rng = MazeRng::new(Some(3));
    let (found, left) = search_with_effort(&maze, &mut rng, Complexity::from_millionths(700_000), 0);
    assert_eq!(found, None);
    assert_eq!(left, 0);
    for effort in [1u64, 5, 11, 12, 40, 5000] {
        for seed in 0..6u64 {
            let mut rng = MazeRng::new(Some(seed));
            let (found, left) =
                search_with_effort(&maze, &mut rng, Complexity::from_millionths(900_000), effort);
            assert!(left <= effort);
            match found {
                None => assert_eq!(left, 0),
                Some(path) => assert_eq!(path.len(), 12),
            }
        }
    }
    // Eleven steps are enough for twelve cells where no draw decides.
    let mut rng = MazeRng::new(Some(1));
    let (found, left) = search_with_effort(&maze, &mut rng, Complexity::from_millionths(0), 11);
    assert_eq!(found.map(|path| path.len()), Some(12));
    assert_eq!(left, 0);
}

#[test]
fn hamiltonian_path_in_one_row_or_column_needs_no_luck() {
    for level in [0u32, 300_000, 1_000_000] {
        for seed in 0..4u64 {
            let row = Maze::new(6, 1);
            let mut rng = MazeRng::new(Some(seed));
            assert_eq!(
                hamiltonian_path(&row, &mut rng, Complexity::from_millionths(level)),
                Some(vec![(0, 0), (1, 0), (2, 0), (3, 0), (4, 0), (5, 0)])
            );
            let column = Maze::new(1, 4);
            let mut rng = MazeRng::new(Some(seed));
            assert_eq!(
                hamiltonian_path(&column, &mut rng, Complexity::from_millionths(level)),
                Some(vec![(0, 0), (0, 1), (0, 2), (0, 3)])
            );
        }
    }
}

#[test]
fn a_seeded_source_repeats_its_draws() {
    let mut first = MazeRng::new(Some(77));
    let mut second = MazeRng::new(Some(77));
    let mut other = MazeRng::new(Some(78));
    let mut same = true;
    for _ in 0..64 {
        let a = first.between(0, 1_000_000);
        assert_eq!(a, second.between(0, 1_000_000));
        if a != other.between(0, 1_000_000) {
            same = false;
        }
    }
    assert!(!same);
}
