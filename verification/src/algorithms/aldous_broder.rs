//! Aldous-Broder: a random walk that opens the wall behind it whenever it
//! enters a cell for the first time.

use vstd::prelude::*;
use crate::algorithms::hunt_and_kill::hunt_out;
use crate::algorithms::{cell_count, pick_step, valid_size, MazeGenerator};
use crate::cell_grid::CellSet;
use crate::complexity::Complexity;
use crate::grid::{lemma_carve_cells, lemma_tree_grows, lemma_walled_passages, lonely, Grid};
use crate::maze::Maze;
use crate::reach::{
    lemma_connected_grows, lemma_connected_refl, lemma_rooted_grows, lemma_spanning_solvable,
    rooted,
};
use crate::rng::MazeRng;

verus! {

/// Aldous-Broder, a random walk that carves on first visits.
pub struct AldousBroder;

/// How many steps the walk may take for every cell of the grid before it
/// is stopped.
pub const STEPS_PER_CELL: u64 = 1000;

/// Walks at random from a random cell until every cell has been entered or
/// the step budget is spent. A first entry opens the wall just crossed; a
/// later entry does so with probability half the complexity. Cells that
/// the walk has not entered when the budget is spent are joined one by
/// one, each to a neighbour already entered. Every cell can then be
/// reached from the entry, and at complexity zero the passages form a
/// tree.
fn walk(width: u32, height: u32, complexity: Complexity, rng: &mut MazeRng) -> (maze: Maze)
    requires
        valid_size(width, height),
    ensures
        maze.wf(),
        maze@.width == width,
        maze@.height == height,
        maze@.spanning(),
        complexity.value() == 0 ==> maze@.perfect(),
{
    let mut maze = Maze::new(width, height);
    let mut visited = CellSet::new(width, height);
    let mut x = rng.coordinate(width);
    let mut y = rng.coordinate(height);
    let ghost origin = (x, y);
    visited.insert(x, y);
    proof {
        lemma_connected_refl(maze@, origin);
        lemma_walled_passages(maze@);
    }
    let total = cell_count(width, height) as u64;
    let budget: u64 = total * STEPS_PER_CELL;
    let revisit = complexity.scaled(0, 500_000);
    let mut steps: u64 = 0;
    while visited.len() < total && steps < budget
        invariant
            maze.wf(),
            maze@.width == width,
            maze@.height == height,
            visited.wf(),
            visited.cols() == width,
            visited.lines() == height,
            x < width,
            y < height,
            steps <= budget,
            origin.0 < width,
            origin.1 < height,
            visited@.contains(origin),
            visited@.contains((x, y)),
            rooted(maze@, visited@, origin),
            lonely(maze@, visited@),
            complexity.value() == 0 ==> maze@.passages().len() + 1 == visited.count(),
        decreases budget - steps,
    {
        let neighbors = maze.get_neighbors(x, y);
        if neighbors.len() == 0 {
            break ;
        }
        let (nx, ny) = neighbors[pick_step(rng, neighbors.len(), complexity)];
        let ghost before = maze@;
        let ghost seen_before = visited@;
        if !visited.contains(nx, ny) {
            maze.remove_wall(x, y, nx, ny);
            visited.insert(nx, ny);
            proof {
                lemma_rooted_grows(before, maze@, seen_before, origin, (x, y), (nx, ny));
                lemma_tree_grows(before, maze@, seen_before, (x, y), (nx, ny));
            }
        } else if complexity.positive() && rng.happens(revisit) {
            maze.remove_wall(x, y, nx, ny);
            proof {
                lemma_carve_cells(before, (x, y), (nx, ny));
                assert forall|c: (u32, u32)| #[trigger] visited@.contains(c) implies maze@.connected(
                    origin,
                    c,
                ) by {
                    lemma_connected_grows(before, maze@, origin, c);
                }
            }
        }
        x = nx;
        y = ny;
        steps += 1;
    }
    hunt_out(&mut maze, &mut visited, rng, width, height, Ghost(origin));
    maze
}

impl MazeGenerator for AldousBroder {
    /// Every cell can be reached from the entry, and at complexity zero
    /// the passages form a tree on all cells.
    open spec fn keeps(&self, maze: Grid, complexity: Complexity) -> bool {
        maze.spanning() && (complexity.value() == 0 ==> maze.perfect())
    }

    fn generate(&self, width: u32, height: u32, complexity: Complexity, seed: Option<u64>) -> (maze:
        Maze) {
        let mut rng = MazeRng::new(seed);
        let maze = walk(width, height, complexity, &mut rng);
        proof {
            lemma_spanning_solvable(maze@);
        }
        maze
    }
}

} // verus!
