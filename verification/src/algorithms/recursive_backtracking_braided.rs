//! Recursive backtracking followed by braiding.

use vstd::prelude::*;
use crate::algorithms::braid_postprocess::braid_with;
use crate::algorithms::recursive_backtracking::backtrack;
use crate::algorithms::MazeGenerator;
use crate::complexity::Complexity;
use crate::grid::Grid;
use crate::maze::Maze;
use crate::rng::MazeRng;

verus! {

/// Recursive backtracking with its dead ends braided away.
pub struct RecursiveBacktrackingBraided;

impl MazeGenerator for RecursiveBacktrackingBraided {
    /// Every cell can be reached from the entry.
    open spec fn keeps(&self, maze: Grid, complexity: Complexity) -> bool {
        maze.spanning()
    }

    /// Carves by recursive backtracking, then braids with the same
    /// complexity and the same random source.
    fn generate(&self, width: u32, height: u32, complexity: Complexity, seed: Option<u64>) -> (maze:
        Maze) {
        let mut rng = MazeRng::new(seed);
        let mut maze = backtrack(width, height, complexity, &mut rng);
        proof {
            crate::reach::lemma_spanning_solvable(maze@);
        }
        let ghost carved = maze@;
        braid_with(&mut maze, complexity, &mut rng);
        proof {
            assert forall|c: (u32, u32)| maze@.in_bounds(c) implies #[trigger] maze@.connected(
                maze@.entry(),
                c,
            ) by {
                crate::reach::lemma_connected_grows(carved, maze@, carved.entry(), c);
            }
        }
        maze
    }
}

} // verus!
