//! Recursive backtracking: a randomized depth-first carve with an explicit
//! stack.

use vstd::prelude::*;
use crate::algorithms::{
    all_inside, lemma_sealed_closed, lemma_sealed_push, lemma_sealed_remove, pick_leaning,
    sealed, select_neighbors, valid_size, MazeGenerator,
};
use crate::cell_grid::CellSet;
use crate::complexity::Complexity;
use crate::grid::{adjacent, lemma_tree_grows, lonely, Grid};
use crate::maze::Maze;
use crate::reach::{
    lemma_closed_is_full, lemma_rooted_closed_spans, lemma_rooted_grows, lemma_spanning_solvable,
    rooted,
};
use crate::rng::MazeRng;

verus! {

/// Recursive backtracking, a depth-first carve.
pub struct RecursiveBacktracking;

/// Carves a maze depth first from a random cell. At each step an unvisited
/// neighbour is chosen, leaning toward the first listed the lower the
/// complexity is. At a dead end, with probability equal to the complexity,
/// the walk branches at once from the cell below on the stack. Every cell
/// is joined to every other in the end.
pub fn backtrack(width: u32, height: u32, complexity: Complexity, rng: &mut MazeRng) -> (maze: Maze)
    requires
        valid_size(width, height),
    ensures
        maze.wf(),
        maze@.width == width,
        maze@.height == height,
        maze@.perfect(),
{
    let mut maze = Maze::new(width, height);
    let mut stack: Vec<(u32, u32)> = Vec::new();
    let mut visited = CellSet::new(width, height);
    let start_x = rng.coordinate(width);
    let start_y = rng.coordinate(height);
    let ghost origin = (start_x, start_y);
    stack.push((start_x, start_y));
    visited.insert(start_x, start_y);
    proof {
        crate::reach::lemma_connected_refl(maze@, origin);
        assert(stack@[0] == origin);
        crate::grid::lemma_walled_passages(maze@);
    }
    while stack.len() > 0
        invariant
            maze.wf(),
            maze@.width == width,
            maze@.height == height,
            visited.wf(),
            visited.cols() == width,
            visited.lines() == height,
            all_inside(stack@, width, height),
            origin.0 < width,
            origin.1 < height,
            visited@.contains(origin),
            forall|k: int| 0 <= k < stack@.len() ==> visited@.contains(#[trigger] stack@[k]),
            rooted(maze@, visited@, origin),
            sealed(maze@, visited@, stack@),
            lonely(maze@, visited@),
            maze@.passages().len() + 1 == visited.count(),
        decreases visited.room(), stack@.len(),
    {
        let ghost before = maze@;
        let ghost set_before = visited@;
        let ghost list_before = stack@;
        let top = stack.len() - 1;
        let (x, y) = stack.pop().unwrap();
        let neighbors = select_neighbors(&maze, &visited, x, y, false);
        if neighbors.len() > 0 {
            stack.push((x, y));
            let next = pick_leaning(rng, neighbors.len(), complexity);
            let (nx, ny) = neighbors[next];
            maze.remove_wall(x, y, nx, ny);
            visited.insert(nx, ny);
            stack.push((nx, ny));
            proof {
                assert(set_before.contains(list_before[top as int]));
                assert(list_before.drop_last().push((x, y)) =~= list_before);
                lemma_rooted_grows(before, maze@, set_before, origin, (x, y), (nx, ny));
                lemma_sealed_push(before, set_before, list_before, (nx, ny));
                lemma_tree_grows(before, maze@, set_before, (x, y), (nx, ny));
            }
        } else {
            proof {
                assert forall|n: (u32, u32)|
                    before.in_bounds(n) && #[trigger] adjacent(list_before[top as int], n) implies set_before.contains(
                    n,
                ) by {
                    if !set_before.contains(n) {
                        assert(neighbors@.contains(n));
                    }
                }
                lemma_sealed_remove(before, set_before, list_before, top as int);
                assert(stack@ =~= list_before.remove(top as int));
            }
            if complexity.positive() && rng.happens(complexity.millionths()) {
                if stack.len() > 0 {
                    let below = stack.len() - 1;
                    let (bx, by) = stack[below];
                    let branches = select_neighbors(&maze, &visited, bx, by, false);
                    if branches.len() > 0 {
                        let ghost list_mid = stack@;
                        let (nx, ny) = branches[0];
                        maze.remove_wall(bx, by, nx, ny);
                        visited.insert(nx, ny);
                        stack.push((nx, ny));
                        proof {
                            assert(set_before.contains(list_mid[below as int]));
                            lemma_rooted_grows(
                                before,
                                maze@,
                                set_before,
                                origin,
                                (bx, by),
                                (nx, ny),
                            );
                            lemma_sealed_push(before, set_before, list_mid, (nx, ny));
                            lemma_tree_grows(before, maze@, set_before, (bx, by), (nx, ny));
                        }
                    }
                }
            }
        }
    }
    proof {
        lemma_sealed_closed(maze@, visited@, stack@);
        lemma_rooted_closed_spans(maze@, visited@, origin);
        lemma_closed_is_full(maze@, visited@, origin);
        visited.lemma_full();
    }
    maze
}

impl MazeGenerator for RecursiveBacktracking {
    /// The passages form a tree on all cells.
    open spec fn keeps(&self, maze: Grid, complexity: Complexity) -> bool {
        maze.perfect()
    }

    fn generate(&self, width: u32, height: u32, complexity: Complexity, seed: Option<u64>) -> (maze:
        Maze) {
        let mut rng = MazeRng::new(seed);
        let maze = backtrack(width, height, complexity, &mut rng);
        proof {
            lemma_spanning_solvable(maze@);
        }
        maze
    }
}

} // verus!
