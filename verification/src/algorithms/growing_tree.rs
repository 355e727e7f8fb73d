//! Growing tree: a list of active cells, from which the next cell to grow
//! is chosen by a policy that the complexity selects.

use vstd::prelude::*;
use crate::algorithms::{
    all_inside, lemma_sealed_closed, lemma_sealed_push, lemma_sealed_remove, sealed,
    select_neighbors, valid_size, MazeGenerator,
};
use crate::cell_grid::CellSet;
use crate::complexity::Complexity;
use crate::grid::{adjacent, lemma_tree_grows, lonely, Grid};
use crate::maze::Maze;
use crate::reach::{
    lemma_closed_is_full, lemma_rooted_closed_spans, lemma_rooted_grows, lemma_spanning_solvable,
    rooted,
};
use crate::rng::MazeRng;

verus! {

/// Growing tree, which grows from a list of active cells.
pub struct GrowingTree;

/// The position of the active cell to grow from: the newest below a
/// complexity of a quarter, a random one below a half, the oldest below
/// three quarters, and the newest or the oldest on an even draw above.
fn choose_active(rng: &mut MazeRng, len: usize, complexity: Complexity) -> (index: usize)
    requires
        len >= 1,
    ensures
        index < len,
        complexity.value() < 250_000 ==> index == len - 1,
        500_000 <= complexity.value() < 750_000 ==> index == 0,
        complexity.value() >= 750_000 ==> index == 0 || index == len - 1,
{
    if complexity.below(250_000) {
        len - 1
    } else if complexity.below(500_000) {
        rng.below(len)
    } else if complexity.below(750_000) {
        0
    } else if rng.happens(500_000) {
        len - 1
    } else {
        0
    }
}

/// Grows the maze from a random cell: the chosen active cell carves to an
/// unvisited neighbour, which becomes active, or leaves the list when it
/// has none. Every cell is joined to every other in the end.
fn grow(width: u32, height: u32, complexity: Complexity, rng: &mut MazeRng) -> (maze: Maze)
    requires
        valid_size(width, height),
    ensures
        maze.wf(),
        maze@.width == width,
        maze@.height == height,
        maze@.perfect(),
{
    let mut maze = Maze::new(width, height);
    let mut active: Vec<(u32, u32)> = Vec::new();
    let mut visited = CellSet::new(width, height);
    let start_x = rng.coordinate(width);
    let start_y = rng.coordinate(height);
    let ghost origin = (start_x, start_y);
    active.push((start_x, start_y));
    visited.insert(start_x, start_y);
    proof {
        crate::reach::lemma_connected_refl(maze@, origin);
        assert(active@[0] == origin);
        crate::grid::lemma_walled_passages(maze@);
    }
    while active.len() > 0
        invariant
            maze.wf(),
            maze@.width == width,
            maze@.height == height,
            visited.wf(),
            visited.cols() == width,
            visited.lines() == height,
            all_inside(active@, width, height),
            origin.0 < width,
            origin.1 < height,
            visited@.contains(origin),
            forall|k: int| 0 <= k < active@.len() ==> visited@.contains(#[trigger] active@[k]),
            rooted(maze@, visited@, origin),
            sealed(maze@, visited@, active@),
            lonely(maze@, visited@),
            maze@.passages().len() + 1 == visited.count(),
        decreases visited.room(), active@.len(),
    {
        let at = choose_active(rng, active.len(), complexity);
        let (x, y) = active[at];
        let neighbors = select_neighbors(&maze, &visited, x, y, false);
        let ghost before = maze@;
        let ghost set_before = visited@;
        let ghost list_before = active@;
        if neighbors.len() > 0 {
            let next = if neighbors.len() == 1 || complexity.below(100_000) {
                0
            } else {
                rng.below(neighbors.len())
            };
            let (nx, ny) = neighbors[next];
            maze.remove_wall(x, y, nx, ny);
            visited.insert(nx, ny);
            active.push((nx, ny));
            proof {
                assert(set_before.contains(list_before[at as int]));
                lemma_rooted_grows(before, maze@, set_before, origin, (x, y), (nx, ny));
                lemma_sealed_push(before, set_before, list_before, (nx, ny));
                lemma_tree_grows(before, maze@, set_before, (x, y), (nx, ny));
            }
        } else {
            active.remove(at);
            proof {
                assert forall|n: (u32, u32)|
                    before.in_bounds(n) && #[trigger] adjacent(list_before[at as int], n) implies set_before.contains(
                    n,
                ) by {
                    if !set_before.contains(n) {
                        assert(neighbors@.contains(n));
                    }
                }
                lemma_sealed_remove(before, set_before, list_before, at as int);
                assert forall|k: int| 0 <= k < active@.len() implies (#[trigger] active@[k]).0
                    < width && active@[k].1 < height && visited@.contains(active@[k]) by {
                    if k < at {
                        assert(active@[k] == list_before[k]);
                    } else {
                        assert(active@[k] == list_before[k + 1]);
                    }
                }
            }
        }
    }
    proof {
        lemma_sealed_closed(maze@, visited@, active@);
        lemma_rooted_closed_spans(maze@, visited@, origin);
        lemma_closed_is_full(maze@, visited@, origin);
        visited.lemma_full();
    }
    maze
}

impl MazeGenerator for GrowingTree {
    /// The passages form a tree on all cells.
    open spec fn keeps(&self, maze: Grid, complexity: Complexity) -> bool {
        maze.perfect()
    }

    fn generate(&self, width: u32, height: u32, complexity: Complexity, seed: Option<u64>) -> (maze:
        Maze) {
        let mut rng = MazeRng::new(seed);
        let maze = grow(width, height, complexity, &mut rng);
        proof {
            lemma_spanning_solvable(maze@);
        }
        maze
    }
}

} // verus!
