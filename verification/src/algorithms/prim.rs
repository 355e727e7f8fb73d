//! Prim's algorithm: the tree grows along passages taken from a frontier.

use vstd::prelude::*;
use crate::algorithms::{edges_inside, pick_leaning, valid_size, MazeGenerator};
use crate::cell_grid::CellSet;
use crate::complexity::Complexity;
use crate::grid::{adjacent, lemma_tree_grows, lonely, Grid};
use crate::maze::Maze;
use crate::reach::{
    closed, lemma_closed_is_full, lemma_rooted_closed_spans, lemma_rooted_grows,
    lemma_spanning_solvable, rooted,
};
use crate::rng::MazeRng;

verus! {

/// Prim's algorithm, which grows a tree along a frontier.
pub struct Prim;

/// Every entry of `frontier` leads from a cell of the tree to a cell next
/// to it on the grid.
pub open spec fn leads_out(g: Grid, tree: Set<(u32, u32)>, frontier: Seq<(u32, u32, u32, u32)>) -> bool {
    forall|k: int|
        0 <= k < frontier.len() ==> {
            let e = #[trigger] frontier[k];
            &&& tree.contains((e.0, e.1))
            &&& g.in_bounds((e.0, e.1))
            &&& g.in_bounds((e.2, e.3))
            &&& adjacent((e.0, e.1), (e.2, e.3))
        }
}

/// For every cell of the tree and every neighbour outside it, `frontier`
/// holds the way from the one to the other.
pub open spec fn fringed(g: Grid, tree: Set<(u32, u32)>, frontier: Seq<(u32, u32, u32, u32)>) -> bool {
    forall|c: (u32, u32), n: (u32, u32)|
        tree.contains(c) && g.in_bounds(c) && g.in_bounds(n) && #[trigger] adjacent(c, n)
            && !tree.contains(n) ==> frontier.contains((c.0, c.1, n.0, n.1))
}

/// Adds to `frontier` the passages from `(x, y)` to its neighbours outside
/// the tree.
fn extend_frontier(
    frontier: &mut Vec<(u32, u32, u32, u32)>,
    maze: &Maze,
    in_tree: &CellSet,
    x: u32,
    y: u32,
)
    requires
        maze.wf(),
        maze@.in_bounds((x, y)),
        in_tree.wf(),
        in_tree.cols() == maze@.width,
        in_tree.lines() == maze@.height,
        in_tree@.contains((x, y)),
        edges_inside(old(frontier)@, maze@.width as u32, maze@.height as u32),
        leads_out(maze@, in_tree@, old(frontier)@),
    ensures
        edges_inside(final(frontier)@, maze@.width as u32, maze@.height as u32),
        leads_out(maze@, in_tree@, final(frontier)@),
        forall|e: (u32, u32, u32, u32)| old(frontier)@.contains(e) ==> final(frontier)@.contains(e),
        forall|n: (u32, u32)|
            maze@.in_bounds(n) && #[trigger] adjacent((x, y), n) && !in_tree@.contains(n)
                ==> final(frontier)@.contains((x, y, n.0, n.1)),
{
    let neighbors = maze.get_neighbors(x, y);
    proof {
        crate::grid::lemma_neighbors(maze@, (x, y));
    }
    let mut i: usize = 0;
    while i < neighbors.len()
        invariant
            maze.wf(),
            maze@.in_bounds((x, y)),
            in_tree.wf(),
            in_tree@.contains((x, y)),
            0 <= i <= neighbors@.len(),
            forall|k: int|
                0 <= k < neighbors@.len() ==> maze@.in_bounds(#[trigger] neighbors@[k]) && adjacent(
                    (x, y),
                    neighbors@[k],
                ),
            edges_inside(frontier@, maze@.width as u32, maze@.height as u32),
            leads_out(maze@, in_tree@, frontier@),
            forall|e: (u32, u32, u32, u32)| old(frontier)@.contains(e) ==> frontier@.contains(e),
            forall|k: int|
                0 <= k < i && !in_tree@.contains(#[trigger] neighbors@[k]) ==> frontier@.contains(
                    (x, y, neighbors@[k].0, neighbors@[k].1),
                ),
        decreases neighbors@.len() - i,
    {
        let (nx, ny) = neighbors[i];
        let ghost before = frontier@;
        if !in_tree.contains(nx, ny) {
            frontier.push((x, y, nx, ny));
        }
        proof {
            crate::seqs::lemma_push_contains(before, (x, y, nx, ny));
        }
        i += 1;
    }
    proof {
        assert forall|n: (u32, u32)|
            maze@.in_bounds(n) && #[trigger] adjacent((x, y), n) && !in_tree@.contains(
                n,
            ) implies frontier@.contains((x, y, n.0, n.1)) by {
            assert(neighbors@.contains(n));
            let k = choose|k: int| 0 <= k < neighbors@.len() && neighbors@[k] == n;
            assert(!in_tree@.contains(neighbors@[k]));
        }
    }
}

/// Grows a tree from a random cell: a frontier passage is taken, leaning
/// toward the oldest the lower the complexity is, and opened when its far
/// end is not yet in the tree. Every cell is in the tree in the end.
fn grow(width: u32, height: u32, complexity: Complexity, rng: &mut MazeRng) -> (maze: Maze)
    requires
        valid_size(width, height),
    ensures
        maze.wf(),
        maze@.width == width,
        maze@.height == height,
        maze@.perfect(),
{
    let mut maze = Maze::new(width, height);
    let mut in_tree = CellSet::new(width, height);
    let mut frontier: Vec<(u32, u32, u32, u32)> = Vec::new();
    let start_x = rng.coordinate(width);
    let start_y = rng.coordinate(height);
    let ghost origin = (start_x, start_y);
    in_tree.insert(start_x, start_y);
    extend_frontier(&mut frontier, &maze, &in_tree, start_x, start_y);
    proof {
        crate::reach::lemma_connected_refl(maze@, origin);
        crate::grid::lemma_walled_passages(maze@);
    }
    while frontier.len() > 0
        invariant
            maze.wf(),
            maze@.width == width,
            maze@.height == height,
            in_tree.wf(),
            in_tree.cols() == width,
            in_tree.lines() == height,
            edges_inside(frontier@, width, height),
            origin.0 < width,
            origin.1 < height,
            in_tree@.contains(origin),
            rooted(maze@, in_tree@, origin),
            leads_out(maze@, in_tree@, frontier@),
            fringed(maze@, in_tree@, frontier@),
            lonely(maze@, in_tree@),
            maze@.passages().len() + 1 == in_tree.count(),
        decreases in_tree.room(), frontier@.len(),
    {
        let at = pick_leaning(rng, frontier.len(), complexity);
        let ghost listed = frontier@;
        let ghost grid_before = maze@;
        let ghost tree_before = in_tree@;
        let (x1, y1, x2, y2) = frontier.remove(at);
        proof {
            assert forall|k: int| 0 <= k < frontier@.len() implies #[trigger] frontier@[k] == (if k
                < at {
                listed[k]
            } else {
                listed[k + 1]
            }) by {}
            assert forall|e: (u32, u32, u32, u32)|
                listed.contains(e) && e != listed[at as int] implies frontier@.contains(e) by {
                let k = choose|k: int| 0 <= k < listed.len() && listed[k] == e;
                if k < at {
                    assert(frontier@[k] == e);
                } else {
                    assert(frontier@[k - 1] == e);
                }
            }
            assert(listed[at as int] == (x1, y1, x2, y2));
        }
        if !in_tree.contains(x2, y2) {
            maze.remove_wall(x1, y1, x2, y2);
            in_tree.insert(x2, y2);
            proof {
                lemma_rooted_grows(grid_before, maze@, tree_before, origin, (x1, y1), (x2, y2));
                lemma_tree_grows(grid_before, maze@, tree_before, (x1, y1), (x2, y2));
            }
            let ghost rest = frontier@;
            extend_frontier(&mut frontier, &maze, &in_tree, x2, y2);
            proof {
                assert forall|c: (u32, u32), n: (u32, u32)|
                    in_tree@.contains(c) && maze@.in_bounds(c) && maze@.in_bounds(n)
                        && #[trigger] adjacent(c, n) && !in_tree@.contains(n) implies frontier@.contains(
                    (c.0, c.1, n.0, n.1),
                ) by {
                    if c != (x2, y2) {
                        assert(listed.contains((c.0, c.1, n.0, n.1)));
                        assert(rest.contains((c.0, c.1, n.0, n.1)));
                    }
                }
            }
        } else {
            proof {
                assert forall|c: (u32, u32), n: (u32, u32)|
                    in_tree@.contains(c) && maze@.in_bounds(c) && maze@.in_bounds(n)
                        && #[trigger] adjacent(c, n) && !in_tree@.contains(n) implies frontier@.contains(
                    (c.0, c.1, n.0, n.1),
                ) by {
                    assert(listed.contains((c.0, c.1, n.0, n.1)));
                }
            }
        }
    }
    proof {
        assert(closed(maze@, in_tree@)) by {
            assert forall|a: (u32, u32), b: (u32, u32)|
                in_tree@.contains(a) && maze@.in_bounds(a) && maze@.in_bounds(b)
                    && #[trigger] adjacent(a, b) implies in_tree@.contains(b) by {
                if !in_tree@.contains(b) {
                    assert(frontier@.contains((a.0, a.1, b.0, b.1)));
                }
            }
        }
        lemma_rooted_closed_spans(maze@, in_tree@, origin);
        lemma_closed_is_full(maze@, in_tree@, origin);
        in_tree.lemma_full();
    }
    maze
}

impl MazeGenerator for Prim {
    /// The passages form a tree on all cells.
    open spec fn keeps(&self, maze: Grid, complexity: Complexity) -> bool {
        maze.perfect()
    }

    fn generate(&self, width: u32, height: u32, complexity: Complexity, seed: Option<u64>) -> (maze:
        Maze) {
        let mut rng = MazeRng::new(seed);
        let maze = grow(width, height, complexity, &mut rng);
        proof {
            lemma_spanning_solvable(maze@);
        }
        maze
    }
}

} // verus!
