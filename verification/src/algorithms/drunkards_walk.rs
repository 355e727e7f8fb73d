//! Drunkard's walk: a random walk carves until enough of the grid is
//! open.

use vstd::prelude::*;
use crate::algorithms::{cell_count, pick_step, valid_size, MazeGenerator};
use crate::cell_grid::CellSet;
use crate::complexity::Complexity;
use crate::connectivity::{finished, mended, regions, regions_of, stitched_from};
use crate::grid::{adjacent, Grid};
use crate::maze::Maze;
use crate::reach::{lemma_carve, lemma_connected_refl, lemma_rooted_grows, rooted};
use crate::rng::MazeRng;

verus! {

/// Drunkard's walk, a random walk that carves wherever it goes.
pub struct DrunkardsWalk;

/// How many steps the walk may take for every cell of the grid.
pub const STEPS_PER_CELL: u64 = 10;

/// The share `0.4 + 0.3 * complexity` of `total`, rounded down.
pub open spec fn target_of(total: int, complexity: Complexity) -> int {
    (total * (400_000 + (complexity.value() * 300_000) / 1_000_000)) / 1_000_000
}

/// The most cells a walk carves: its target, and one cell at least.
pub open spec fn most_carved(total: int, complexity: Complexity) -> int {
    if target_of(total, complexity) >= 1 {
        target_of(total, complexity)
    } else {
        1
    }
}

/// The cells of `order`, as a set.
pub open spec fn cells_of(order: Seq<(u32, u32)>) -> Set<(u32, u32)> {
    Set::new(|c: (u32, u32)| order.contains(c))
}

/// `walked` is what a walk leaves of a grid with every wall standing:
/// `order` lists the cells carved, each once and the first cell first; they
/// are one at least, two at least where the walk is to carve as many, and
/// no more than the walk may carve; every passage joins two of them; and
/// each of them can be reached from the first.
pub open spec fn strolled(walked: Grid, order: Seq<(u32, u32)>, complexity: Complexity) -> bool {
    &&& walked.wf()
    &&& 1 <= order.len() <= most_carved((walked.width * walked.height) as int, complexity)
    &&& target_of((walked.width * walked.height) as int, complexity) >= 2 ==> order.len() >= 2
    &&& order.no_duplicates()
    &&& forall|i: int| 0 <= i < order.len() ==> walked.in_bounds(#[trigger] order[i])
    &&& forall|p: (u32, u32), q: (u32, u32)| #[trigger]
        walked.open_between(p, q) ==> order.contains(p) && order.contains(q)
    &&& forall|i: int| 0 <= i < order.len() ==> walked.connected(order[0], #[trigger] order[i])
}

/// How many cells the walk is to carve: the share `0.4 + 0.3 * complexity`
/// of `total`, rounded down.
pub fn carve_target(total: u32, complexity: Complexity) -> (target: u64)
    ensures
        target == target_of(total as int, complexity),
        target <= total,
{
    let share = complexity.scaled(400_000, 300_000);
    proof {
        assert(0 <= total * share <= total * 1_000_000) by (nonlinear_arith)
            requires
                0 <= total,
                0 <= share <= 1_000_000,
        ;
        assert((total * share) / 1_000_000 <= total) by (nonlinear_arith)
            requires
                0 <= total * share <= total * 1_000_000,
        ;
    }
    (total as u64 * share as u64) / 1_000_000
}

/// Walks from a random cell, opening every wall it crosses, until the
/// target number of cells is carved or the step budget is spent; returns
/// the set of carved cells. On a grid with every wall standing the walk
/// carves one cell at least and no more than its target, every passage
/// joins two carved cells, and every carved cell can be reached from the
/// first.
fn stagger(maze: &mut Maze, width: u32, height: u32, complexity: Complexity, rng: &mut MazeRng) -> (carved:
    CellSet)
    requires
        valid_size(width, height),
        old(maze).wf(),
        old(maze)@.width == width,
        old(maze)@.height == height,
        forall|p: (u32, u32), q: (u32, u32)| !#[trigger] old(maze)@.open_between(p, q),
    ensures
        final(maze).wf(),
        final(maze)@.width == width,
        final(maze)@.height == height,
        carved.wf(),
        carved.cols() == width,
        carved.lines() == height,
        exists|order: Seq<(u32, u32)>| #[trigger]
            strolled(final(maze)@, order, complexity) && carved@ == cells_of(order),
{
    let mut carved = CellSet::new(width, height);
    let total = cell_count(width, height);
    let target = carve_target(total, complexity);
    let mut x = rng.coordinate(width);
    let mut y = rng.coordinate(height);
    let ghost origin = (x, y);
    let ghost mut order: Seq<(u32, u32)> = seq![(x, y)];
    carved.insert(x, y);
    proof {
        lemma_connected_refl(maze@, origin);
        assert(order[0] == origin);
        assert forall|c: (u32, u32)| #[trigger] carved@.contains(c) <==> order.contains(c) by {
            if order.contains(c) {
                let j = choose|j: int| 0 <= j < order.len() && order[j] == c;
            }
        }
    }
    let budget: u64 = total as u64 * STEPS_PER_CELL;
    let mut steps: u64 = 0;
    while carved.len() < target && steps < budget
        invariant
            maze.wf(),
            maze@.width == width,
            maze@.height == height,
            carved.wf(),
            carved.cols() == width,
            carved.lines() == height,
            x < width,
            y < height,
            steps <= budget,
            origin.0 < width,
            origin.1 < height,
            carved@.contains((x, y)),
            order.len() >= 1,
            order[0] == origin,
            order.no_duplicates(),
            order.len() == carved.count(),
            forall|c: (u32, u32)| #[trigger] carved@.contains(c) <==> order.contains(c),
            forall|i: int| 0 <= i < order.len() ==> maze@.in_bounds(#[trigger] order[i]),
            carved.count() <= most_carved(width * height, complexity),
            target == target_of(width * height, complexity),
            rooted(maze@, carved@, origin),
            forall|p: (u32, u32), q: (u32, u32)| #[trigger]
                maze@.open_between(p, q) ==> carved@.contains(p) && carved@.contains(q),
            budget >= 1,
            total == width * height,
            target <= total,
            steps > 0 ==> order.len() >= 2,
        ensures
            target >= 2 ==> order.len() >= 2,
        decreases budget - steps,
    {
        let neighbors = maze.get_neighbors(x, y);
        if neighbors.len() == 0 {
            proof {
                let w: Seq<(u32, u32)> = if x > 0 {
                    seq![((x - 1) as u32, y)]
                } else {
                    Seq::empty()
                };
                let e: Seq<(u32, u32)> = if x + 1 < width {
                    seq![((x + 1) as u32, y)]
                } else {
                    Seq::empty()
                };
                let n: Seq<(u32, u32)> = if y > 0 {
                    seq![(x, (y - 1) as u32)]
                } else {
                    Seq::empty()
                };
                let s: Seq<(u32, u32)> = if y + 1 < height {
                    seq![(x, (y + 1) as u32)]
                } else {
                    Seq::empty()
                };
                assert(maze@.neighbors((x, y)) =~= w + e + n + s);
                assert(width == 1 && height == 1);
                assert(total == 1) by (nonlinear_arith)
                    requires
                        total == width * height,
                        width == 1,
                        height == 1,
                ;
            }
            break ;
        }
        let (nx, ny) = neighbors[pick_step(rng, neighbors.len(), complexity)];
        let ghost before = maze@;
        let ghost set_before = carved@;
        let ghost order_before = order;
        maze.remove_wall(x, y, nx, ny);
        let fresh = carved.insert(nx, ny);
        proof {
            lemma_carve(before, (x, y), (nx, ny));
            lemma_rooted_grows(before, maze@, set_before, origin, (x, y), (nx, ny));
            if fresh {
                order = order.push((nx, ny));
                crate::seqs::lemma_push_contains(order_before, (nx, ny));
                assert(!order_before.contains((nx, ny)));
            }
            assert forall|c: (u32, u32)| #[trigger] carved@.contains(c) <==> order.contains(c) by {
                assert(set_before.contains(c) <==> order_before.contains(c));
            }
            assert forall|p: (u32, u32), q: (u32, u32)| #[trigger]
                maze@.open_between(p, q) implies carved@.contains(p) && carved@.contains(q) by {
                if before.open_between(p, q) {
                    assert(set_before.contains(p) && set_before.contains(q));
                }
            }
            assert(order.len() >= 2) by {
                assert(adjacent((x, y), (nx, ny)));
                assert(order.contains((x, y)));
                assert(order.contains((nx, ny)));
                let i = choose|i: int| 0 <= i < order.len() && order[i] == (x, y);
                let j = choose|j: int| 0 <= j < order.len() && order[j] == (nx, ny);
                assert(i != j);
            }
        }
        x = nx;
        y = ny;
        steps += 1;
    }
    proof {
        assert forall|i: int| 0 <= i < order.len() implies maze@.connected(
            order[0],
            #[trigger] order[i],
        ) by {
            assert(order.contains(order[i]));
            assert(carved@.contains(order[i]));
        }
        assert forall|p: (u32, u32), q: (u32, u32)| #[trigger]
            maze@.open_between(p, q) implies order.contains(p) && order.contains(q) by {
            assert(carved@.contains(p) && carved@.contains(q));
        }
        assert(strolled(maze@, order, complexity));
        assert(carved@ =~= cells_of(order));
    }
    carved
}

impl MazeGenerator for DrunkardsWalk {
    /// The maze is what a walk left, with the regions of its carved cells
    /// stitched together and connectivity repaired.
    open spec fn keeps(&self, maze: Grid, complexity: Complexity) -> bool {
        exists|walked: Grid, order: Seq<(u32, u32)>| #[trigger]
            strolled(walked, order, complexity) && finished(walked, cells_of(order), maze)
    }

    /// Walks, stitches the carved regions and repairs connectivity.
    fn generate(&self, width: u32, height: u32, complexity: Complexity, seed: Option<u64>) -> (maze:
        Maze) {
        let mut maze = Maze::new(width, height);
        let mut rng = MazeRng::new(seed);
        proof {
            assert forall|p: (u32, u32), q: (u32, u32)| !#[trigger] maze@.open_between(p, q) by {
                if maze@.in_bounds(p) {
                    assert(maze@.at(p).wall_count() == 4);
                }
            }
        }
        let carved = stagger(&mut maze, width, height, complexity, &mut rng);
        let ghost walked = maze@;
        let ghost order = choose|order: Seq<(u32, u32)>| #[trigger]
            strolled(walked, order, complexity) && carved@ == cells_of(order);
        let groups = regions(&maze, &carved);
        maze.stitch_components(&groups);
        let ghost mid = maze@;
        maze.ensure_connectivity();
        proof {
            assert(finished(walked, cells_of(order), maze@)) by {
                assert(regions_of(walked, cells_of(order), groups@));
                assert(stitched_from(walked, mid, groups@));
                assert(mended(mid, maze@));
            }
        }
        maze
    }
}

} // verus!
