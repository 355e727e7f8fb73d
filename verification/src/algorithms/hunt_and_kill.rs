//! Hunt-and-kill: a carving walk until it is stuck, then a scan for an
//! unvisited cell beside a visited one from which the walk resumes.

use vstd::prelude::*;
use crate::algorithms::{
    none_beside, pick_step, select_neighbors, valid_size, MazeGenerator,
};
use crate::cell_grid::CellSet;
use crate::complexity::Complexity;
use crate::connectivity::row_major_before;
use crate::grid::{adjacent, lemma_tree_grows, lonely, Grid};
use crate::maze::Maze;
use crate::reach::{
    closed, lemma_closed_is_full, lemma_rooted_closed_spans, lemma_rooted_grows,
    lemma_spanning_solvable, rooted,
};
use crate::rng::MazeRng;

verus! {

/// Hunt-and-kill, which walks until stuck and then hunts for a new start.
pub struct HuntAndKill;

/// Scans the grid row by row for the first unvisited cell with a visited
/// neighbour, joins it to one of those neighbours drawn at random, and
/// returns it; `None`, with nothing changed, when there is no such cell.
fn hunt(
    maze: &mut Maze,
    visited: &mut CellSet,
    rng: &mut MazeRng,
    width: u32,
    height: u32,
    Ghost(origin): Ghost<(u32, u32)>,
) -> (found: Option<(u32, u32)>)
    requires
        old(maze).wf(),
        old(maze)@.width == width,
        old(maze)@.height == height,
        old(visited).wf(),
        old(visited).cols() == width,
        old(visited).lines() == height,
        rooted(old(maze)@, old(visited)@, origin),
        lonely(old(maze)@, old(visited)@),
    ensures
        final(maze).wf(),
        final(maze)@.width == width,
        final(maze)@.height == height,
        final(visited).wf(),
        final(visited).cols() == width,
        final(visited).lines() == height,
        rooted(final(maze)@, final(visited)@, origin),
        lonely(final(maze)@, final(visited)@),
        final(maze)@.passages().len() + old(visited).count() == old(maze)@.passages().len()
            + final(visited).count(),
        forall|c: (u32, u32)| old(visited)@.contains(c) ==> final(visited)@.contains(c),
        found is None ==> final(visited)@ == old(visited)@ && forall|c: (u32, u32)|
            final(maze)@.in_bounds(c) && !final(visited)@.contains(c) ==> #[trigger] none_beside(
                final(maze)@,
                final(visited)@,
                c,
            ),
        found matches Some(c) ==> c.0 < width && c.1 < height && final(visited)@.contains(c)
            && final(visited).room() < old(visited).room(),
{
    let mut y: u32 = 0;
    while y < height
        invariant
            maze.wf(),
            maze@ == old(maze)@,
            maze@.width == width,
            maze@.height == height,
            visited.wf(),
            visited.cols() == width,
            visited.lines() == height,
            visited@ == old(visited)@,
            visited.room() == old(visited).room(),
            visited.count() == old(visited).count(),
            rooted(maze@, visited@, origin),
            lonely(maze@, visited@),
            0 <= y <= height,
            forall|c: (u32, u32)|
                maze@.in_bounds(c) && c.1 < y && !visited@.contains(c) ==> #[trigger] none_beside(
                    maze@,
                    visited@,
                    c,
                ),
        decreases height - y,
    {
        let mut x: u32 = 0;
        while x < width
            invariant
                maze.wf(),
                maze@ == old(maze)@,
                maze@.width == width,
                maze@.height == height,
                visited.wf(),
                visited.cols() == width,
                visited.lines() == height,
                visited@ == old(visited)@,
                visited.room() == old(visited).room(),
                visited.count() == old(visited).count(),
                rooted(maze@, visited@, origin),
                lonely(maze@, visited@),
                0 <= y < height,
                0 <= x <= width,
                forall|c: (u32, u32)|
                    maze@.in_bounds(c) && row_major_before(c, (x, y)) && !visited@.contains(c)
                        ==> #[trigger] none_beside(maze@, visited@, c),
            decreases width - x,
        {
            if !visited.contains(x, y) {
                let beside = select_neighbors(maze, visited, x, y, true);
                if beside.len() > 0 {
                    let at = if beside.len() == 1 {
                        0
                    } else {
                        rng.below(beside.len())
                    };
                    let (tx, ty) = beside[at];
                    let ghost before = maze@;
                    let ghost set_before = visited@;
                    assert(maze@.in_bounds(beside@[at as int]));
                    maze.remove_wall(x, y, tx, ty);
                    visited.insert(x, y);
                    proof {
                        lemma_rooted_grows(before, maze@, set_before, origin, (tx, ty), (x, y));
                        lemma_tree_grows(before, maze@, set_before, (tx, ty), (x, y));
                    }
                    return Some((x, y));
                }
                assert(none_beside(maze@, visited@, (x, y))) by {
                    assert forall|n: (u32, u32)|
                        maze@.in_bounds(n) && #[trigger] adjacent((x, y), n) implies !visited@.contains(
                        n,
                    ) by {
                        if visited@.contains(n) {
                            assert(beside@.contains(n));
                        }
                    }
                }
            }
            x += 1;
        }
        y += 1;
    }
    None
}

/// Hunts until nothing is left to find. Every cell is then visited and
/// can be reached from the entry, and every hunt has opened one passage.
pub(crate) fn hunt_out(
    maze: &mut Maze,
    visited: &mut CellSet,
    rng: &mut MazeRng,
    width: u32,
    height: u32,
    Ghost(origin): Ghost<(u32, u32)>,
)
    requires
        old(maze).wf(),
        old(maze)@.width == width,
        old(maze)@.height == height,
        old(visited).wf(),
        old(visited).cols() == width,
        old(visited).lines() == height,
        origin.0 < width,
        origin.1 < height,
        old(visited)@.contains(origin),
        rooted(old(maze)@, old(visited)@, origin),
        lonely(old(maze)@, old(visited)@),
    ensures
        final(maze).wf(),
        final(maze)@.width == width,
        final(maze)@.height == height,
        final(visited).wf(),
        final(visited).cols() == width,
        final(visited).lines() == height,
        final(maze)@.spanning(),
        forall|c: (u32, u32)| final(maze)@.in_bounds(c) ==> final(visited)@.contains(c),
        final(visited).count() == width * height,
        final(maze)@.passages().len() + old(visited).count() == old(maze)@.passages().len()
            + width * height,
{
    loop
        invariant
            maze.wf(),
            maze@.width == width,
            maze@.height == height,
            visited.wf(),
            visited.cols() == width,
            visited.lines() == height,
            origin.0 < width,
            origin.1 < height,
            visited@.contains(origin),
            rooted(maze@, visited@, origin),
            lonely(maze@, visited@),
            maze@.passages().len() + old(visited).count() == old(maze)@.passages().len()
                + visited.count(),
        ensures
            forall|c: (u32, u32)|
                maze@.in_bounds(c) && !visited@.contains(c) ==> #[trigger] none_beside(
                    maze@,
                    visited@,
                    c,
                ),
        decreases visited.room(),
    {
        match hunt(maze, visited, rng, width, height, Ghost(origin)) {
            Some(_) => {},
            None => {
                break ;
            },
        }
    }
    proof {
        assert(closed(maze@, visited@)) by {
            assert forall|a: (u32, u32), b: (u32, u32)|
                visited@.contains(a) && maze@.in_bounds(a) && maze@.in_bounds(b)
                    && #[trigger] adjacent(a, b) implies visited@.contains(b) by {
                if !visited@.contains(b) {
                    assert(none_beside(maze@, visited@, b));
                    assert(adjacent(b, a));
                }
            }
        }
        lemma_rooted_closed_spans(maze@, visited@, origin);
        lemma_closed_is_full(maze@, visited@, origin);
        visited.lemma_full();
    }
}

/// Alternates walking and hunting from a random cell until a hunt finds
/// nothing. Every cell is then joined to every other.
fn carve(width: u32, height: u32, complexity: Complexity, rng: &mut MazeRng) -> (maze: Maze)
    requires
        valid_size(width, height),
    ensures
        maze.wf(),
        maze@.width == width,
        maze@.height == height,
        maze@.perfect(),
{
    let mut maze = Maze::new(width, height);
    let mut visited = CellSet::new(width, height);
    let mut x = rng.coordinate(width);
    let mut y = rng.coordinate(height);
    let ghost origin = (x, y);
    visited.insert(x, y);
    proof {
        crate::reach::lemma_connected_refl(maze@, origin);
        crate::grid::lemma_walled_passages(maze@);
    }
    loop
        invariant_except_break
            x < width,
            y < height,
            visited@.contains((x, y)),
        invariant
            maze.wf(),
            maze@.width == width,
            maze@.height == height,
            visited.wf(),
            visited.cols() == width,
            visited.lines() == height,
            origin.0 < width,
            origin.1 < height,
            visited@.contains(origin),
            rooted(maze@, visited@, origin),
            lonely(maze@, visited@),
            maze@.passages().len() + 1 == visited.count(),
        ensures
            forall|c: (u32, u32)|
                maze@.in_bounds(c) && !visited@.contains(c) ==> #[trigger] none_beside(
                    maze@,
                    visited@,
                    c,
                ),
        decreases visited.room(),
    {
        let ghost room_before = visited.room();
        loop
            invariant
                visited.room() <= room_before,
                maze.wf(),
                maze@.width == width,
                maze@.height == height,
                visited.wf(),
                visited.cols() == width,
                visited.lines() == height,
                x < width,
                y < height,
                visited@.contains((x, y)),
                visited@.contains(origin),
                rooted(maze@, visited@, origin),
                lonely(maze@, visited@),
                maze@.passages().len() + 1 == visited.count(),
            decreases visited.room(),
        {
            let ahead = select_neighbors(&maze, &visited, x, y, false);
            if ahead.len() == 0 {
                break ;
            }
            let (nx, ny) = ahead[pick_step(rng, ahead.len(), complexity)];
            let ghost before = maze@;
            let ghost set_before = visited@;
            maze.remove_wall(x, y, nx, ny);
            visited.insert(nx, ny);
            proof {
                lemma_rooted_grows(before, maze@, set_before, origin, (x, y), (nx, ny));
                lemma_tree_grows(before, maze@, set_before, (x, y), (nx, ny));
            }
            x = nx;
            y = ny;
        }
        match hunt(&mut maze, &mut visited, rng, width, height, Ghost(origin)) {
            Some(c) => {
                x = c.0;
                y = c.1;
            },
            None => {
                break ;
            },
        }
    }
    proof {
        assert(closed(maze@, visited@)) by {
            assert forall|a: (u32, u32), b: (u32, u32)|
                visited@.contains(a) && maze@.in_bounds(a) && maze@.in_bounds(b)
                    && #[trigger] adjacent(a, b) implies visited@.contains(b) by {
                if !visited@.contains(b) {
                    assert(none_beside(maze@, visited@, b));
                    assert(adjacent(b, a));
                }
            }
        }
        lemma_rooted_closed_spans(maze@, visited@, origin);
        lemma_closed_is_full(maze@, visited@, origin);
        visited.lemma_full();
    }
    maze
}

impl MazeGenerator for HuntAndKill {
    /// The passages form a tree on all cells.
    open spec fn keeps(&self, maze: Grid, complexity: Complexity) -> bool {
        maze.perfect()
    }

    fn generate(&self, width: u32, height: u32, complexity: Complexity, seed: Option<u64>) -> (maze:
        Maze) {
        let mut rng = MazeRng::new(seed);
        let maze = carve(width, height, complexity, &mut rng);
        proof {
            lemma_spanning_solvable(maze@);
        }
        maze
    }
}

} // verus!
