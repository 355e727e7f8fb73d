//! Sidewinder: each row is cut into runs, and every run below the top row
//! is linked upward once.

use vstd::prelude::*;
use crate::algorithms::{valid_size, MazeGenerator};
use crate::complexity::Complexity;
use crate::connectivity::row_major_before;
use crate::grid::Grid;
use crate::maze::Maze;
use crate::reach::{
    lemma_carve, lemma_connected_refl, lemma_connected_step, lemma_connected_sym,
    lemma_connected_trans, lemma_spanning_solvable,
};
use crate::rng::MazeRng;

verus! {

/// Sidewinder, which cuts every row into runs and links each upward.
pub struct Sidewinder;

/// The cell at `c` has a passage to the east, or stands in the last
/// column.
pub open spec fn opens_east(g: Grid, c: (u32, u32)) -> bool {
    c.0 + 1 < g.width ==> g.open_between(c, ((c.0 + 1) as u32, c.1))
}

/// The cell in column `x` of row `y` has a passage to the row above.
pub open spec fn links_up(g: Grid, x: u32, y: u32) -> bool {
    y > 0 && g.open_between((x, y), (x, (y - 1) as u32))
}

/// Some cell of row `y` has a passage to the row above.
pub open spec fn row_linked(g: Grid, y: u32) -> bool {
    exists|x: u32| #[trigger] links_up(g, x, y)
}

/// Every row is open from end to end, and every row but the first is
/// linked to the row above.
pub open spec fn wound(g: Grid) -> bool {
    &&& forall|c: (u32, u32)| g.in_bounds(c) ==> #[trigger] opens_east(g, c)
    &&& forall|y: u32| 0 < y < g.height ==> #[trigger] row_linked(g, y)
}

proof fn lemma_row_joined(g: Grid, c: (u32, u32))
    requires
        g.wf(),
        wound(g),
        g.in_bounds(c),
    ensures
        g.connected((0u32, c.1), c),
    decreases c.0,
{
    if c.0 == 0 {
        lemma_connected_refl(g, c);
    } else {
        let west = ((c.0 - 1) as u32, c.1);
        lemma_row_joined(g, west);
        assert(opens_east(g, west));
        lemma_connected_step(g, (0u32, c.1), west, c);
    }
}

proof fn lemma_rows_joined(g: Grid, y: u32)
    requires
        g.wf(),
        wound(g),
        y < g.height,
    ensures
        g.connected(g.entry(), (0u32, y)),
    decreases y,
{
    if y == 0 {
        lemma_connected_refl(g, g.entry());
    } else {
        let above = (y - 1) as u32;
        lemma_rows_joined(g, above);
        assert(row_linked(g, y));
        let x = choose|x: u32| #[trigger] links_up(g, x, y);
        lemma_row_joined(g, (x, above));
        lemma_row_joined(g, (x, y));
        lemma_connected_sym(g, (0u32, y), (x, y));
        crate::grid::lemma_walls_symmetric(g, (x, y), (x, above));
        lemma_connected_step(g, (0u32, above), (x, above), (x, y));
        lemma_connected_trans(g, (0u32, above), (x, y), (0u32, y));
        lemma_connected_trans(g, g.entry(), (0u32, above), (0u32, y));
    }
}

/// A wound grid spans.
pub proof fn lemma_wound_spans(g: Grid)
    requires
        g.wf(),
        wound(g),
    ensures
        g.spanning(),
{
    assert forall|c: (u32, u32)| g.in_bounds(c) implies #[trigger] g.connected(g.entry(), c) by {
        lemma_rows_joined(g, c.1);
        lemma_row_joined(g, c);
        lemma_connected_trans(g, g.entry(), (0u32, c.1), c);
    }
}

/// Visits the cells row by row, opening every wall toward the east. A run
/// ends at the last cell of a row, and before it with probability
/// `0.3 + 0.5 * complexity`; below the top row a run that ends is linked
/// upward from one of its cells, drawn at random.
fn carve(width: u32, height: u32, complexity: Complexity, rng: &mut MazeRng) -> (maze: Maze)
    requires
        valid_size(width, height),
    ensures
        maze.wf(),
        maze@.width == width,
        maze@.height == height,
        wound(maze@),
{
    let mut maze = Maze::new(width, height);
    let end_run = complexity.scaled(300_000, 500_000);
    let mut y: u32 = 0;
    while y < height
        invariant
            maze.wf(),
            maze@.width == width,
            maze@.height == height,
            0 <= y <= height,
            forall|c: (u32, u32)| maze@.in_bounds(c) && c.1 < y ==> #[trigger] opens_east(maze@, c),
            forall|row: u32| 0 < row < y ==> #[trigger] row_linked(maze@, row),
        decreases height - y,
    {
        let mut run_start: u32 = 0;
        let mut x: u32 = 0;
        while x < width
            invariant
                maze.wf(),
                maze@.width == width,
                maze@.height == height,
                0 <= y < height,
                0 <= x <= width,
                run_start <= x,
                forall|c: (u32, u32)|
                    maze@.in_bounds(c) && row_major_before(c, (x, y)) ==> #[trigger] opens_east(
                        maze@,
                        c,
                    ),
                forall|row: u32| 0 < row < y ==> #[trigger] row_linked(maze@, row),
                y > 0 && x == width ==> row_linked(maze@, y),
            decreases width - x,
        {
            let ghost before = maze@;
            let ends = x == width - 1 || rng.happens(end_run);
            if x < width - 1 {
                maze.remove_wall(x, y, x + 1, y);
                proof {
                    lemma_carve(before, (x, y), ((x + 1) as u32, y));
                }
            }
            let ghost mid = maze@;
            if ends {
                if y > 0 {
                    let link_x = if run_start == x {
                        x
                    } else {
                        rng.coordinate_between(run_start, x)
                    };
                    maze.remove_wall(link_x, y, link_x, y - 1);
                    proof {
                        lemma_carve(mid, (link_x, y), (link_x, (y - 1) as u32));
                        assert(links_up(maze@, link_x, y));
                    }
                }
                run_start = x + 1;
            }
            proof {
                assert(opens_east(maze@, (x, y)));
                assert forall|c: (u32, u32)|
                    maze@.in_bounds(c) && row_major_before(c, ((x + 1) as u32, y)) implies #[trigger] opens_east(
                    maze@,
                    c,
                ) by {
                    if c != (x, y) {
                        assert(opens_east(before, c));
                    }
                }
                assert forall|row: u32| 0 < row < y implies #[trigger] row_linked(maze@, row) by {
                    assert(row_linked(before, row));
                    let link = choose|link: u32| #[trigger] links_up(before, link, row);
                    assert(links_up(maze@, link, row));
                }
            }
            x += 1;
        }
        y += 1;
    }
    maze
}

impl MazeGenerator for Sidewinder {
    /// Every row is open from end to end and linked to the row above, so
    /// every cell can be reached from the entry.
    open spec fn keeps(&self, maze: Grid, complexity: Complexity) -> bool {
        wound(maze) && maze.spanning()
    }

    fn generate(&self, width: u32, height: u32, complexity: Complexity, seed: Option<u64>) -> (maze:
        Maze) {
        let mut rng = MazeRng::new(seed);
        let maze = carve(width, height, complexity, &mut rng);
        proof {
            lemma_wound_spans(maze@);
            lemma_spanning_solvable(maze@);
        }
        maze
    }
}

} // verus!
