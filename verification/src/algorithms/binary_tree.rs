//! Binary tree: every cell opens toward the north or toward the east.

use vstd::prelude::*;
use crate::algorithms::{valid_size, MazeGenerator};
use crate::complexity::Complexity;
use crate::connectivity::row_major_before;
use crate::grid::Grid;
use crate::maze::Maze;
use crate::reach::{
    lemma_carve, lemma_connected_prepend, lemma_connected_refl, lemma_connected_sym,
    lemma_connected_trans, lemma_spanning_solvable,
};
use crate::rng::MazeRng;

verus! {

/// Binary tree, which opens every cell toward the north or the east.
pub struct BinaryTree;

/// The cell at `c` has a passage to the north or to the east, or it is
/// the north-east corner.
pub open spec fn climbs(g: Grid, c: (u32, u32)) -> bool {
    ||| c.1 > 0 && g.open_between(c, (c.0, (c.1 - 1) as u32))
    ||| c.0 + 1 < g.width && g.open_between(c, ((c.0 + 1) as u32, c.1))
    ||| c.1 == 0 && c.0 + 1 == g.width
}

/// The step between `a` and `b` is one that the algorithm opens when it
/// always prefers the north: any step along a column, and any step along
/// the top row.
pub open spec fn combed(g: Grid, a: (u32, u32), b: (u32, u32)) -> bool {
    &&& g.in_bounds(a)
    &&& g.in_bounds(b)
    &&& (a.0 == b.0 && (a.1 + 1 == b.1 || b.1 + 1 == a.1)) || (a.1 == 0 && b.1 == 0 && (a.0 + 1
        == b.0 || b.0 + 1 == a.0))
}

/// The cell that opens the step between `a` and `b`: the lower cell of a
/// step along a column, the western cell of a step along a row.
pub open spec fn opener(a: (u32, u32), b: (u32, u32)) -> (u32, u32) {
    if a.0 == b.0 {
        if a.1 > b.1 {
            a
        } else {
            b
        }
    } else if a.0 < b.0 {
        a
    } else {
        b
    }
}

/// The passages of the grid are exactly the steps along columns and along
/// the top row.
pub open spec fn all_combed(g: Grid) -> bool {
    forall|a: (u32, u32), b: (u32, u32)| #[trigger] g.open_between(a, b) <==> combed(g, a, b)
}

/// Below a complexity of a tenth the maze does not depend on the seed:
/// any two mazes of one size that the algorithm promises are the same.
pub proof fn lemma_binary_tree_repeats(first: Grid, second: Grid)
    requires
        first.wf(),
        second.wf(),
        first.width == second.width,
        first.height == second.height,
        all_combed(first),
        all_combed(second),
    ensures
        first == second,
{
    assert forall|a: (u32, u32), b: (u32, u32)| #[trigger]
        first.open_between(a, b) <==> second.open_between(a, b) by {
        assert(first.open_between(a, b) <==> combed(first, a, b));
        assert(second.open_between(a, b) <==> combed(second, a, b));
    }
    crate::grid::lemma_passages_fix_grid(first, second);
}

/// Every cell of the grid climbs.
pub open spec fn all_climb(g: Grid) -> bool {
    forall|c: (u32, u32)| g.in_bounds(c) ==> #[trigger] climbs(g, c)
}

proof fn lemma_climb_reaches(g: Grid, c: (u32, u32))
    requires
        g.wf(),
        all_climb(g),
        g.in_bounds(c),
    ensures
        g.connected(c, ((g.width - 1) as u32, 0u32)),
    decreases c.1 + g.width - c.0,
{
    let corner = ((g.width - 1) as u32, 0u32);
    assert(climbs(g, c));
    if c.1 > 0 && g.open_between(c, (c.0, (c.1 - 1) as u32)) {
        let up = (c.0, (c.1 - 1) as u32);
        lemma_climb_reaches(g, up);
        lemma_connected_prepend(g, c, up, corner);
    } else if c.0 + 1 < g.width && g.open_between(c, ((c.0 + 1) as u32, c.1)) {
        let east = ((c.0 + 1) as u32, c.1);
        lemma_climb_reaches(g, east);
        lemma_connected_prepend(g, c, east, corner);
    } else {
        lemma_connected_refl(g, c);
    }
}

/// A grid in which every cell climbs spans: all cells meet in the
/// north-east corner.
pub proof fn lemma_climbing_spans(g: Grid)
    requires
        g.wf(),
        all_climb(g),
    ensures
        g.spanning(),
{
    let corner = ((g.width - 1) as u32, 0u32);
    lemma_climb_reaches(g, g.entry());
    assert forall|c: (u32, u32)| g.in_bounds(c) implies #[trigger] g.connected(g.entry(), c) by {
        lemma_climb_reaches(g, c);
        lemma_connected_sym(g, c, corner);
        lemma_connected_trans(g, g.entry(), corner, c);
    }
}

/// Visits the cells row by row. Each opens toward the north where there is
/// a row above, else toward the east where there is a column beyond. Where
/// both exist, north is taken outright below a complexity of a tenth;
/// otherwise north is taken with probability one minus the complexity and
/// an even draw between the two decides the rest.
fn carve(width: u32, height: u32, complexity: Complexity, rng: &mut MazeRng) -> (maze: Maze)
    requires
        valid_size(width, height),
    ensures
        maze.wf(),
        maze@.width == width,
        maze@.height == height,
        all_climb(maze@),
        maze@.tree_sized(),
        complexity.value() < 100_000 ==> all_combed(maze@),
{
    let mut maze = Maze::new(width, height);
    proof {
        assert forall|a: (u32, u32), b: (u32, u32)| !#[trigger] maze@.open_between(a, b) by {
            if maze@.in_bounds(a) {
                assert(maze@.at(a).east);
            }
        }
        crate::grid::lemma_walled_passages(maze@);
        assert(0 * width == 0);
    }
    let mut y: u32 = 0;
    while y < height
        invariant
            maze.wf(),
            maze@.width == width,
            maze@.height == height,
            0 <= y <= height,
            forall|c: (u32, u32)| maze@.in_bounds(c) && c.1 < y ==> #[trigger] climbs(maze@, c),
            forall|a: (u32, u32), b: (u32, u32)| #[trigger]
                maze@.open_between(a, b) ==> opener(a, b).1 < y,
            maze@.passages().len() == y * width - (if y > 0 {
                1int
            } else {
                0int
            }),
            complexity.value() < 100_000 ==> forall|a: (u32, u32), b: (u32, u32)| #[trigger]
                maze@.open_between(a, b) <==> combed(maze@, a, b) && opener(a, b).1 < y,
        decreases height - y,
    {
        let mut x: u32 = 0;
        while x < width
            invariant
                maze.wf(),
                maze@.width == width,
                maze@.height == height,
                0 <= y < height,
                0 <= x <= width,
                forall|c: (u32, u32)|
                    maze@.in_bounds(c) && row_major_before(c, (x, y)) ==> #[trigger] climbs(
                        maze@,
                        c,
                    ),
                forall|a: (u32, u32), b: (u32, u32)| #[trigger]
                    maze@.open_between(a, b) ==> row_major_before(opener(a, b), (x, y)),
                maze@.passages().len() == y * width + x - (if y > 0 || x == width {
                    1int
                } else {
                    0int
                }),
                complexity.value() < 100_000 ==> forall|a: (u32, u32), b: (u32, u32)| #[trigger]
                    maze@.open_between(a, b) <==> combed(maze@, a, b) && row_major_before(
                        opener(a, b),
                        (x, y),
                    ),
            decreases width - x,
        {
            let ghost before = maze@;
            let mut options: Vec<(u32, u32)> = Vec::new();
            if y > 0 {
                options.push((x, y - 1));
            }
            if x < width - 1 {
                options.push((x + 1, y));
            }
            if options.len() > 0 {
                let target = if options.len() == 1 || complexity.below(100_000) {
                    options[0]
                } else if rng.happens(1_000_000 - complexity.millionths()) {
                    options[0]
                } else {
                    options[rng.below(options.len())]
                };
                assert((y > 0 && target == (x, (y - 1) as u32)) || (x + 1 < width && target == (
                    (x + 1) as u32,
                    y,
                )));
                assert(complexity.value() < 100_000 ==> (y > 0 ==> target == (x, (y - 1) as u32)));
                proof {
                    if !before.facing((x, y), target) {
                        assert(before.open_between((x, y), target));
                    }
                    crate::grid::lemma_carve_passages(before, (x, y), target);
                }
                maze.remove_wall(x, y, target.0, target.1);
                proof {
                    lemma_carve(before, (x, y), target);
                    assert(maze@.open_between((x, y), target));
                }
            }
            proof {
                assert(climbs(maze@, (x, y)));
                assert forall|c: (u32, u32)|
                    maze@.in_bounds(c) && row_major_before(c, ((x + 1) as u32, y)) implies #[trigger] climbs(
                    maze@,
                    c,
                ) by {
                    if c != (x, y) {
                        assert(climbs(before, c));
                    }
                }
                assert forall|a: (u32, u32), b: (u32, u32)| #[trigger]
                    maze@.open_between(a, b) implies row_major_before(
                    opener(a, b),
                    ((x + 1) as u32, y),
                ) by {
                    if before.open_between(a, b) {
                        assert(row_major_before(opener(a, b), (x, y)));
                    }
                }
                if complexity.value() < 100_000 {
                    assert forall|a: (u32, u32), b: (u32, u32)| #[trigger]
                        maze@.open_between(a, b) <==> combed(maze@, a, b) && row_major_before(
                            opener(a, b),
                            ((x + 1) as u32, y),
                        ) by {
                        assert(before.open_between(a, b) <==> combed(before, a, b)
                            && row_major_before(opener(a, b), (x, y)));
                    }
                }
            }
            x += 1;
        }
        proof {
            assert((y + 1) * width == y * width + width) by (nonlinear_arith);
        }
        y += 1;
    }
    proof {
        assert(height * width == width * height) by (nonlinear_arith);
    }
    maze
}

impl MazeGenerator for BinaryTree {
    /// Every cell but the north-east corner has a passage to the north or
    /// to the east, and the passages form a tree on all cells. Below a
    /// complexity of a tenth the passages are exactly the steps along
    /// columns and along the top row.
    open spec fn keeps(&self, maze: Grid, complexity: Complexity) -> bool {
        &&& all_climb(maze)
        &&& maze.perfect()
        &&& complexity.value() < 100_000 ==> all_combed(maze)
    }

    fn generate(&self, width: u32, height: u32, complexity: Complexity, seed: Option<u64>) -> (maze:
        Maze) {
        let mut rng = MazeRng::new(seed);
        let maze = carve(width, height, complexity, &mut rng);
        proof {
            lemma_climbing_spans(maze@);
            lemma_spanning_solvable(maze@);
        }
        maze
    }
}

} // verus!
