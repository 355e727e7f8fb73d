//! Cellular automata: random noise is smoothed by a majority rule, the
//! open cells become passages, and the open regions are stitched together.

use vstd::prelude::*;
use crate::algorithms::MazeGenerator;
use crate::cell_grid::{CellGrid, CellSet};
use crate::complexity::Complexity;
use crate::connectivity::{finished, mended, regions, regions_of, row_major_before, stitched_from};
use crate::grid::{adjacent, Grid};
use crate::maze::Maze;
use crate::reach::lemma_carve;
use crate::rng::MazeRng;

verus! {

/// Cellular automata, which smooth random noise into caves.
pub struct CellularAutomata;

/// Whether position `(x, y)` counts as wall: a marked cell, or any
/// position outside the rectangle.
pub open spec fn walled(cells: &CellGrid<bool>, x: int, y: int) -> bool {
    if 0 <= x < cells.cols() && 0 <= y < cells.lines() {
        cells.at((x as u32, y as u32))
    } else {
        true
    }
}

/// One if the position counts as wall, zero otherwise.
pub open spec fn wall_unit(cells: &CellGrid<bool>, x: int, y: int) -> int {
    if walled(cells, x, y) {
        1
    } else {
        0
    }
}

/// How many of the eight positions around `(x, y)` count as wall.
pub open spec fn walls_around(cells: &CellGrid<bool>, x: int, y: int) -> int {
    wall_unit(cells, x - 1, y - 1) + wall_unit(cells, x, y - 1) + wall_unit(cells, x + 1, y - 1)
        + wall_unit(cells, x - 1, y) + wall_unit(cells, x + 1, y) + wall_unit(cells, x - 1, y + 1)
        + wall_unit(cells, x, y + 1) + wall_unit(cells, x + 1, y + 1)
}

fn is_walled(cells: &CellGrid<bool>, width: u32, height: u32, x: i64, y: i64) -> (unit: u8)
    requires
        cells.wf(),
        cells.cols() == width,
        cells.lines() == height,
    ensures
        unit == wall_unit(cells, x as int, y as int),
{
    if 0 <= x && x < width as i64 && 0 <= y && y < height as i64 {
        if cells.get(x as u32, y as u32) {
            1
        } else {
            0
        }
    } else {
        1
    }
}

/// One smoothing step: a cell becomes wall when at least five of the eight
/// positions around it count as wall, and open otherwise.
pub fn smooth(cells: &CellGrid<bool>, width: u32, height: u32) -> (next: CellGrid<bool>)
    requires
        cells.wf(),
        cells.cols() == width,
        cells.lines() == height,
    ensures
        next.wf(),
        next.cols() == width,
        next.lines() == height,
        forall|c: (u32, u32)|
            next.in_bounds(c) ==> #[trigger] next.at(c) == (walls_around(
                cells,
                c.0 as int,
                c.1 as int,
            ) >= 5),
{
    let mut next = CellGrid::new(width, height, false);
    let mut y: u32 = 0;
    while y < height
        invariant
            cells.wf(),
            cells.cols() == width,
            cells.lines() == height,
            next.wf(),
            next.cols() == width,
            next.lines() == height,
            0 <= y <= height,
            forall|c: (u32, u32)|
                next.in_bounds(c) && c.1 < y ==> #[trigger] next.at(c) == (walls_around(
                    cells,
                    c.0 as int,
                    c.1 as int,
                ) >= 5),
        decreases height - y,
    {
        let mut x: u32 = 0;
        while x < width
            invariant
                cells.wf(),
                cells.cols() == width,
                cells.lines() == height,
                next.wf(),
                next.cols() == width,
                next.lines() == height,
                0 <= y < height,
                0 <= x <= width,
                forall|c: (u32, u32)|
                    next.in_bounds(c) && (c.1 < y || (c.1 == y && c.0 < x)) ==> #[trigger] next.at(
                        c,
                    ) == (walls_around(cells, c.0 as int, c.1 as int) >= 5),
            decreases width - x,
        {
            let cx = x as i64;
            let cy = y as i64;
            let count = is_walled(cells, width, height, cx - 1, cy - 1) + is_walled(
                cells,
                width,
                height,
                cx,
                cy - 1,
            ) + is_walled(cells, width, height, cx + 1, cy - 1) + is_walled(
                cells,
                width,
                height,
                cx - 1,
                cy,
            ) + is_walled(cells, width, height, cx + 1, cy) + is_walled(
                cells,
                width,
                height,
                cx - 1,
                cy + 1,
            ) + is_walled(cells, width, height, cx, cy + 1) + is_walled(
                cells,
                width,
                height,
                cx + 1,
                cy + 1,
            );
            next.set(x, y, count >= 5);
            x += 1;
        }
        y += 1;
    }
    next
}

/// Marks every cell as wall with probability `0.3 + 0.4 * complexity`.
fn scatter(width: u32, height: u32, complexity: Complexity, rng: &mut MazeRng) -> (cells: CellGrid<
    bool,
>)
    ensures
        cells.wf(),
        cells.cols() == width,
        cells.lines() == height,
{
    let density = complexity.scaled(300_000, 400_000);
    let mut cells = CellGrid::new(width, height, false);
    let mut y: u32 = 0;
    while y < height
        invariant
            cells.wf(),
            cells.cols() == width,
            cells.lines() == height,
            0 <= y <= height,
        decreases height - y,
    {
        let mut x: u32 = 0;
        while x < width
            invariant
                cells.wf(),
                cells.cols() == width,
                cells.lines() == height,
                0 <= y < height,
                0 <= x <= width,
            decreases width - x,
        {
            cells.set(x, y, rng.happens(density));
            x += 1;
        }
        y += 1;
    }
    cells
}

/// Both cells lie in the rectangle, are neighbours, and neither is marked
/// as wall.
pub open spec fn both_open(cells: &CellGrid<bool>, p: (u32, u32), q: (u32, u32)) -> bool {
    &&& cells.in_bounds(p)
    &&& cells.in_bounds(q)
    &&& adjacent(p, q)
    &&& !cells.at(p)
    &&& !cells.at(q)
}

/// Of two cells the one that comes first when the grid is read row by row.
pub open spec fn lead(p: (u32, u32), q: (u32, u32)) -> (u32, u32) {
    if row_major_before(p, q) {
        p
    } else {
        q
    }
}

/// The cells of the rectangle that are not marked as wall.
pub open spec fn open_cells(cells: &CellGrid<bool>) -> Set<(u32, u32)> {
    Set::new(|c: (u32, u32)| cells.in_bounds(c) && !cells.at(c))
}

/// `after` is `before` smoothed once.
pub open spec fn smoothed(before: &CellGrid<bool>, after: &CellGrid<bool>) -> bool {
    &&& before.wf()
    &&& after.wf()
    &&& after.cols() == before.cols()
    &&& after.lines() == before.lines()
    &&& forall|c: (u32, u32)|
        after.in_bounds(c) ==> #[trigger] after.at(c) == (walls_around(
            before,
            c.0 as int,
            c.1 as int,
        ) >= 5)
}

/// `last` is `first` smoothed `rounds` times.
pub open spec fn aged(first: CellGrid<bool>, last: CellGrid<bool>, rounds: nat) -> bool
    decreases rounds,
{
    if rounds == 0 {
        last == first
    } else {
        exists|mid: CellGrid<bool>|
            aged(first, mid, (rounds - 1) as nat) && #[trigger] smoothed(&mid, &last)
    }
}

/// How often the marks are smoothed: `3 + floor(5 * complexity)` times.
pub open spec fn rounds_of(complexity: Complexity) -> nat {
    (3 + (complexity.value() * 5) / 1_000_000) as nat
}

/// The passages of `caves` are those between neighbouring cells that
/// `marks` leaves open, and no others.
pub open spec fn caved(caves: Grid, marks: CellGrid<bool>) -> bool {
    &&& caves.wf()
    &&& marks.wf()
    &&& marks.cols() == caves.width
    &&& marks.lines() == caves.height
    &&& forall|p: (u32, u32), q: (u32, u32)| #[trigger]
        caves.open_between(p, q) <==> both_open(&marks, p, q)
}

/// Opens the wall between every two adjacent open cells and returns the
/// set of open cells. A passage stands afterwards exactly where one stood
/// before or two neighbouring cells are both open.
fn carve_open(maze: &mut Maze, cells: &CellGrid<bool>, width: u32, height: u32) -> (open: CellSet)
    requires
        old(maze).wf(),
        old(maze)@.width == width,
        old(maze)@.height == height,
        cells.wf(),
        cells.cols() == width,
        cells.lines() == height,
    ensures
        final(maze).wf(),
        final(maze)@.width == width,
        final(maze)@.height == height,
        old(maze)@.passages_within(final(maze)@),
        open.wf(),
        open.cols() == width,
        open.lines() == height,
        forall|c: (u32, u32)| cells.in_bounds(c) ==> (open@.contains(c) <==> !#[trigger] cells.at(c)),
        open@ == open_cells(cells),
        forall|p: (u32, u32), q: (u32, u32)| #[trigger]
            final(maze)@.open_between(p, q) <==> old(maze)@.open_between(p, q) || both_open(
                cells,
                p,
                q,
            ),
{
    let mut open = CellSet::new(width, height);
    let mut y: u32 = 0;
    while y < height
        invariant
            maze.wf(),
            maze@.width == width,
            maze@.height == height,
            old(maze)@.passages_within(maze@),
            cells.wf(),
            cells.cols() == width,
            cells.lines() == height,
            open.wf(),
            open.cols() == width,
            open.lines() == height,
            0 <= y <= height,
            forall|c: (u32, u32)|
                cells.in_bounds(c) ==> (open@.contains(c) <==> !#[trigger] cells.at(c) && c.1 < y),
            forall|p: (u32, u32), q: (u32, u32)| #[trigger]
                maze@.open_between(p, q) <==> old(maze)@.open_between(p, q) || (both_open(
                    cells,
                    p,
                    q,
                ) && lead(p, q).1 < y),
        decreases height - y,
    {
        let mut x: u32 = 0;
        while x < width
            invariant
                maze.wf(),
                maze@.width == width,
                maze@.height == height,
                old(maze)@.passages_within(maze@),
                cells.wf(),
                cells.cols() == width,
                cells.lines() == height,
                open.wf(),
                open.cols() == width,
                open.lines() == height,
                0 <= y < height,
                0 <= x <= width,
                forall|c: (u32, u32)|
                    cells.in_bounds(c) ==> (open@.contains(c) <==> !#[trigger] cells.at(c) && (c.1
                        < y || (c.1 == y && c.0 < x))),
                forall|p: (u32, u32), q: (u32, u32)| #[trigger]
                    maze@.open_between(p, q) <==> old(maze)@.open_between(p, q) || (both_open(
                        cells,
                        p,
                        q,
                    ) && row_major_before(lead(p, q), (x, y))),
            decreases width - x,
        {
            let ghost start = maze@;
            if !cells.get(x, y) {
                open.insert(x, y);
                if x < width - 1 && !cells.get(x + 1, y) {
                    proof {
                        lemma_carve(maze@, (x, y), ((x + 1) as u32, y));
                    }
                    maze.remove_wall(x, y, x + 1, y);
                }
                if y < height - 1 && !cells.get(x, y + 1) {
                    proof {
                        lemma_carve(maze@, (x, y), (x, (y + 1) as u32));
                    }
                    maze.remove_wall(x, y, x, y + 1);
                }
                proof {
                    assert forall|p: (u32, u32), q: (u32, u32)| #[trigger]
                        maze@.open_between(p, q) <==> old(maze)@.open_between(p, q) || (both_open(
                            cells,
                            p,
                            q,
                        ) && row_major_before(lead(p, q), ((x + 1) as u32, y))) by {
                        assert(start.open_between(p, q) <==> old(maze)@.open_between(p, q) || (
                        both_open(cells, p, q) && row_major_before(lead(p, q), (x, y))));
                    }
                }
            } else {
                proof {
                    assert forall|p: (u32, u32), q: (u32, u32)| #[trigger]
                        maze@.open_between(p, q) <==> old(maze)@.open_between(p, q) || (both_open(
                            cells,
                            p,
                            q,
                        ) && row_major_before(lead(p, q), ((x + 1) as u32, y))) by {
                        assert(start.open_between(p, q) <==> old(maze)@.open_between(p, q) || (
                        both_open(cells, p, q) && row_major_before(lead(p, q), (x, y))));
                    }
                }
            }
            x += 1;
        }
        proof {
            assert forall|p: (u32, u32), q: (u32, u32)| #[trigger]
                maze@.open_between(p, q) <==> old(maze)@.open_between(p, q) || (both_open(
                    cells,
                    p,
                    q,
                ) && lead(p, q).1 < y + 1) by {
                assert(maze@.open_between(p, q) <==> old(maze)@.open_between(p, q) || (both_open(
                    cells,
                    p,
                    q,
                ) && row_major_before(lead(p, q), (x, y))));
            }
        }
        y += 1;
    }
    proof {
        assert(open@ =~= open_cells(cells)) by {
            open.lemma_bounds();
        }
        assert forall|p: (u32, u32), q: (u32, u32)| #[trigger]
            maze@.open_between(p, q) <==> old(maze)@.open_between(p, q) || both_open(
                cells,
                p,
                q,
            ) by {
            assert(maze@.open_between(p, q) <==> old(maze)@.open_between(p, q) || (both_open(
                cells,
                p,
                q,
            ) && lead(p, q).1 < y));
        }
    }
    open
}

impl MazeGenerator for CellularAutomata {
    /// There are marks, smoothed as often as the complexity asks, such
    /// that the maze is the grid whose passages are those between
    /// neighbouring open cells, with its open regions stitched together
    /// and connectivity repaired.
    open spec fn keeps(&self, maze: Grid, complexity: Complexity) -> bool {
        exists|first: CellGrid<bool>, marks: CellGrid<bool>, caves: Grid|
            #![trigger aged(first, marks, rounds_of(complexity)), caved(caves, marks)]
            aged(first, marks, rounds_of(complexity)) && caved(caves, marks) && finished(
                caves,
                open_cells(&marks),
                maze,
            )
    }

    /// Scatters walls, smooths them `3 + floor(5 * complexity)` times,
    /// carves the open cells, stitches the open regions in the order in
    /// which they stand in the grid, and repairs connectivity.
    fn generate(&self, width: u32, height: u32, complexity: Complexity, seed: Option<u64>) -> (maze:
        Maze) {
        let mut maze = Maze::new(width, height);
        let mut rng = MazeRng::new(seed);
        let mut cells = scatter(width, height, complexity, &mut rng);
        let ghost first = cells;
        let rounds = 3 + complexity.portion(5);
        let mut round: u64 = 0;
        while round < rounds
            invariant
                cells.wf(),
                cells.cols() == width,
                cells.lines() == height,
                0 <= round <= rounds,
                aged(first, cells, round as nat),
            decreases rounds - round,
        {
            let ghost before = cells;
            cells = smooth(&cells, width, height);
            proof {
                assert(smoothed(&before, &cells));
                assert(aged(first, cells, (round + 1) as nat));
            }
            round += 1;
        }
        let ghost walled = maze@;
        let open = carve_open(&mut maze, &cells, width, height);
        let ghost caves = maze@;
        let groups = regions(&maze, &open);
        maze.stitch_components(&groups);
        let ghost mid = maze@;
        maze.ensure_connectivity();
        proof {
            assert forall|p: (u32, u32), q: (u32, u32)| !#[trigger] walled.open_between(p, q) by {
                if walled.in_bounds(p) {
                    assert(walled.at(p).wall_count() == 4);
                }
            }
            assert(caved(caves, cells));
            assert(finished(caves, open_cells(&cells), maze@)) by {
                assert(regions_of(caves, open_cells(&cells), groups@));
                assert(stitched_from(caves, mid, groups@));
                assert(mended(mid, maze@));
            }
            assert(rounds == rounds_of(complexity));
        }
        maze
    }
}

} // verus!
