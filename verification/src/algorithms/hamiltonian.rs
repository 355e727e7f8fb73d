//! Hamiltonian: a path through every cell is searched for and carved; a
//! spanning traversal stands in when the search gives up.

use vstd::prelude::*;
use crate::algorithms::wilsons::tracks;
use crate::algorithms::{all_inside, cell_count, first_with, select_neighbors, MazeGenerator};
use crate::cell_grid::CellSet;
use crate::complexity::Complexity;
use crate::connectivity::mended;
use crate::grid::{
    adjacent, lemma_neighbors, lemma_tree_grows, lemma_walled_passages, lonely, same_step, Grid,
};
use crate::maze::Maze;
use crate::reach::{
    closed, lemma_carve, lemma_closed_is_full, lemma_connected_refl, lemma_rooted_grows,
    lemma_spanning_solvable, lemma_wall_up, rooted,
};
use crate::rng::MazeRng;

verus! {

/// Hamiltonian, which carves along a path through every cell.
pub struct Hamiltonian;

/// How many cells the search may enter for every cell of the grid before
/// it gives up.
pub const EFFORT_PER_CELL: u64 = 100;

/// The path visits no cell twice and moves from each cell to one next to
/// it on the grid.
pub open spec fn winds(path: Seq<(u32, u32)>) -> bool {
    &&& path.no_duplicates()
    &&& forall|i: int| 0 <= i < path.len() - 1 ==> adjacent(#[trigger] path[i], path[i + 1])
}

/// `full` is a path through every cell of the rectangle that begins with
/// `prefix`.
pub open spec fn completes(
    prefix: Seq<(u32, u32)>,
    full: Seq<(u32, u32)>,
    width: u32,
    height: u32,
) -> bool {
    &&& winds(full)
    &&& all_inside(full, width, height)
    &&& full.len() == width * height
    &&& prefix.len() <= full.len()
    &&& full.subrange(0, prefix.len() as int) == prefix
}

/// No path through every cell of the rectangle begins with `prefix`.
pub open spec fn hopeless(prefix: Seq<(u32, u32)>, width: u32, height: u32) -> bool {
    forall|full: Seq<(u32, u32)>| !#[trigger] completes(prefix, full, width, height)
}

/// The position of the cell `c` on the serpentine that runs east along the
/// first row, west along the second, and so on.
pub open spec fn serpent_index(width: u32, c: (u32, u32)) -> int {
    c.1 * width + (if c.1 % 2 == 0 {
        c.0 as int
    } else {
        width - 1 - c.0
    })
}

/// The path runs along the serpentine from its start: the cell at every
/// position is the cell of the rectangle with that position on the
/// serpentine.
pub open spec fn serpentine(path: Seq<(u32, u32)>, width: u32, height: u32) -> bool {
    forall|j: int|
        0 <= j < path.len() ==> (#[trigger] path[j]).0 < width && path[j].1 < height
            && serpent_index(width, path[j]) == j
}

/// `p` and `q` follow each other on the serpentine, one way or the other.
pub open spec fn serpent_step(width: u32, p: (u32, u32), q: (u32, u32)) -> bool {
    serpent_index(width, p) + 1 == serpent_index(width, q) || serpent_index(width, q) + 1
        == serpent_index(width, p)
}

/// The passages of `g` are the steps of the serpentine through all its
/// cells, and no others.
pub open spec fn serpentine_maze(g: Grid) -> bool {
    forall|p: (u32, u32), q: (u32, u32)| #[trigger]
        g.open_between(p, q) <==> g.in_bounds(p) && g.in_bounds(q) && serpent_step(
            g.width as u32,
            p,
            q,
        )
}

/// No draw decides which way the search goes: the complexity is zero, so
/// that nothing is shuffled, or the grid has one row or one column, so
/// that no cell has two unvisited neighbours.
pub open spec fn straight(complexity: Complexity, width: u32, height: u32) -> bool {
    complexity.value() == 0 || width == 1 || height == 1
}

/// The search is on the serpentine with effort enough to finish it, and
/// no draw decides its way.
pub open spec fn on_track(
    pushed: Seq<(u32, u32)>,
    width: u32,
    height: u32,
    total: u64,
    effort: u64,
    complexity: Complexity,
) -> bool {
    &&& straight(complexity, width, height)
    &&& total == width * height
    &&& serpentine(pushed, width, height)
    &&& effort + pushed.len() >= total
}

proof fn lemma_serpent_row(width: u32, c: (u32, u32))
    requires
        c.0 < width,
    ensures
        0 <= c.1 * width <= serpent_index(width, c) < c.1 * width + width,
        (c.1 + 1) * width == c.1 * width + width,
        c.1 > 0 ==> (c.1 - 1) * width == c.1 * width - width,
{
    assert(0 <= c.1 * width) by (nonlinear_arith)
        requires
            0 <= c.1,
            0 <= width,
    ;
    assert((c.1 + 1) * width == c.1 * width + width) by (nonlinear_arith);
    assert((c.1 - 1) * width == c.1 * width - width) by (nonlinear_arith);
}

proof fn lemma_serpent_injective(width: u32, a: (u32, u32), b: (u32, u32))
    requires
        a.0 < width,
        b.0 < width,
        serpent_index(width, a) == serpent_index(width, b),
    ensures
        a == b,
{
    lemma_serpent_row(width, a);
    lemma_serpent_row(width, b);
    let s = serpent_index(width, a);
    assert(a.1 == b.1) by (nonlinear_arith)
        requires
            a.1 * width <= s < a.1 * width + width,
            b.1 * width <= s < b.1 * width + width,
            0 <= a.1,
            0 <= b.1,
            0 < width,
    ;
}

proof fn lemma_serpent_seen(
    width: u32,
    height: u32,
    path: Seq<(u32, u32)>,
    visited: Set<(u32, u32)>,
    n: (u32, u32),
)
    requires
        serpentine(path, width, height),
        forall|c: (u32, u32)|
            #![trigger visited.contains(c)]
            #![trigger path.contains(c)]
            visited.contains(c) <==> path.contains(c),
        n.0 < width,
        n.1 < height,
    ensures
        visited.contains(n) <==> 0 <= serpent_index(width, n) < path.len(),
{
    let s = serpent_index(width, n);
    lemma_serpent_row(width, n);
    if 0 <= s < path.len() {
        assert(serpent_index(width, path[s]) == s);
        lemma_serpent_injective(width, path[s], n);
        assert(path.contains(n));
    }
    if visited.contains(n) {
        assert(path.contains(n));
        let j = choose|j: int| 0 <= j < path.len() && path[j] == n;
        assert(serpent_index(width, path[j]) == j);
    }
}

/// In a grid of one row or one column the only unvisited neighbour of the
/// last cell of a serpentine is the next cell of the serpentine.
proof fn lemma_single_file(
    width: u32,
    height: u32,
    path: Seq<(u32, u32)>,
    visited: Set<(u32, u32)>,
    n: (u32, u32),
)
    requires
        width == 1 || height == 1,
        path.len() >= 1,
        serpentine(path, width, height),
        forall|c: (u32, u32)|
            #![trigger visited.contains(c)]
            #![trigger path.contains(c)]
            visited.contains(c) <==> path.contains(c),
        n.0 < width,
        n.1 < height,
        adjacent(path[path.len() - 1], n),
        !visited.contains(n),
    ensures
        serpent_index(width, n) == path.len(),
{
    let last = path[path.len() - 1];
    assert(serpent_index(width, last) == path.len() - 1);
    lemma_serpent_row(width, last);
    lemma_serpent_row(width, n);
    lemma_serpent_seen(width, height, path, visited, n);
    if height == 1 {
        assert(0 * width == 0);
    } else {
        assert(n.1 * width == n.1) by (nonlinear_arith)
            requires
                width == 1,
        ;
        assert(last.1 * width == last.1) by (nonlinear_arith)
            requires
                width == 1,
        ;
    }
}

/// The serpentine exists: for every length up to the number of cells there
/// is a winding path of that length along it.
proof fn lemma_serpentine_grows(g: Grid, width: u32, height: u32, n: nat) -> (path: Seq<(u32, u32)>)
    requires
        g.shaped(),
        g.width == width,
        g.height == height,
        1 <= n <= width * height,
    ensures
        path.len() == n,
        serpentine(path, width, height),
        winds(path),
        path[0] == (0u32, 0u32),
    decreases n,
{
    if n == 1 {
        let path = seq![(0u32, 0u32)];
        assert(0 * width == 0);
        path
    } else {
        let shorter = lemma_serpentine_grows(g, width, height, (n - 1) as nat);
        let visited = Set::new(|c: (u32, u32)| shorter.contains(c));
        let k = lemma_serpent_next(g, width, height, shorter, visited);
        let last = shorter[shorter.len() - 1];
        let next = g.neighbors(last)[k];
        lemma_neighbors(g, last);
        let path = shorter.push(next);
        assert(!shorter.contains(next));
        assert forall|i: int| 0 <= i < path.len() - 1 implies adjacent(
            #[trigger] path[i],
            path[i + 1],
        ) by {
            if i + 1 < shorter.len() {
                assert(adjacent(shorter[i], shorter[i + 1]));
            }
        }
        path
    }
}

/// On the serpentine the first unvisited neighbour of the last cell, in
/// the order west, east, north, south, is the next cell of the serpentine.
proof fn lemma_serpent_next(
    g: Grid,
    width: u32,
    height: u32,
    path: Seq<(u32, u32)>,
    visited: Set<(u32, u32)>,
) -> (k: int)
    requires
        g.shaped(),
        g.width == width,
        g.height == height,
        1 <= path.len() < width * height,
        serpentine(path, width, height),
        forall|c: (u32, u32)|
            #![trigger visited.contains(c)]
            #![trigger path.contains(c)]
            visited.contains(c) <==> path.contains(c),
    ensures
        first_with(g.neighbors(path[path.len() - 1]), visited, false, k),
        g.in_bounds(g.neighbors(path[path.len() - 1])[k]),
        serpent_index(width, g.neighbors(path[path.len() - 1])[k]) == path.len(),
{
    let c = path[path.len() - 1];
    let x = c.0;
    let y = c.1;
    assert(serpent_index(width, c) == path.len() - 1);
    lemma_serpent_row(width, c);
    let ws: Seq<(u32, u32)> = if x > 0 {
        seq![((x - 1) as u32, y)]
    } else {
        Seq::empty()
    };
    let es: Seq<(u32, u32)> = if x + 1 < width {
        seq![((x + 1) as u32, y)]
    } else {
        Seq::empty()
    };
    let ns: Seq<(u32, u32)> = if y > 0 {
        seq![(x, (y - 1) as u32)]
    } else {
        Seq::empty()
    };
    let ss: Seq<(u32, u32)> = if y + 1 < height {
        seq![(x, (y + 1) as u32)]
    } else {
        Seq::empty()
    };
    let all = g.neighbors(c);
    assert(all =~= ws + es + ns + ss);
    if x > 0 {
        lemma_serpent_row(width, ((x - 1) as u32, y));
        lemma_serpent_seen(width, height, path, visited, ((x - 1) as u32, y));
    }
    if x + 1 < width {
        lemma_serpent_row(width, ((x + 1) as u32, y));
        lemma_serpent_seen(width, height, path, visited, ((x + 1) as u32, y));
    }
    if y > 0 {
        lemma_serpent_row(width, (x, (y - 1) as u32));
        lemma_serpent_seen(width, height, path, visited, (x, (y - 1) as u32));
    }
    if y + 1 < height {
        lemma_serpent_row(width, (x, (y + 1) as u32));
        lemma_serpent_seen(width, height, path, visited, (x, (y + 1) as u32));
    }
    let at_end = if y % 2 == 0 {
        x + 1 == width
    } else {
        x == 0
    };
    if at_end {
        assert(y + 1 < height) by (nonlinear_arith)
            requires
                y * width + width - 1 + 1 < width * height,
                0 < width,
                0 <= y,
        ;
    }
    let k: int = if y % 2 == 0 {
        if x + 1 < width {
            ws.len() as int
        } else {
            (ws.len() + es.len() + ns.len()) as int
        }
    } else {
        if x > 0 {
            0
        } else {
            (ws.len() + es.len() + ns.len()) as int
        }
    };
    assert forall|j: int| 0 <= j < k implies visited.contains(#[trigger] all[j]) != false by {
        if j < ws.len() {
            assert(all[j] == ((x - 1) as u32, y));
        } else if j < ws.len() + es.len() {
            assert(all[j] == ((x + 1) as u32, y));
        } else {
            assert(all[j] == (x, (y - 1) as u32));
        }
    }
    k
}

/// Backtracking search for a path through every cell that extends `path`
/// by `(x, y)`. On success the whole path stands in `path`; on failure, or
/// when the effort left is spent, `path` and `visited` are as they were.
/// A failure with effort to spare shows that no path through every cell
/// begins this way. Where no draw decides, on the serpentine and with
/// effort enough to finish it, the search succeeds along the serpentine.
fn search(
    maze: &Maze,
    rng: &mut MazeRng,
    x: u32,
    y: u32,
    path: &mut Vec<(u32, u32)>,
    visited: &mut CellSet,
    total: u64,
    effort: &mut u64,
    complexity: Complexity,
    width: u32,
    height: u32,
) -> (found: bool)
    requires
        maze.wf(),
        maze@.width == width,
        maze@.height == height,
        x < width,
        y < height,
        old(visited).wf(),
        old(visited).cols() == width,
        old(visited).lines() == height,
        !old(visited)@.contains((x, y)),
        all_inside(old(path)@, width, height),
        winds(old(path)@),
        tracks(old(path)@, old(visited)@),
        old(path)@.len() > 0 ==> adjacent(old(path)@[old(path)@.len() - 1], (x, y)),
    ensures
        final(visited).wf(),
        final(visited).cols() == width,
        final(visited).lines() == height,
        all_inside(final(path)@, width, height),
        found ==> final(path)@.len() == total,
        found ==> winds(final(path)@) && old(path)@.len() < final(path)@.len(),
        found ==> final(path)@.subrange(0, old(path)@.len() as int + 1) == old(path)@.push((x, y)),
        !found ==> final(path)@ == old(path)@ && final(visited)@ == old(visited)@,
        !found ==> final(visited).room() == old(visited).room(),
        *final(effort) <= *old(effort),
        !found && *final(effort) > 0 && total == width * height ==> hopeless(
            old(path)@.push((x, y)),
            width,
            height,
        ),
        on_track(old(path)@.push((x, y)), width, height, total, *old(effort), complexity) ==> found
            && serpentine(final(path)@, width, height),
    decreases old(visited).room(),
{
    let ghost path_before = path@;
    let ghost visited_before = visited@;
    let ghost effort_before = *effort;
    let ghost on_course = on_track(path@.push((x, y)), width, height, total, *effort, complexity);
    path.push((x, y));
    visited.insert(x, y);
    proof {
        crate::seqs::lemma_push_contains(path_before, (x, y));
        assert(!path_before.contains((x, y)));
        assert(winds(path@)) by {
            assert forall|i: int| 0 <= i < path@.len() - 1 implies adjacent(
                #[trigger] path@[i],
                path@[i + 1],
            ) by {
                if i < path_before.len() - 1 {
                    assert(adjacent(path_before[i], path_before[i + 1]));
                }
            }
        }
    }
    if path.len() as u64 == total {
        proof {
            assert(path@.subrange(0, path_before.len() as int + 1) =~= path_before.push((x, y)));
        }
        return true;
    }
    proof {
        if on_course {
            let last = path@[path@.len() - 1];
            assert(serpent_index(width, last) == path@.len() - 1);
            lemma_serpent_row(width, last);
            assert(path@.len() - 1 < width * height) by (nonlinear_arith)
                requires
                    path@.len() - 1 < last.1 * width + width,
                    last.1 + 1 <= height,
                    0 < width,
            ;
        }
    }
    if *effort == 0 {
        path.pop();
        visited.remove(x, y);
        proof {
            assert(path@ =~= path_before);
            assert(visited@ =~= visited_before);
        }
        return false;
    }
    *effort = *effort - 1;
    let mut ahead = select_neighbors(maze, visited, x, y, false);
    let ghost mut onward = (0u32, 0u32);
    proof {
        if on_course {
            let k = lemma_serpent_next(maze@, width, height, path@, visited@);
            onward = maze@.neighbors((x, y))[k];
            lemma_neighbors(maze@, (x, y));
            assert(ahead@.contains(onward));
            if complexity.value() == 0 {
                assert(ahead@[0] == maze@.neighbors((x, y))[k]);
            } else {
                assert forall|j: int| 0 <= j < ahead@.len() implies #[trigger] ahead@[j]
                    == onward by {
                    lemma_single_file(width, height, path@, visited@, ahead@[j]);
                    lemma_serpent_injective(width, ahead@[j], onward);
                }
            }
            assert(ahead@[0] == onward);
        }
    }
    if complexity.positive() && ahead.len() > 1 {
        let ghost listed = ahead@;
        rng.shuffle(&mut ahead);
        proof {
            if on_course {
                assert(listed.contains(ahead@[0]));
                let j = choose|j: int| 0 <= j < listed.len() && listed[j] == ahead@[0];
                assert(listed[j] == onward);
            }
            assert forall|k: int| 0 <= k < ahead@.len() implies maze@.in_bounds(
                #[trigger] ahead@[k],
            ) && !visited@.contains(ahead@[k]) && adjacent((x, y), ahead@[k]) by {
                assert(listed.contains(ahead@[k]));
                let j = choose|j: int| 0 <= j < listed.len() && listed[j] == ahead@[k];
                assert(maze@.in_bounds(listed[j]));
                assert(!visited@.contains(listed[j]));
            }
            assert forall|n: (u32, u32)|
                maze@.in_bounds(n) && #[trigger] adjacent((x, y), n) && !visited@.contains(
                    n,
                ) implies ahead@.contains(n) by {
                assert(listed.contains(n));
                let j = choose|j: int| 0 <= j < listed.len() && listed[j] == n;
                assert(ahead@.contains(listed[j]));
            }
        }
    }
    proof {
        if on_course {
            assert(ahead@[0] == onward);
            assert(serpentine(path@.push(ahead@[0]), width, height));
        }
    }
    let mut i: usize = 0;
    while i < ahead.len()
        invariant
            path@.len() != total,
            effort_before == *old(effort),
            *effort <= effort_before,
            forall|n: (u32, u32)|
                maze@.in_bounds(n) && #[trigger] adjacent((x, y), n) && !visited@.contains(n)
                    ==> ahead@.contains(n),
            *effort > 0 && total == width * height ==> forall|j: int|
                0 <= j < i ==> hopeless(path@.push(#[trigger] ahead@[j]), width, height),
            on_course ==> i == 0 && ahead@.len() > 0 && on_track(
                path@.push(ahead@[0]),
                width,
                height,
                total,
                *effort,
                complexity,
            ),
            on_course == on_track(
                old(path)@.push((x, y)),
                width,
                height,
                total,
                *old(effort),
                complexity,
            ),
            maze.wf(),
            maze@.width == width,
            maze@.height == height,
            visited.wf(),
            visited.cols() == width,
            visited.lines() == height,
            visited@ == visited_before.insert((x, y)),
            visited.room() + 1 == old(visited).room(),
            path_before == old(path)@,
            path@ == path_before.push((x, y)),
            all_inside(path@, width, height),
            winds(path@),
            tracks(path@, visited@),
            x < width,
            y < height,
            0 <= i <= ahead@.len(),
            forall|k: int|
                0 <= k < ahead@.len() ==> maze@.in_bounds(#[trigger] ahead@[k]) && !visited@.contains(
                    ahead@[k],
                ) && adjacent((x, y), ahead@[k]),
        decreases ahead@.len() - i,
    {
        let (nx, ny) = ahead[i];
        assert(maze@.in_bounds(ahead@[i as int]));
        let ghost standing = path@;
        if search(maze, rng, nx, ny, path, visited, total, effort, complexity, width, height) {
            proof {
                assert(path@.subrange(0, path_before.len() as int + 1) =~= path@.subrange(
                    0,
                    standing.len() as int + 1,
                ).subrange(0, path_before.len() as int + 1));
                assert(path@.subrange(0, path_before.len() as int + 1) =~= path_before.push((x, y)));
            }
            return true;
        }
        i += 1;
    }
    proof {
        if *effort > 0 && total == width * height {
            let prefix = path@;
            assert forall|full: Seq<(u32, u32)>| !#[trigger] completes(
                prefix,
                full,
                width,
                height,
            ) by {
                if completes(prefix, full, width, height) {
                    let at = prefix.len() as int;
                    let n = full[at];
                    assert(full.subrange(0, at)[at - 1] == prefix[at - 1]);
                    assert(adjacent(full[at - 1], full[at - 1 + 1]));
                    if visited@.contains(n) {
                        assert(prefix.contains(n));
                        let j = choose|j: int| 0 <= j < prefix.len() && prefix[j] == n;
                        assert(full.subrange(0, at)[j] == prefix[j]);
                    }
                    assert(ahead@.contains(n));
                    let j = choose|j: int| 0 <= j < ahead@.len() && ahead@[j] == n;
                    assert(full.subrange(0, at + 1) =~= prefix.push(ahead@[j])) by {
                        assert forall|t: int| 0 <= t < at implies full[t] == prefix[t] by {
                            assert(full.subrange(0, at)[t] == prefix[t]);
                        }
                    }
                    assert(completes(prefix.push(ahead@[j]), full, width, height));
                    assert(hopeless(prefix.push(ahead@[j]), width, height));
                }
            }
        }
    }
    path.pop();
    visited.remove(x, y);
    proof {
        assert(path@ =~= path_before);
        assert(visited@ =~= visited_before);
    }
    false
}

/// A backtracking search from the entry for a path that visits every
/// cell of the maze's grid once, moving from cell to neighbouring cell
/// whatever the walls. The search may enter `effort` cells; it returns
/// the path, if it found one, and the effort left. It fails only when the
/// effort is spent. Where no draw decides, at complexity zero and in a
/// grid of one row or one column, it never turns back and finds the
/// serpentine: east along the first row, west along the second, and so
/// on.
pub fn search_with_effort(maze: &Maze, rng: &mut MazeRng, complexity: Complexity, effort: u64) -> (out:
    (Option<Vec<(u32, u32)>>, u64))
    requires
        maze.wf(),
        maze@.width * maze@.height <= u32::MAX,
    ensures
        out.1 <= effort,
        out.0 matches Some(path) ==> {
            &&& path@.len() == maze@.width * maze@.height
            &&& path@[0] == (0u32, 0u32)
            &&& winds(path@)
            &&& all_inside(path@, maze@.width as u32, maze@.height as u32)
        },
        out.0 is None ==> out.1 == 0,
        straight(complexity, maze@.width as u32, maze@.height as u32) && effort + 1 >= maze@.width
            * maze@.height ==> out.0 is Some && serpentine(
            out.0->Some_0@,
            maze@.width as u32,
            maze@.height as u32,
        ),
{
    let width = maze.width();
    let height = maze.height();
    let total = cell_count(width, height) as u64;
    let mut path: Vec<(u32, u32)> = Vec::new();
    let mut visited = CellSet::new(width, height);
    let mut left: u64 = effort;
    proof {
        assert(0 * width == 0);
        assert(serpentine(path@.push((0u32, 0u32)), width, height));
    }
    let found = search(
        maze,
        rng,
        0,
        0,
        &mut path,
        &mut visited,
        total,
        &mut left,
        complexity,
        width,
        height,
    );
    if found {
        assert(path@.subrange(0, 1)[0] == (0u32, 0u32));
        (Some(path), left)
    } else {
        proof {
            if left > 0 {
                let full = lemma_serpentine_grows(maze@, width, height, total as nat);
                assert(full.subrange(0, 1) =~= seq![(0u32, 0u32)]);
                assert(Seq::<(u32, u32)>::empty().push((0u32, 0u32)) =~= seq![(0u32, 0u32)]);
                assert(completes(seq![(0u32, 0u32)], full, width, height));
            }
        }
        (None, left)
    }
}

/// A path from the entry that visits every cell of the maze's grid once,
/// moving from cell to neighbouring cell whatever the walls, found by a
/// randomized backtracking search; `None` when the search gives up after
/// entering `EFFORT_PER_CELL` cells for every cell of the grid. At
/// complexity zero, and in a grid of one row or one column, no draw
/// decides: the search never turns back and finds the serpentine, east
/// along the first row, west along the second, and so on.
pub fn hamiltonian_path(maze: &Maze, rng: &mut MazeRng, complexity: Complexity) -> (found: Option<
    Vec<(u32, u32)>,
>)
    requires
        maze.wf(),
        maze@.width * maze@.height <= u32::MAX,
    ensures
        found matches Some(path) ==> {
            &&& path@.len() == maze@.width * maze@.height
            &&& path@[0] == (0u32, 0u32)
            &&& winds(path@)
            &&& all_inside(path@, maze@.width as u32, maze@.height as u32)
        },
        straight(complexity, maze@.width as u32, maze@.height as u32) ==> found is Some
            && serpentine(found->Some_0@, maze@.width as u32, maze@.height as u32),
{
    let total = cell_count(maze.width(), maze.height()) as u64;
    let (found, _left) = search_with_effort(maze, rng, complexity, total * EFFORT_PER_CELL);
    found
}

/// The traversal has visited exactly the cells of `path` and `stack`,
/// each listed once.
pub open spec fn sorted_out(
    path: Seq<(u32, u32)>,
    stack: Seq<(u32, u32)>,
    visited: Set<(u32, u32)>,
) -> bool {
    &&& path.no_duplicates()
    &&& stack.no_duplicates()
    &&& forall|i: int, j: int|
        0 <= i < path.len() && 0 <= j < stack.len() ==> #[trigger] path[i] != #[trigger] stack[j]
    &&& forall|c: (u32, u32)| #[trigger]
        visited.contains(c) <==> path.contains(c) || stack.contains(c)
}

/// Every neighbour of each of the first `upto` cells of `path` is visited.
pub open spec fn explored(g: Grid, path: Seq<(u32, u32)>, upto: int, visited: Set<(u32, u32)>) -> bool {
    forall|k: int, n: (u32, u32)|
        0 <= k < upto && g.in_bounds(n) && #[trigger] adjacent(path[k], n) ==> visited.contains(n)
}

/// The order in which a depth-first traversal from the entry takes the
/// cells off its stack. The unvisited neighbours of each cell are pushed
/// together, shuffled when the complexity is above zero. The order starts
/// at the entry and holds every cell of the grid once.
fn traversal(maze: &Maze, rng: &mut MazeRng, complexity: Complexity, width: u32, height: u32) -> (path:
    Vec<(u32, u32)>)
    requires
        maze.wf(),
        maze@.width == width,
        maze@.height == height,
    ensures
        all_inside(path@, width, height),
        path@.len() == width * height,
        path@[0] == (0u32, 0u32),
        path@.no_duplicates(),
        forall|c: (u32, u32)| maze@.in_bounds(c) ==> path@.contains(c),
{
    let mut path: Vec<(u32, u32)> = Vec::new();
    let mut visited = CellSet::new(width, height);
    let mut stack: Vec<(u32, u32)> = Vec::new();
    stack.push((0, 0));
    visited.insert(0, 0);
    proof {
        assert(stack@[0] == (0u32, 0u32));
        assert forall|c: (u32, u32)| #[trigger]
            visited@.contains(c) <==> path@.contains(c) || stack@.contains(c) by {
            if stack@.contains(c) {
                let j = choose|j: int| 0 <= j < stack@.len() && stack@[j] == c;
            }
        }
    }
    while stack.len() > 0
        invariant
            maze.wf(),
            maze@.width == width,
            maze@.height == height,
            visited.wf(),
            visited.cols() == width,
            visited.lines() == height,
            all_inside(stack@, width, height),
            all_inside(path@, width, height),
            path@.len() + stack@.len() >= 1,
            sorted_out(path@, stack@, visited@),
            explored(maze@, path@, path@.len() as int, visited@),
            path@.len() + stack@.len() == visited.count(),
            path@.len() == 0 ==> stack@ == seq![(0u32, 0u32)],
            path@.len() > 0 ==> path@[0] == (0u32, 0u32),
        decreases visited.room() + stack@.len(),
    {
        let ghost path_before = path@;
        let ghost stack_before = stack@;
        let (x, y) = stack.pop().unwrap();
        path.push((x, y));
        proof {
            let c = (x, y);
            assert(stack_before[stack_before.len() - 1] == c);
            assert(stack@ =~= stack_before.drop_last());
            crate::seqs::lemma_push_contains(path_before, c);
            assert(!path_before.contains(c)) by {
                if path_before.contains(c) {
                    let k = choose|k: int| 0 <= k < path_before.len() && path_before[k] == c;
                    assert(path_before[k] != stack_before[stack_before.len() - 1]);
                }
            }
            assert forall|i: int, j: int| 0 <= i < path@.len() && 0 <= j < stack@.len() implies
                #[trigger] path@[i] != #[trigger] stack@[j] by {
                if i < path_before.len() {
                    assert(path_before[i] != stack_before[j]);
                }
            }
            assert forall|d: (u32, u32)| #[trigger]
                visited@.contains(d) <==> path@.contains(d) || stack@.contains(d) by {
                if stack@.contains(d) {
                    let j = choose|j: int| 0 <= j < stack@.len() && stack@[j] == d;
                    assert(stack_before[j] == d);
                    assert(stack_before.contains(d));
                }
                if stack_before.contains(d) && d != c {
                    let j = choose|j: int| 0 <= j < stack_before.len() && stack_before[j] == d;
                    assert(stack@[j] == d);
                }
                if path_before.contains(d) {
                    assert(path@.contains(d));
                }
            }
            assert(explored(maze@, path@, path_before.len() as int, visited@)) by {
                assert forall|k: int, n: (u32, u32)|
                    0 <= k < path_before.len() && maze@.in_bounds(n) && #[trigger] adjacent(
                        path@[k],
                        n,
                    ) implies visited@.contains(n) by {
                    assert(adjacent(path_before[k], n));
                }
            }
        }
        let mut ahead = select_neighbors(maze, &visited, x, y, false);
        if complexity.positive() && ahead.len() > 1 {
            let ghost listed = ahead@;
            rng.shuffle(&mut ahead);
            proof {
                assert forall|k: int| 0 <= k < ahead@.len() implies maze@.in_bounds(
                    #[trigger] ahead@[k],
                ) by {
                    assert(listed.contains(ahead@[k]));
                    let j = choose|j: int| 0 <= j < listed.len() && listed[j] == ahead@[k];
                    assert(maze@.in_bounds(listed[j]));
                }
                assert forall|n: (u32, u32)|
                    maze@.in_bounds(n) && #[trigger] adjacent((x, y), n) && !visited@.contains(
                        n,
                    ) implies ahead@.contains(n) by {
                    assert(listed.contains(n));
                    let j = choose|j: int| 0 <= j < listed.len() && listed[j] == n;
                    assert(ahead@.contains(listed[j]));
                }
            }
        }
        let ghost base = visited.room() + stack@.len();
        let ghost seen_before = visited@;
        let mut i: usize = 0;
        while i < ahead.len()
            invariant
                maze.wf(),
                maze@.width == width,
                maze@.height == height,
                visited.wf(),
                visited.cols() == width,
                visited.lines() == height,
                all_inside(stack@, width, height),
                0 <= i <= ahead@.len(),
                forall|k: int| 0 <= k < ahead@.len() ==> maze@.in_bounds(#[trigger] ahead@[k]),
                visited.room() + stack@.len() == base,
                sorted_out(path@, stack@, visited@),
                path@.len() + stack@.len() == visited.count(),
                forall|d: (u32, u32)| seen_before.contains(d) ==> visited@.contains(d),
                forall|k: int| 0 <= k < i ==> visited@.contains(#[trigger] ahead@[k]),
            decreases ahead@.len() - i,
        {
            let (nx, ny) = ahead[i];
            assert(maze@.in_bounds(ahead@[i as int]));
            let ghost stack_now = stack@;
            let ghost seen_now = visited@;
            if visited.insert(nx, ny) {
                stack.push((nx, ny));
                proof {
                    let n = (nx, ny);
                    crate::seqs::lemma_push_contains(stack_now, n);
                    assert(!stack_now.contains(n));
                    assert(!path@.contains(n));
                    assert forall|a: int, b: int|
                        0 <= a < path@.len() && 0 <= b < stack@.len() implies #[trigger] path@[a]
                        != #[trigger] stack@[b] by {
                        if b < stack_now.len() {
                            assert(path@[a] != stack_now[b]);
                        } else {
                            assert(path@.contains(path@[a]));
                        }
                    }
                    assert forall|d: (u32, u32)| #[trigger]
                        visited@.contains(d) <==> path@.contains(d) || stack@.contains(d) by {
                        assert(seen_now.contains(d) <==> path@.contains(d) || stack_now.contains(d));
                    }
                }
            }
            i += 1;
        }
        proof {
            assert forall|k: int, n: (u32, u32)|
                0 <= k < path@.len() && maze@.in_bounds(n) && #[trigger] adjacent(
                    path@[k],
                    n,
                ) implies visited@.contains(n) by {
                if k < path_before.len() {
                    assert(seen_before.contains(n));
                } else if !seen_before.contains(n) {
                    assert(ahead@.contains(n));
                    let t = choose|t: int| 0 <= t < ahead@.len() && ahead@[t] == n;
                    assert(visited@.contains(ahead@[t]));
                }
            }
        }
    }
    proof {
        assert(path@.contains(path@[0]));
        assert(closed(maze@, visited@)) by {
            assert forall|a: (u32, u32), b: (u32, u32)|
                visited@.contains(a) && maze@.in_bounds(a) && maze@.in_bounds(b)
                    && #[trigger] adjacent(a, b) implies visited@.contains(b) by {
                assert(path@.contains(a));
                let k = choose|k: int| 0 <= k < path@.len() && path@[k] == a;
                assert(adjacent(path@[k], b));
            }
        }
        lemma_closed_is_full(maze@, visited@, (0u32, 0u32));
        visited.lemma_full();
        assert forall|c: (u32, u32)| maze@.in_bounds(c) implies path@.contains(c) by {
            assert(visited@.contains(c));
        }
    }
    path
}

/// The step between `p` and `q` is the step from position `i` of `path`
/// to the next, taken either way.
pub open spec fn step_at(path: Seq<(u32, u32)>, i: int, p: (u32, u32), q: (u32, u32)) -> bool {
    0 <= i && i + 1 < path.len() && same_step(p, q, path[i], path[i + 1])
}

/// The step between `p` and `q` is one of the first `upto` steps of
/// `path`.
pub open spec fn along(path: Seq<(u32, u32)>, upto: int, p: (u32, u32), q: (u32, u32)) -> bool {
    exists|i: int| i < upto && #[trigger] step_at(path, i, p, q)
}

/// The first `upto` cells of `path`.
pub open spec fn trod(path: Seq<(u32, u32)>, upto: int) -> Set<(u32, u32)> {
    Set::new(|c: (u32, u32)| exists|j: int| 0 <= j < upto && #[trigger] path[j] == c)
}

/// `path` stays on the grid `g`, winds, and finds every wall of `g`
/// standing.
pub open spec fn breaks_ground(g: Grid, path: Seq<(u32, u32)>) -> bool {
    &&& path.len() >= 1
    &&& winds(path)
    &&& forall|j: int| 0 <= j < path.len() ==> g.in_bounds(#[trigger] path[j])
    &&& lonely(g, Set::empty())
}

/// Opens the wall between every two cells that follow each other in
/// `path`; where two such cells are not adjacent nothing happens. The
/// passages afterwards are those from before and the steps of the path
/// between adjacent cells of the grid. Along a winding path through a
/// grid with every wall standing there is one passage for every step, and
/// every cell of the path can be reached from the first.
fn carve_along(maze: &mut Maze, path: &Vec<(u32, u32)>)
    requires
        old(maze).wf(),
    ensures
        breaks_ground(old(maze)@, path@) ==> final(maze)@.passages().len() + 1 == path@.len()
            && forall|j: int|
            0 <= j < path@.len() ==> final(maze)@.connected(path@[0], #[trigger] path@[j]),
        final(maze).wf(),
        final(maze)@.width == old(maze)@.width,
        final(maze)@.height == old(maze)@.height,
        old(maze)@.passages_within(final(maze)@),
        forall|p: (u32, u32), q: (u32, u32)| #[trigger]
            final(maze)@.open_between(p, q) <==> old(maze)@.open_between(p, q) || (old(
                maze,
            )@.in_bounds(p) && old(maze)@.in_bounds(q) && adjacent(p, q) && along(
                path@,
                path@.len() - 1,
                p,
                q,
            )),
{
    let ghost fresh = breaks_ground(maze@, path@);
    proof {
        if fresh {
            lemma_walled_passages(maze@);
            lemma_connected_refl(maze@, path@[0]);
            assert(trod(path@, 1).contains(path@[0]));
            assert forall|c: (u32, u32)| #[trigger] trod(path@, 1).contains(c) implies maze@.connected(
                path@[0],
                c,
            ) by {
                let j = choose|j: int| 0 <= j < 1 && #[trigger] path@[j] == c;
            }
        }
    }
    if path.len() < 2 {
        proof {
            let top = path@.len() - 1;
            assert forall|p: (u32, u32), q: (u32, u32)| !#[trigger] along(path@, top, p, q) by {
                if along(path@, top, p, q) {
                    let i = choose|i: int| i < top && #[trigger] step_at(path@, i, p, q);
                }
            }
        }
        return ;
    }
    let mut i: usize = 0;
    proof {
        assert forall|p: (u32, u32), q: (u32, u32)| !#[trigger] along(path@, 0, p, q) by {
            if along(path@, 0, p, q) {
                let k = choose|k: int| k < 0 && #[trigger] step_at(path@, k, p, q);
            }
        }
    }
    while i < path.len() - 1
        invariant
            maze.wf(),
            old(maze).wf(),
            maze@.width == old(maze)@.width,
            maze@.height == old(maze)@.height,
            old(maze)@.passages_within(maze@),
            path@.len() >= 2,
            0 <= i <= path@.len() - 1,
            forall|p: (u32, u32), q: (u32, u32)| #[trigger]
                maze@.open_between(p, q) <==> old(maze)@.open_between(p, q) || (old(
                    maze,
                )@.in_bounds(p) && old(maze)@.in_bounds(q) && adjacent(p, q) && along(
                    path@,
                    i as int,
                    p,
                    q,
                )),
            fresh == breaks_ground(old(maze)@, path@),
            fresh ==> lonely(maze@, trod(path@, i + 1)) && maze@.passages().len() == i && rooted(
                maze@,
                trod(path@, i + 1),
                path@[0],
            ),
        decreases path@.len() - i,
    {
        let (x1, y1) = path[i];
        let (x2, y2) = path[i + 1];
        let ghost before = maze@;
        maze.remove_wall(x1, y1, x2, y2);
        proof {
            if fresh {
                let set = trod(path@, i + 1);
                assert(set.contains(path@[i as int]));
                assert(adjacent(path@[i as int], path@[i + 1]));
                if set.contains(path@[i + 1]) {
                    let j = choose|j: int| 0 <= j < i + 1 && #[trigger] path@[j] == path@[i + 1];
                    assert(path@[j] == path@[i + 1]);
                }
                lemma_tree_grows(before, maze@, set, (x1, y1), (x2, y2));
                lemma_rooted_grows(before, maze@, set, path@[0], (x1, y1), (x2, y2));
                assert(trod(path@, i + 2) =~= set.insert((x2, y2))) by {
                    assert forall|c: (u32, u32)| trod(path@, i + 2).contains(c) implies set.insert(
                        (x2, y2),
                    ).contains(c) by {
                        let j = choose|j: int| 0 <= j < i + 2 && #[trigger] path@[j] == c;
                        if j < i + 1 {
                            assert(set.contains(c));
                        }
                    }
                    assert forall|c: (u32, u32)| set.insert((x2, y2)).contains(c) implies trod(
                        path@,
                        i + 2,
                    ).contains(c) by {
                        if c == (x2, y2) {
                            assert(path@[i + 1] == c);
                        } else {
                            let j = choose|j: int| 0 <= j < i + 1 && #[trigger] path@[j] == c;
                            assert(path@[j] == c);
                        }
                    }
                }
            }
            lemma_carve(before, (x1, y1), (x2, y2));
            assert forall|p: (u32, u32), q: (u32, u32)| #[trigger]
                maze@.open_between(p, q) <==> old(maze)@.open_between(p, q) || (old(
                    maze,
                )@.in_bounds(p) && old(maze)@.in_bounds(q) && adjacent(p, q) && along(
                    path@,
                    i + 1,
                    p,
                    q,
                )) by {
                assert(before.open_between(p, q) <==> old(maze)@.open_between(p, q) || (old(
                    maze,
                )@.in_bounds(p) && old(maze)@.in_bounds(q) && adjacent(p, q) && along(
                    path@,
                    i as int,
                    p,
                    q,
                )));
                if along(path@, i as int, p, q) {
                    let k = choose|k: int| k < i && #[trigger] step_at(path@, k, p, q);
                    assert(step_at(path@, k, p, q));
                }
                if step_at(path@, i as int, p, q) {
                    assert(along(path@, i + 1, p, q));
                }
                if along(path@, i + 1, p, q) {
                    let k = choose|k: int| k < i + 1 && #[trigger] step_at(path@, k, p, q);
                    if k < i {
                        assert(along(path@, i as int, p, q));
                    }
                }
            }
        }
        i += 1;
    }
    proof {
        if fresh {
            assert forall|j: int| 0 <= j < path@.len() implies maze@.connected(
                path@[0],
                #[trigger] path@[j],
            ) by {
                assert(trod(path@, i + 1).contains(path@[j]));
            }
        }
    }
}

/// On a serpentine through every cell of the rectangle every cell has
/// its place.
proof fn lemma_serpentine_covers(path: Seq<(u32, u32)>, width: u32, height: u32, c: (u32, u32))
    requires
        serpentine(path, width, height),
        path.len() == width * height,
        c.0 < width,
        c.1 < height,
    ensures
        0 <= serpent_index(width, c) < path.len(),
        path[serpent_index(width, c)] == c,
{
    let s = serpent_index(width, c);
    lemma_serpent_row(width, c);
    assert(c.1 * width + width <= width * height) by (nonlinear_arith)
        requires
            c.1 + 1 <= height,
            0 <= width,
    ;
    assert(serpent_index(width, path[s]) == s);
    lemma_serpent_injective(width, path[s], c);
}

/// Raises the wall between two cells that follow each other in `path`
/// with the given probability, for every such pair. Only passages along
/// the path are closed: none at probability zero, all of them at
/// certainty.
fn break_along(maze: &mut Maze, path: &Vec<(u32, u32)>, millionths: u32, rng: &mut MazeRng)
    requires
        old(maze).wf(),
    ensures
        final(maze).wf(),
        final(maze)@.width == old(maze)@.width,
        final(maze)@.height == old(maze)@.height,
        final(maze)@.passages_within(old(maze)@),
        forall|p: (u32, u32), q: (u32, u32)| #[trigger]
            old(maze)@.open_between(p, q) && !final(maze)@.open_between(p, q) ==> along(
                path@,
                path@.len() - 1,
                p,
                q,
            ),
        millionths == 0 ==> final(maze)@ == old(maze)@,
        millionths >= 1_000_000 ==> forall|p: (u32, u32), q: (u32, u32)| #[trigger]
            final(maze)@.open_between(p, q) <==> old(maze)@.open_between(p, q) && !along(
                path@,
                path@.len() - 1,
                p,
                q,
            ),
{
    if path.len() < 2 {
        proof {
            let top = path@.len() - 1;
            assert forall|p: (u32, u32), q: (u32, u32)| !#[trigger] along(path@, top, p, q) by {
                if along(path@, top, p, q) {
                    let i = choose|i: int| i < top && #[trigger] step_at(path@, i, p, q);
                }
            }
        }
        return ;
    }
    let mut i: usize = 0;
    proof {
        assert forall|p: (u32, u32), q: (u32, u32)| !#[trigger] along(path@, 0, p, q) by {
            if along(path@, 0, p, q) {
                let k = choose|k: int| k < 0 && #[trigger] step_at(path@, k, p, q);
            }
        }
    }
    while i < path.len() - 1
        invariant
            maze.wf(),
            maze@.width == old(maze)@.width,
            maze@.height == old(maze)@.height,
            maze@.passages_within(old(maze)@),
            path@.len() >= 2,
            0 <= i <= path@.len() - 1,
            forall|p: (u32, u32), q: (u32, u32)| #[trigger]
                old(maze)@.open_between(p, q) && !maze@.open_between(p, q) ==> along(
                    path@,
                    i as int,
                    p,
                    q,
                ),
            millionths == 0 ==> maze@ == old(maze)@,
            millionths >= 1_000_000 ==> forall|p: (u32, u32), q: (u32, u32)| #[trigger]
                maze@.open_between(p, q) <==> old(maze)@.open_between(p, q) && !along(
                    path@,
                    i as int,
                    p,
                    q,
                ),
        decreases path@.len() - i,
    {
        let ghost before = maze@;
        let hit = rng.happens(millionths);
        if hit {
            let (x1, y1) = path[i];
            let (x2, y2) = path[i + 1];
            maze.add_wall(x1, y1, x2, y2);
            proof {
                lemma_wall_up(before, (x1, y1), (x2, y2));
            }
        }
        proof {
            assert forall|p: (u32, u32), q: (u32, u32)| #[trigger]
                old(maze)@.open_between(p, q) && !maze@.open_between(p, q) implies along(
                path@,
                i + 1,
                p,
                q,
            ) by {
                if !before.open_between(p, q) {
                    assert(along(path@, i as int, p, q));
                    let k = choose|k: int| k < i && #[trigger] step_at(path@, k, p, q);
                    assert(step_at(path@, k, p, q));
                } else {
                    assert(step_at(path@, i as int, p, q));
                }
            }
            if millionths >= 1_000_000 {
                assert forall|p: (u32, u32), q: (u32, u32)| #[trigger]
                    maze@.open_between(p, q) <==> old(maze)@.open_between(p, q) && !along(
                        path@,
                        i + 1,
                        p,
                        q,
                    ) by {
                    assert(before.open_between(p, q) <==> old(maze)@.open_between(p, q) && !along(
                        path@,
                        i as int,
                        p,
                        q,
                    ));
                    if along(path@, i as int, p, q) {
                        let k = choose|k: int| k < i && #[trigger] step_at(path@, k, p, q);
                        assert(step_at(path@, k, p, q));
                    }
                    if step_at(path@, i as int, p, q) {
                        assert(along(path@, i + 1, p, q));
                    }
                    if along(path@, i + 1, p, q) {
                        let k = choose|k: int| k < i + 1 && #[trigger] step_at(path@, k, p, q);
                        if k < i {
                            assert(along(path@, i as int, p, q));
                        }
                    }
                }
            }
        }
        i += 1;
    }
}

/// `path` lists every cell of the grid `carved` once, every passage of
/// `carved` is a step between two cells that follow each other in `path`,
/// and up to a complexity of 0.3 every such step between neighbours is a
/// passage.
pub open spec fn toured(carved: Grid, path: Seq<(u32, u32)>, complexity: Complexity) -> bool {
    &&& carved.wf()
    &&& path.no_duplicates()
    &&& path.len() == carved.width * carved.height
    &&& forall|j: int| 0 <= j < path.len() ==> carved.in_bounds(#[trigger] path[j])
    &&& forall|p: (u32, u32), q: (u32, u32)| #[trigger]
        carved.open_between(p, q) ==> along(path, path.len() - 1, p, q)
    &&& complexity.value() <= 300_000 ==> forall|p: (u32, u32), q: (u32, u32)|
        carved.in_bounds(p) && carved.in_bounds(q) && adjacent(p, q) && #[trigger] along(
            path,
            path.len() - 1,
            p,
            q,
        ) ==> carved.open_between(p, q)
}

impl MazeGenerator for Hamiltonian {
    /// There is a list of all cells, each once, such that the maze is the
    /// grid carved along that list, or its repair: every passage of that
    /// grid is a step between two cells that follow each other in the
    /// list, and up to a complexity of 0.3 every such step between
    /// neighbours is a passage. At complexity zero the passages are those
    /// of the serpentine and no others: a tree on all cells.
    open spec fn keeps(&self, maze: Grid, complexity: Complexity) -> bool {
        &&& exists|path: Seq<(u32, u32)>, carved: Grid| #[trigger]
            toured(carved, path, complexity) && mended(carved, maze)
        &&& complexity.value() == 0 ==> maze.perfect() && serpentine_maze(maze)
    }

    /// Searches for a path through every cell from the entry; where the
    /// search gives up, the order of a depth-first traversal is taken
    /// instead. The path is carved; above a complexity of 0.3 each of its
    /// passages is walled up again with probability
    /// `(complexity - 0.3) / 2`; connectivity repair follows.
    fn generate(&self, width: u32, height: u32, complexity: Complexity, seed: Option<u64>) -> (maze:
        Maze) {
        let mut maze = Maze::new(width, height);
        let mut rng = MazeRng::new(seed);
        let path = match hamiltonian_path(&maze, &mut rng, complexity) {
            Some(path) => path,
            None => traversal(&maze, &mut rng, complexity, width, height),
        };
        let ghost walled = maze@;
        carve_along(&mut maze, &path);
        proof {
            if complexity.value() == 0 {
                assert forall|c: (u32, u32)| walled.in_bounds(c) implies (#[trigger] walled.at(
                    c,
                )).wall_count() == 4 by {}
                assert(lonely(walled, Set::empty()));
                assert forall|j: int| 0 <= j < path@.len() implies walled.in_bounds(
                    #[trigger] path@[j],
                ) by {}
                assert(width * height >= 1) by (nonlinear_arith)
                    requires
                        width >= 1,
                        height >= 1,
                ;
                assert forall|c: (u32, u32)| maze@.in_bounds(c) implies #[trigger] maze@.connected(
                    maze@.entry(),
                    c,
                ) by {
                    lemma_serpentine_covers(path@, width, height, c);
                    lemma_serpentine_covers(path@, width, height, (0u32, 0u32));
                }
                lemma_spanning_solvable(maze@);
                let top = path@.len() - 1;
                assert forall|p: (u32, u32), q: (u32, u32)| #[trigger]
                    maze@.open_between(p, q) <==> maze@.in_bounds(p) && maze@.in_bounds(q)
                        && serpent_step(width, p, q) by {
                    assert(!walled.open_between(p, q)) by {
                        if walled.in_bounds(p) {
                            assert(walled.at(p).wall_count() == 4);
                        }
                    }
                    if along(path@, top, p, q) {
                        let i = choose|i: int| i < top && #[trigger] step_at(path@, i, p, q);
                        assert(serpent_index(width, path@[i]) == i);
                        assert(serpent_index(width, path@[i + 1]) == i + 1);
                    }
                    if maze@.in_bounds(p) && maze@.in_bounds(q) && serpent_step(width, p, q) {
                        lemma_serpentine_covers(path@, width, height, p);
                        lemma_serpentine_covers(path@, width, height, q);
                        let s = serpent_index(width, p);
                        let t = serpent_index(width, q);
                        let low = if s < t {
                            s
                        } else {
                            t
                        };
                        assert(adjacent(path@[low], path@[low + 1]));
                        assert(step_at(path@, low, p, q));
                        assert(along(path@, top, p, q));
                    }
                }
                assert(serpentine_maze(maze@));
            }
        }
        let ghost laid = maze@;
        let m = complexity.millionths();
        if m > 300_000 {
            break_along(&mut maze, &path, (m - 300_000) / 2, &mut rng);
        }
        let ghost carved = maze@;
        proof {
            let top = path@.len() - 1;
            assert forall|p: (u32, u32), q: (u32, u32)| #[trigger]
                carved.open_between(p, q) implies along(path@, top, p, q) by {
                assert(laid.open_between(p, q));
                assert(!walled.open_between(p, q)) by {
                    if walled.in_bounds(p) {
                        assert(walled.at(p).wall_count() == 4);
                    }
                }
            }
            assert(toured(carved, path@, complexity));
        }
        maze.ensure_connectivity();
        maze
    }
}

} // verus!
