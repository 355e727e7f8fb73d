//! Braiding: removing dead ends from a finished maze by opening one more
//! wall of each.

use vstd::prelude::*;
use vstd::set_lib::lemma_len_subset;
use crate::complexity::Complexity;
use crate::connectivity::row_major_before;
use crate::grid::{adjacent, lemma_carve_cells, lemma_cells_finite, Grid};
use crate::maze::Maze;
use crate::reach::{lemma_carve, lemma_connected_grows};
use crate::rng::MazeRng;

verus! {

/// The dead ends of the maze, row by row.
pub fn dead_ends(maze: &Maze) -> (list: Vec<(u32, u32)>)
    requires
        maze.wf(),
    ensures
        forall|c: (u32, u32)|
            #![trigger list@.contains(c)]
            #![trigger maze@.at(c)]
            list@.contains(c) <==> maze@.in_bounds(c) && maze@.at(c).is_dead_end(),
        forall|i: int, j: int|
            0 <= i < j < list@.len() ==> row_major_before(list@[i], list@[j]),
        list@.no_duplicates(),
{
    let width = maze.width();
    let height = maze.height();
    let mut list: Vec<(u32, u32)> = Vec::new();
    let mut y: u32 = 0;
    while y < height
        invariant
            maze.wf(),
            width == maze@.width,
            height == maze@.height,
            0 <= y <= height,
            forall|c: (u32, u32)|
                #![trigger list@.contains(c)]
                #![trigger maze@.at(c)]
                list@.contains(c) <==> maze@.in_bounds(c) && maze@.at(c).is_dead_end() && c.1 < y,
            forall|i: int, j: int|
                0 <= i < j < list@.len() ==> row_major_before(list@[i], list@[j]),
            list@.no_duplicates(),
        decreases height - y,
    {
        let mut x: u32 = 0;
        while x < width
            invariant
                maze.wf(),
                width == maze@.width,
                height == maze@.height,
                0 <= y < height,
                0 <= x <= width,
                forall|c: (u32, u32)|
                    #![trigger list@.contains(c)]
                    #![trigger maze@.at(c)]
                    list@.contains(c) <==> maze@.in_bounds(c) && maze@.at(c).is_dead_end() && (c.1
                        < y || (c.1 == y && c.0 < x)),
                forall|i: int, j: int|
                    0 <= i < j < list@.len() ==> row_major_before(list@[i], list@[j]),
                list@.no_duplicates(),
            decreases width - x,
        {
            if let Some(cell) = maze.get_cell(x, y) {
                let mut walls: u8 = 0;
                if cell.north {
                    walls += 1;
                }
                if cell.south {
                    walls += 1;
                }
                if cell.east {
                    walls += 1;
                }
                if cell.west {
                    walls += 1;
                }
                assert(walls == maze@.at((x, y)).wall_count());
                if walls == 3 {
                    let ghost before = list@;
                    list.push((x, y));
                    proof {
                        crate::seqs::lemma_push_contains(before, (x, y));
                        assert(!before.contains((x, y)));
                        assert forall|i: int, j: int| 0 <= i < j < list@.len() implies row_major_before(
                            list@[i],
                            list@[j],
                        ) by {
                            if j == before.len() {
                                assert(before.contains(before[i]));
                            }
                        }
                    }
                }
            }
            x += 1;
        }
        y += 1;
    }
    list
}

/// How many walls braiding may open: the share `complexity` of the dead
/// ends of the grid, rounded down.
pub open spec fn opened_at_most(g: Grid, complexity: Complexity) -> nat {
    (complexity.value() * g.dead_ends().len()) / 1_000_000
}

/// One of the two cells is a dead end of the grid.
pub open spec fn beside_dead_end(g: Grid, a: (u32, u32), b: (u32, u32)) -> bool {
    g.dead_ends().contains(a) || g.dead_ends().contains(b)
}

/// No wall of the cell at `c` stands between it and another cell of the
/// grid.
pub open spec fn walled_in(g: Grid, c: (u32, u32)) -> bool {
    forall|n: (u32, u32)| g.in_bounds(n) && #[trigger] adjacent(c, n) ==> !g.facing(c, n)
}

/// The cell at `c` has lost its dead end: two walls at most still stand,
/// or none of those standing could be removed.
pub open spec fn relieved(g: Grid, c: (u32, u32)) -> bool {
    g.at(c).wall_count() <= 2 || walled_in(g, c)
}

/// `after` is `before` braided through the dead ends `chosen`: they are as
/// many dead ends of `before` as the complexity asks for, each taken once,
/// and each is relieved in `after`.
pub open spec fn braided(before: Grid, after: Grid, chosen: Seq<(u32, u32)>, complexity: Complexity) -> bool {
    &&& chosen.no_duplicates()
    &&& chosen.len() == opened_at_most(before, complexity)
    &&& forall|i: int|
        0 <= i < chosen.len() ==> before.dead_ends().contains(#[trigger] chosen[i]) && relieved(
            after,
            chosen[i],
        )
}

/// A relieved cell stays relieved when another wall is removed.
proof fn lemma_relieved_kept(g: Grid, a: (u32, u32), b: (u32, u32), c: (u32, u32))
    requires
        g.wf(),
        g.in_bounds(a),
        g.in_bounds(b),
        adjacent(a, b),
        g.in_bounds(c),
        relieved(g, c),
    ensures
        relieved(g.carve(a, b), c),
{
    let h = g.carve(a, b);
    lemma_carve_cells(g, a, b);
    lemma_carve(g, a, b);
    if walled_in(g, c) {
        assert forall|n: (u32, u32)| h.in_bounds(n) && #[trigger] adjacent(c, n) implies !h.facing(
            c,
            n,
        ) by {
            assert(g.open_between(c, n));
            assert(h.open_between(c, n));
        }
    } else {
        if c != a && c != b {
            assert(h.at(c) == g.at(c));
        }
    }
}

/// The cells of `list` at the positions from `from` up to `to`.
pub open spec fn waiting(list: Seq<(u32, u32)>, from: int, to: int) -> Set<(u32, u32)> {
    Set::new(|c: (u32, u32)| exists|j: int| from <= j < to && #[trigger] list[j] == c)
}

/// One step of braiding does not raise the number of cells that are dead
/// ends or still wait for their turn: the cell whose turn it is leaves
/// that number when one of its walls goes, and only the cell behind that
/// wall can join it.
proof fn lemma_braid_step(
    g: Grid,
    h: Grid,
    list: Seq<(u32, u32)>,
    i: int,
    to: int,
    opened: Option<(u32, u32)>,
)
    requires
        g.wf(),
        0 <= i < to <= list.len(),
        list.no_duplicates(),
        forall|j: int| 0 <= j < list.len() ==> g.in_bounds(#[trigger] list[j]),
        g.at(list[i]).wall_count() <= 3,
        opened is None ==> h == g,
        opened matches Some(n) ==> g.in_bounds(n) && adjacent(list[i], n) && g.facing(list[i], n)
            && h == g.carve(list[i], n),
    ensures
        (h.dead_ends() + waiting(list, i + 1, to)).len() <= (g.dead_ends() + waiting(
            list,
            i,
            to,
        )).len(),
{
    broadcast use vstd::set::group_set_axioms;

    let x = list[i];
    let before = g.dead_ends() + waiting(list, i, to);
    let after = h.dead_ends() + waiting(list, i + 1, to);
    lemma_cells_finite(g);
    assert(before.subset_of(g.cells()));
    lemma_len_subset(before, g.cells());
    assert(waiting(list, i, to).contains(x));
    assert(before.contains(x));
    match opened {
        None => {
            assert(after.subset_of(before));
            lemma_len_subset(after, before);
        },
        Some(n) => {
            lemma_carve_cells(g, x, n);
            lemma_carve(g, x, n);
            let bound = before.remove(x).insert(n);
            assert forall|c: (u32, u32)| after.contains(c) implies bound.contains(c) by {
                if waiting(list, i + 1, to).contains(c) {
                    let j = choose|j: int| i + 1 <= j < to && #[trigger] list[j] == c;
                    assert(waiting(list, i, to).contains(c));
                } else if c != n {
                    assert(h.at(c) == g.at(c));
                }
            }
            assert(after.subset_of(bound));
            lemma_len_subset(after, bound);
        },
    }
}

/// A solvable maze stays solvable when walls are only removed, as braiding
/// does.
pub proof fn lemma_opening_keeps_solvable(before: Grid, after: Grid)
    requires
        before.width == after.width,
        before.height == after.height,
        before.passages_within(after),
        before.solvable(),
    ensures
        after.solvable(),
{
    lemma_connected_grows(before, after, before.entry(), before.exit());
}

/// Braids the maze with a random source seeded from system entropy (see
/// `braid_with`).
pub fn braid_maze(maze: &mut Maze, complexity: Complexity)
    requires
        old(maze).wf(),
    ensures
        final(maze).wf(),
        final(maze)@.width == old(maze)@.width,
        final(maze)@.height == old(maze)@.height,
        old(maze)@.passages_within(final(maze)@),
        old(maze)@.solvable() ==> final(maze)@.solvable(),
        final(maze)@.dead_ends().len() <= old(maze)@.dead_ends().len(),
        final(maze)@.passages().len() <= old(maze)@.passages().len() + opened_at_most(
            old(maze)@,
            complexity,
        ),
        forall|a: (u32, u32), b: (u32, u32)| #[trigger]
            final(maze)@.open_between(a, b) && !old(maze)@.open_between(a, b) ==> beside_dead_end(
                old(maze)@,
                a,
                b,
            ),
        complexity.value() == 0 ==> final(maze)@ == old(maze)@,
        exists|chosen: Seq<(u32, u32)>| #[trigger] braided(old(maze)@, final(maze)@, chosen, complexity),
{
    let mut rng = MazeRng::new(None);
    braid_with(maze, complexity, &mut rng);
}

/// Braids the maze: the dead ends are listed and shuffled, and for the
/// first `floor(complexity * count)` of them one standing wall that has a
/// cell of the grid behind it is chosen at random and removed. Walls are
/// only ever removed, so what was connected stays connected, and the
/// number of dead ends does not grow.
pub fn braid_with(maze: &mut Maze, complexity: Complexity, rng: &mut MazeRng)
    requires
        old(maze).wf(),
    ensures
        final(maze).wf(),
        final(maze)@.width == old(maze)@.width,
        final(maze)@.height == old(maze)@.height,
        old(maze)@.passages_within(final(maze)@),
        old(maze)@.solvable() ==> final(maze)@.solvable(),
        final(maze)@.dead_ends().len() <= old(maze)@.dead_ends().len(),
        final(maze)@.passages().len() <= old(maze)@.passages().len() + opened_at_most(
            old(maze)@,
            complexity,
        ),
        forall|a: (u32, u32), b: (u32, u32)| #[trigger]
            final(maze)@.open_between(a, b) && !old(maze)@.open_between(a, b) ==> beside_dead_end(
                old(maze)@,
                a,
                b,
            ),
        complexity.value() == 0 ==> final(maze)@ == old(maze)@,
        exists|chosen: Seq<(u32, u32)>| #[trigger] braided(old(maze)@, final(maze)@, chosen, complexity),
{
    let width = maze.width();
    let height = maze.height();
    let ghost start = maze@;
    let mut ends = dead_ends(maze);
    let ghost listed = ends@;
    rng.shuffle(&mut ends);
    let remove_count = complexity.portion(ends.len() as u64);
    assert(complexity.value() == 0 ==> remove_count == 0) by {
        assert(0 * ends@.len() == 0);
    }
    let ghost total: int = if ends@.len() <= remove_count {
        ends@.len() as int
    } else {
        remove_count as int
    };
    proof {
        broadcast use vstd::set::group_set_axioms;

        listed.unique_seq_to_set();
        assert(listed.to_set() =~= start.dead_ends());
        crate::grid::lemma_passages_finite(start);
        listed.lemma_multiset_has_no_duplicates();
        ends@.lemma_multiset_has_no_duplicates_conv();
        assert forall|j: int| 0 <= j < ends@.len() implies start.in_bounds(#[trigger] ends@[j])
            && start.at(ends@[j]).wall_count() <= 3 && start.dead_ends().contains(ends@[j]) by {
            assert(listed.contains(ends@[j]));
        }
        assert(start.dead_ends() + waiting(ends@, 0, total) =~= start.dead_ends()) by {
            assert forall|c: (u32, u32)| waiting(ends@, 0, total).contains(c) implies start.dead_ends().contains(
                c,
            ) by {
                let j = choose|j: int| 0 <= j < total && #[trigger] ends@[j] == c;
                assert(listed.contains(ends@[j]));
            }
        }
    }
    let mut i: usize = 0;
    while i < ends.len() && (i as u64) < remove_count
        invariant
            maze.wf(),
            maze@.width == width,
            maze@.height == height,
            maze@.width == start.width,
            maze@.height == start.height,
            start.passages_within(maze@),
            ends@.no_duplicates(),
            forall|j: int|
                0 <= j < ends@.len() ==> maze@.in_bounds(#[trigger] ends@[j]) && maze@.at(
                    ends@[j],
                ).wall_count() <= 3,
            0 <= i <= total,
            total <= ends@.len(),
            total <= remove_count,
            total == ends@.len() || total == remove_count,
            remove_count == 0 ==> maze@ == start,
            remove_count == (complexity.value() * start.dead_ends().len()) / 1_000_000,
            maze@.passages().finite(),
            maze@.passages().len() <= start.passages().len() + i,
            forall|j: int| 0 <= j < ends@.len() ==> start.dead_ends().contains(#[trigger] ends@[j]),
            forall|a: (u32, u32), b: (u32, u32)| #[trigger]
                maze@.open_between(a, b) && !start.open_between(a, b) ==> start.dead_ends().contains(
                    a,
                ) || start.dead_ends().contains(b),
            (maze@.dead_ends() + waiting(ends@, i as int, total)).len() <= start.dead_ends().len(),
            forall|j: int| 0 <= j < i ==> relieved(maze@, #[trigger] ends@[j]),
        decreases ends@.len() - i,
    {
        let (x, y) = ends[i];
        let ghost before = maze@;
        let ghost opened: Option<(u32, u32)> = None;
        if let Some(cell) = maze.get_cell(x, y) {
            let mut candidates: Vec<(u32, u32)> = Vec::new();
            if cell.north && y > 0 {
                candidates.push((x, y - 1));
            }
            if cell.south && y < height - 1 {
                candidates.push((x, y + 1));
            }
            if cell.east && x < width - 1 {
                candidates.push((x + 1, y));
            }
            if cell.west && x > 0 {
                candidates.push((x - 1, y));
            }
            assert forall|k: int| 0 <= k < candidates@.len() implies before.in_bounds(
                #[trigger] candidates@[k],
            ) && adjacent((x, y), candidates@[k]) && before.facing((x, y), candidates@[k]) by {}
            if candidates.len() > 0 {
                let target = candidates[rng.below(candidates.len())];
                proof {
                    crate::grid::lemma_carve_passages(before, (x, y), target);
                    lemma_carve(before, (x, y), target);
                }
                maze.remove_wall(x, y, target.0, target.1);
                proof {
                    opened = Some(target);
                }
            }
        }
        proof {
            lemma_braid_step(before, maze@, ends@, i as int, total, opened);
            if opened is None {
                assert(before.cell_ok((x, y)));
                assert forall|n: (u32, u32)|
                    before.in_bounds(n) && #[trigger] adjacent((x, y), n) implies !before.facing(
                    (x, y),
                    n,
                ) by {}
                assert(relieved(maze@, ends@[i as int]));
            }
            if opened is Some {
                let n = opened->Some_0;
                lemma_carve_cells(before, (x, y), n);
                assert forall|j: int| 0 <= j < i + 1 implies relieved(maze@, #[trigger] ends@[j]) by {
                    if j < i {
                        lemma_relieved_kept(before, (x, y), n, ends@[j]);
                    }
                }
                assert forall|j: int| 0 <= j < ends@.len() implies maze@.in_bounds(
                    #[trigger] ends@[j],
                ) && maze@.at(ends@[j]).wall_count() <= 3 by {
                    assert(before.at(ends@[j]).wall_count() <= 3);
                    if ends@[j] != (x, y) && ends@[j] != n {
                        assert(maze@.at(ends@[j]) == before.at(ends@[j]));
                    }
                }
            }
        }
        i += 1;
    }
    proof {
        assert(waiting(ends@, total, total) =~= Set::empty());
        assert(maze@.dead_ends() + waiting(ends@, total, total) =~= maze@.dead_ends());
        if start.solvable() {
            lemma_opening_keeps_solvable(start, maze@);
        }
        let chosen = ends@.subrange(0, total);
        assert(ends@.len() == start.dead_ends().len());
        assert(remove_count <= ends@.len());
        assert(braided(start, maze@, chosen, complexity));
    }
}

} // verus!
