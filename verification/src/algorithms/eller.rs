//! Eller's algorithm: the maze is built one row at a time, with a set for
//! every group of cells that are already joined.

use vstd::prelude::*;
use crate::algorithms::{
    cell_count, cell_index, index_of, lemma_fresh_joined, lemma_index_bound,
    lemma_same_roots_joined, lemma_union_joined, sets_joined, valid_size, MazeGenerator,
};
use crate::complexity::Complexity;
use crate::grid::Grid;
use crate::maze::Maze;
use crate::reach::{
    lemma_carve, lemma_connected_bounds, lemma_connected_grows, lemma_connected_refl,
    lemma_connected_step, lemma_connected_trans,
};
use crate::rng::MazeRng;
use crate::union_find::{lemma_roots_keep_sets, lemma_union_merges, UnionFind};

verus! {

/// Eller's algorithm, which builds the maze row by row.
pub struct Eller;

/// The cell at `c` has a way to some cell of the row below.
pub open spec fn sinks(g: Grid, c: (u32, u32)) -> bool {
    exists|x: u32| #[trigger] g.connected(c, (x, (c.1 + 1) as u32))
}

/// Every cell above the last row has a way to the row below.
pub open spec fn all_sink(g: Grid) -> bool {
    forall|c: (u32, u32)| g.in_bounds(c) && c.1 + 1 < g.height ==> #[trigger] sinks(g, c)
}

/// The cell at `c` has a way to some cell of the last row.
pub open spec fn grounded(g: Grid, c: (u32, u32)) -> bool {
    exists|x: u32| #[trigger] g.connected(c, (x, (g.height - 1) as u32))
}

/// Where every cell has a way to the row below, every cell has a way to
/// the last row.
pub proof fn lemma_sinking_grounds(g: Grid, c: (u32, u32))
    requires
        g.wf(),
        all_sink(g),
        g.in_bounds(c),
    ensures
        grounded(g, c),
    decreases g.height - c.1,
{
    if c.1 + 1 == g.height {
        lemma_connected_refl(g, c);
        assert(g.connected(c, (c.0, (g.height - 1) as u32)));
    } else {
        assert(sinks(g, c));
        let x = choose|x: u32| #[trigger] g.connected(c, (x, (c.1 + 1) as u32));
        let below = (x, (c.1 + 1) as u32);
        lemma_connected_bounds(g, c, below);
        lemma_sinking_grounds(g, below);
        let last = choose|last: u32| #[trigger] g.connected(below, (last, (g.height - 1) as u32));
        lemma_connected_trans(g, c, below, (last, (g.height - 1) as u32));
    }
}

/// Ways to the row below stay when passages are only added.
proof fn lemma_sinks_kept(g: Grid, h: Grid, c: (u32, u32))
    requires
        g.width == h.width,
        g.height == h.height,
        g.passages_within(h),
        sinks(g, c),
    ensures
        sinks(h, c),
{
    let x = choose|x: u32| #[trigger] g.connected(c, (x, (c.1 + 1) as u32));
    lemma_connected_grows(g, h, c, (x, (c.1 + 1) as u32));
}

/// The cell in column `x` of row `y` and its eastern neighbour are in one
/// set.
pub open spec fn paired(sets: &UnionFind, width: u32, x: u32, y: u32) -> bool {
    sets.same_set(index_of(width, (x, y)), index_of(width, ((x + 1) as u32, y)))
}

/// A passage between `p` and `q` that the merging of row `y` may open: the
/// two lie in that row and were in different sets, and below a complexity
/// of a tenth the western one stands in an even column.
pub open spec fn row_link(
    sets: &UnionFind,
    width: u32,
    y: u32,
    complexity: Complexity,
    p: (u32, u32),
    q: (u32, u32),
) -> bool {
    &&& p.1 == y
    &&& q.1 == y
    &&& !sets.same_set(index_of(width, p), index_of(width, q))
    &&& complexity.value() < 100_000 ==> (if p.0 < q.0 {
        p.0
    } else {
        q.0
    }) % 2 == 0
}

/// Joins neighbouring cells of row `y` that are in different sets: every
/// other pair below a complexity of a tenth, and each pair with
/// probability `0.3 + 0.4 * complexity` otherwise. Passages are opened in
/// row `y` only and only between cells that were in different sets, sets
/// are only merged, and below a complexity of a tenth every cell in an
/// even column is in one set with its eastern neighbour.
fn merge_row(
    maze: &mut Maze,
    sets: &mut UnionFind,
    rng: &mut MazeRng,
    complexity: Complexity,
    y: u32,
    width: u32,
    height: u32,
)
    requires
        valid_size(width, height),
        y < height,
        old(maze).wf(),
        old(maze)@.width == width,
        old(maze)@.height == height,
        old(sets).wf(),
        old(sets).len() == width * height,
        sets_joined(old(maze)@, &*old(sets), width),
    ensures
        final(maze).wf(),
        final(maze)@.width == width,
        final(maze)@.height == height,
        old(maze)@.passages_within(final(maze)@),
        final(sets).wf(),
        final(sets).len() == width * height,
        sets_joined(final(maze)@, &*final(sets), width),
        forall|p: (u32, u32), q: (u32, u32)| #[trigger]
            final(maze)@.open_between(p, q) && !old(maze)@.open_between(p, q) ==> row_link(
                &*old(sets),
                width,
                y,
                complexity,
                p,
                q,
            ),
        forall|i: int, j: int|
            0 <= i < old(sets).len() && 0 <= j < old(sets).len() && old(sets).same_set(i, j)
                ==> #[trigger] final(sets).same_set(i, j),
        complexity.value() < 100_000 ==> forall|x: u32|
            x % 2 == 0 && x + 1 < width ==> #[trigger] paired(&*final(sets), width, x, y),
{
    let merge_chance = complexity.scaled(300_000, 400_000);
    let mut x: u32 = 0;
    while x < width - 1
        invariant
            valid_size(width, height),
            y < height,
            maze.wf(),
            maze@.width == width,
            maze@.height == height,
            old(maze)@.passages_within(maze@),
            sets.wf(),
            sets.len() == width * height,
            old(sets).len() == width * height,
            sets_joined(maze@, &*sets, width),
            0 <= x <= width - 1,
            forall|p: (u32, u32), q: (u32, u32)| #[trigger]
                maze@.open_between(p, q) && !old(maze)@.open_between(p, q) ==> row_link(
                    &*old(sets),
                    width,
                    y,
                    complexity,
                    p,
                    q,
                ),
            forall|i: int, j: int|
                0 <= i < old(sets).len() && 0 <= j < old(sets).len() && old(sets).same_set(i, j)
                    ==> #[trigger] sets.same_set(i, j),
            complexity.value() < 100_000 ==> forall|k: u32|
                k % 2 == 0 && k < x ==> #[trigger] paired(&*sets, width, k, y),
        decreases width - 1 - x,
    {
        let left = cell_index(width, height, x, y);
        let right = cell_index(width, height, x + 1, y);
        let ghost grid_before = maze@;
        let ghost sets_start = *sets;
        let left_set = sets.find(left);
        let right_set = sets.find(right);
        let ghost sets_found = *sets;
        proof {
            lemma_same_roots_joined(grid_before, &sets_start, &sets_found, width, height);
            lemma_roots_keep_sets(&sets_start, &sets_found);
        }
        let merge = if complexity.below(100_000) {
            x % 2 == 0
        } else {
            rng.happens(merge_chance)
        };
        if merge && left_set != right_set {
            maze.remove_wall(x, y, x + 1, y);
            sets.union(left, right);
            proof {
                let a = (x, y);
                let b = ((x + 1) as u32, y);
                lemma_carve(grid_before, a, b);
                lemma_connected_refl(maze@, a);
                lemma_connected_step(maze@, a, a, b);
                lemma_union_joined(grid_before, maze@, &sets_found, &*sets, width, height, a, b);
                lemma_union_merges(&sets_found, &*sets, left as int, right as int);
                lemma_index_bound(width, height, a);
                lemma_index_bound(width, height, b);
                assert(!sets_found.same_set(left as int, right as int));
                assert(!sets_start.same_set(left as int, right as int));
                assert(!old(sets).same_set(left as int, right as int));
                assert(!old(sets).same_set(right as int, left as int));
                assert(row_link(&*old(sets), width, y, complexity, a, b));
                assert(row_link(&*old(sets), width, y, complexity, b, a));
            }
        }
        proof {
            assert forall|i: int, j: int|
                0 <= i < old(sets).len() && 0 <= j < old(sets).len() && old(sets).same_set(
                    i,
                    j,
                ) implies #[trigger] sets.same_set(i, j) by {
                assert(sets_start.same_set(i, j));
                assert(sets_found.same_set(i, j));
            }
            if complexity.value() < 100_000 {
                assert forall|k: u32| k % 2 == 0 && k < x + 1 implies #[trigger] paired(
                    &*sets,
                    width,
                    k,
                    y,
                ) by {
                    lemma_index_bound(width, height, (k, y));
                    lemma_index_bound(width, height, ((k + 1) as u32, y));
                    if k < x {
                        assert(paired(&sets_start, width, k, y));
                        assert(sets_found.same_set(
                            index_of(width, (k, y)),
                            index_of(width, ((k + 1) as u32, y)),
                        ));
                    } else {
                        assert(sets_found.root(left as int) == left_set);
                        assert(sets_found.root(right as int) == right_set);
                    }
                }
            }
        }
        x += 1;
    }
}

/// How many cells of a set of `len` cells are linked downward: one below a
/// complexity of a tenth; otherwise one, and one more with probability
/// equal to the complexity for each further cell, so that all are linked
/// at a complexity of one.
fn links_for(rng: &mut MazeRng, len: usize, complexity: Complexity) -> (count: usize)
    requires
        len >= 1,
    ensures
        1 <= count <= len,
        complexity.value() < 100_000 ==> count == 1,
        complexity.value() == 1_000_000 ==> count == len,
{
    if complexity.below(100_000) {
        1
    } else {
        let mut count: usize = 1;
        let mut i: usize = 1;
        while i < len
            invariant
                1 <= i <= len,
                1 <= count <= i,
                complexity.value() == 1_000_000 ==> count == i,
            decreases len - i,
        {
            if rng.happens(complexity.millionths()) {
                count += 1;
            }
            i += 1;
        }
        count
    }
}

/// The representative of the set of every cell of row `y`.
fn row_roots(sets: &mut UnionFind, y: u32, width: u32, height: u32) -> (roots: Vec<usize>)
    requires
        valid_size(width, height),
        y < height,
        old(sets).wf(),
        old(sets).len() == width * height,
    ensures
        final(sets).wf(),
        final(sets).len() == width * height,
        forall|i: int| 0 <= i < old(sets).len() ==> final(sets).root(i) == old(sets).root(i),
        roots@.len() == width,
        forall|x: int|
            0 <= x < width ==> #[trigger] roots@[x] == old(sets).root(
                index_of(width, (x as u32, y)),
            ),
{
    let mut roots: Vec<usize> = Vec::new();
    let mut x: u32 = 0;
    while x < width
        invariant
            valid_size(width, height),
            y < height,
            sets.wf(),
            sets.len() == width * height,
            old(sets).len() == width * height,
            forall|i: int| 0 <= i < old(sets).len() ==> sets.root(i) == old(sets).root(i),
            0 <= x <= width,
            roots@.len() == x,
            forall|j: int|
                0 <= j < x ==> #[trigger] roots@[j] == old(sets).root(
                    index_of(width, (j as u32, y)),
                ),
        decreases width - x,
    {
        let at = cell_index(width, height, x, y);
        let ghost before = *sets;
        let root = sets.find(at);
        assert(root == old(sets).root(index_of(width, (x, y))));
        assert forall|i: int| 0 <= i < old(sets).len() implies sets.root(i) == old(sets).root(i) by {
            assert(sets.root(i) == before.root(i));
        }
        roots.push(root);
        x += 1;
    }
    roots
}

/// Opens the first `count` cells of `cells`, all of row `y`, toward the
/// south and joins each to the cell below.
fn link_cells(
    maze: &mut Maze,
    sets: &mut UnionFind,
    cells: &Vec<u32>,
    count: usize,
    y: u32,
    width: u32,
    height: u32,
)
    requires
        valid_size(width, height),
        y + 1 < height,
        old(maze).wf(),
        old(maze)@.width == width,
        old(maze)@.height == height,
        old(sets).wf(),
        old(sets).len() == width * height,
        sets_joined(old(maze)@, &*old(sets), width),
        1 <= count <= cells@.len(),
        forall|k: int| 0 <= k < cells@.len() ==> #[trigger] cells@[k] < width,
    ensures
        final(maze).wf(),
        final(maze)@.width == width,
        final(maze)@.height == height,
        old(maze)@.passages_within(final(maze)@),
        final(sets).wf(),
        final(sets).len() == width * height,
        sets_joined(final(maze)@, &*final(sets), width),
        final(maze)@.open_between((cells@[0], y), (cells@[0], (y + 1) as u32)),
{
    let mut i: usize = 0;
    while i < count
        invariant
            valid_size(width, height),
            y + 1 < height,
            maze.wf(),
            maze@.width == width,
            maze@.height == height,
            old(maze)@.passages_within(maze@),
            sets.wf(),
            sets.len() == width * height,
            sets_joined(maze@, &*sets, width),
            0 <= i <= count <= cells@.len(),
            forall|k: int| 0 <= k < cells@.len() ==> #[trigger] cells@[k] < width,
            i >= 1 ==> maze@.open_between((cells@[0], y), (cells@[0], (y + 1) as u32)),
        decreases count - i,
    {
        let x = cells[i];
        let upper = cell_index(width, height, x, y);
        let lower = cell_index(width, height, x, y + 1);
        let ghost grid_before = maze@;
        let ghost sets_before = *sets;
        maze.remove_wall(x, y, x, y + 1);
        sets.union(upper, lower);
        proof {
            let a = (x, y);
            let b = (x, (y + 1) as u32);
            lemma_carve(grid_before, a, b);
            lemma_connected_refl(maze@, a);
            lemma_connected_step(maze@, a, a, b);
            lemma_union_joined(grid_before, maze@, &sets_before, &*sets, width, height, a, b);
        }
        i += 1;
    }
}

/// Links every set of row `y` to the row below. The sets are taken in the
/// order in which their first cell stands in the row; the cells of a set
/// are shuffled when the complexity is above zero, and the first few are
/// opened toward the south. Every cell of the row then has a way to the
/// row below.
fn link_down(
    maze: &mut Maze,
    sets: &mut UnionFind,
    rng: &mut MazeRng,
    complexity: Complexity,
    y: u32,
    width: u32,
    height: u32,
)
    requires
        valid_size(width, height),
        y + 1 < height,
        old(maze).wf(),
        old(maze)@.width == width,
        old(maze)@.height == height,
        old(sets).wf(),
        old(sets).len() == width * height,
        sets_joined(old(maze)@, &*old(sets), width),
    ensures
        final(maze).wf(),
        final(maze)@.width == width,
        final(maze)@.height == height,
        old(maze)@.passages_within(final(maze)@),
        final(sets).wf(),
        final(sets).len() == width * height,
        sets_joined(final(maze)@, &*final(sets), width),
        forall|x: u32| x < width ==> #[trigger] sinks(final(maze)@, (x, y)),
{
    let ghost start = maze@;
    let ghost base = *sets;
    let roots = row_roots(sets, y, width, height);
    proof {
        lemma_same_roots_joined(start, &base, &*sets, width, height);
    }
    let mut handled: Vec<bool> = Vec::new();
    let mut x: u32 = 0;
    while x < width
        invariant
            0 <= x <= width,
            handled@.len() == x,
            forall|j: int| 0 <= j < x ==> !#[trigger] handled@[j],
        decreases width - x,
    {
        handled.push(false);
        x += 1;
    }
    let mut first: u32 = 0;
    while first < width
        invariant
            valid_size(width, height),
            y + 1 < height,
            start.wf(),
            start.width == width,
            start.height == height,
            base.len() == width * height,
            sets_joined(start, &base, width),
            maze.wf(),
            maze@.width == width,
            maze@.height == height,
            start.passages_within(maze@),
            sets.wf(),
            sets.len() == width * height,
            sets_joined(maze@, &*sets, width),
            0 <= first <= width,
            roots@.len() == width,
            forall|j: int|
                0 <= j < width ==> #[trigger] roots@[j] == base.root(index_of(width, (j as u32, y))),
            handled@.len() == width,
            forall|j: int| 0 <= j < first ==> #[trigger] handled@[j],
            forall|j: int| 0 <= j < width && #[trigger] handled@[j] ==> sinks(maze@, (j as u32, y)),
        decreases width - first,
    {
        if !handled[first as usize] {
            let ghost before = maze@;
            let ghost marked = handled@;
            let mut cells: Vec<u32> = Vec::new();
            let mut x: u32 = first;
            while x < width
                invariant
                    first <= x <= width,
                    roots@.len() == width,
                    handled@.len() == width,
                    marked.len() == width,
                    forall|k: int|
                        0 <= k < cells@.len() ==> #[trigger] cells@[k] < width && roots@[cells@[k] as int]
                            == roots@[first as int],
                    forall|j: int|
                        0 <= j < width && #[trigger] handled@[j] ==> marked[j] || cells@.contains(
                            j as u32,
                        ),
                    forall|j: int| 0 <= j < width && marked[j] ==> #[trigger] handled@[j],
                    x > first ==> cells@.len() >= 1 && handled@[first as int],
                decreases width - x,
            {
                if roots[x as usize] == roots[first as usize] {
                    let ghost listed = cells@;
                    cells.push(x);
                    handled[x as usize] = true;
                    proof {
                        crate::seqs::lemma_push_contains(listed, x);
                    }
                }
                x += 1;
            }
            let count = links_for(rng, cells.len(), complexity);
            let ghost listed = cells@;
            if complexity.positive() {
                rng.shuffle(&mut cells);
                proof {
                    assert forall|k: int| 0 <= k < cells@.len() implies #[trigger] cells@[k]
                        < width && roots@[cells@[k] as int] == roots@[first as int] by {
                        assert(listed.contains(cells@[k]));
                    }
                }
            }
            link_cells(maze, sets, &cells, count, y, width, height);
            proof {
                let anchor = (cells@[0], y);
                let below = (cells@[0], (y + 1) as u32);
                assert forall|j: int| 0 <= j < width && #[trigger] handled@[j] implies sinks(
                    maze@,
                    (j as u32, y),
                ) by {
                    let c = (j as u32, y);
                    if marked[j] {
                        assert(sinks(before, c));
                        lemma_sinks_kept(before, maze@, c);
                    } else {
                        assert(listed.contains(j as u32));
                        let k = choose|k: int| 0 <= k < listed.len() && listed[k] == j as u32;
                        assert(roots@[listed[k] as int] == roots@[first as int]);
                        assert(roots@[cells@[0] as int] == roots@[first as int]);
                        lemma_index_bound(width, height, c);
                        lemma_index_bound(width, height, anchor);
                        assert(base.same_set(index_of(width, c), index_of(width, anchor)));
                        lemma_connected_grows(start, maze@, c, anchor);
                        lemma_connected_step(maze@, c, anchor, below);
                    }
                }
            }
        }
        first += 1;
    }
    proof {
        assert forall|x: u32| x < width implies #[trigger] sinks(maze@, (x, y)) by {
            assert(handled@[x as int]);
        }
    }
}

/// Builds the maze row by row: neighbouring cells of a row are merged,
/// then every set of the row is linked to the next row.
fn weave(width: u32, height: u32, complexity: Complexity, rng: &mut MazeRng) -> (maze: Maze)
    requires
        valid_size(width, height),
    ensures
        maze.wf(),
        maze@.width == width,
        maze@.height == height,
        all_sink(maze@),
{
    let mut maze = Maze::new(width, height);
    let total = cell_count(width, height);
    let mut sets = UnionFind::new(total as usize);
    proof {
        lemma_fresh_joined(maze@, &sets, width, height);
    }
    let mut y: u32 = 0;
    while y < height
        invariant
            valid_size(width, height),
            maze.wf(),
            maze@.width == width,
            maze@.height == height,
            sets.wf(),
            sets.len() == width * height,
            sets_joined(maze@, &sets, width),
            0 <= y <= height,
            forall|c: (u32, u32)|
                maze@.in_bounds(c) && c.1 < y && c.1 + 1 < height ==> #[trigger] sinks(maze@, c),
        decreases height - y,
    {
        let ghost before = maze@;
        merge_row(&mut maze, &mut sets, rng, complexity, y, width, height);
        if y < height - 1 {
            link_down(&mut maze, &mut sets, rng, complexity, y, width, height);
        }
        proof {
            assert forall|c: (u32, u32)|
                maze@.in_bounds(c) && c.1 < y + 1 && c.1 + 1 < height implies #[trigger] sinks(
                maze@,
                c,
            ) by {
                if c.1 < y {
                    lemma_sinks_kept(before, maze@, c);
                } else {
                    assert(sinks(maze@, (c.0, y)));
                }
            }
        }
        y += 1;
    }
    maze
}

impl MazeGenerator for Eller {
    /// Every cell above the last row has a way to the row below.
    open spec fn keeps(&self, maze: Grid, complexity: Complexity) -> bool {
        all_sink(maze)
    }

    fn generate(&self, width: u32, height: u32, complexity: Complexity, seed: Option<u64>) -> (maze:
        Maze) {
        let mut rng = MazeRng::new(seed);
        let mut maze = weave(width, height, complexity, &mut rng);
        let ghost woven = maze@;
        maze.ensure_connectivity();
        proof {
            assert forall|c: (u32, u32)|
                maze@.in_bounds(c) && c.1 + 1 < maze@.height implies #[trigger] sinks(maze@, c) by {
                lemma_sinks_kept(woven, maze@, c);
            }
        }
        maze
    }
}

} // verus!
