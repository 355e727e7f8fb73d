//! The generation algorithms. Each turns a fully walled grid into a maze in
//! which the exit can be reached from the entry; what they share stands
//! here.

use vstd::prelude::*;
use crate::cell_grid::CellSet;
use crate::complexity::Complexity;
use crate::grid::{adjacent, Grid};
use crate::maze::Maze;
use crate::rng::MazeRng;
use crate::union_find::UnionFind;

pub mod aldous_broder;
pub mod bfs;
pub mod binary_tree;
pub mod braid_postprocess;
pub mod cellular_automata;
pub mod dfs_iterative;
pub mod drunkards_walk;
pub mod eller;
pub mod growing_tree;
pub mod hamiltonian;
pub mod hunt_and_kill;
pub mod kruskal;
pub mod prim;
pub mod random_obstacle;
pub mod recursive_backtracking;
pub mod recursive_backtracking_braided;
pub mod recursive_division;
pub mod sidewinder;
pub mod voronoi;
pub mod wilsons;

verus! {

/// The sizes a generator accepts: at least one cell each way, and a cell
/// count that fits `u32`.
pub open spec fn valid_size(width: u32, height: u32) -> bool {
    &&& width >= 1
    &&& height >= 1
    &&& width * height <= u32::MAX
}

/// What every generator returns: a well-formed maze of the size asked for
/// in which the exit can be reached from the entry.
pub open spec fn generated(g: Grid, width: u32, height: u32) -> bool {
    &&& g.wf()
    &&& g.width == width
    &&& g.height == height
    &&& g.solvable()
}

/// Every maze a generator returns has a path from its entry to its exit,
/// so that solving it finds one.
pub proof fn lemma_generated_solvable(g: Grid, width: u32, height: u32)
    requires
        generated(g, width, height),
    ensures
        g.solvable(),
        exists|p: Seq<(u32, u32)>| g.joins(p, g.entry(), g.exit()),
{
}

/// A maze generation algorithm.
pub trait MazeGenerator {
    /// What the algorithm promises of every maze it makes at the given
    /// complexity, beyond a way from the entry to the exit.
    spec fn keeps(&self, maze: Grid, complexity: Complexity) -> bool;

    /// A maze of `width` by `height` cells in which the exit can be reached
    /// from the entry. With a seed every draw comes from a source seeded
    /// with it; without one the source is seeded from system entropy.
    fn generate(&self, width: u32, height: u32, complexity: Complexity, seed: Option<u64>) -> (maze:
        Maze)
        requires
            valid_size(width, height),
        ensures
            generated(maze@, width, height),
            self.keeps(maze@, complexity),
    ;
}

/// Every cell of `set` that is not in `list` has all its neighbours on the
/// grid in `set`.
pub open spec fn sealed(g: Grid, set: Set<(u32, u32)>, list: Seq<(u32, u32)>) -> bool {
    forall|c: (u32, u32), n: (u32, u32)|
        set.contains(c) && !list.contains(c) && g.in_bounds(c) && g.in_bounds(n)
            && #[trigger] adjacent(c, n) ==> set.contains(n)
}

/// A new cell may join the set and the list together.
pub proof fn lemma_sealed_push(
    g: Grid,
    set: Set<(u32, u32)>,
    list: Seq<(u32, u32)>,
    n: (u32, u32),
)
    requires
        sealed(g, set, list),
    ensures
        sealed(g, set.insert(n), list.push(n)),
{
    crate::seqs::lemma_push_contains(list, n);
}

/// A cell whose neighbours are all in the set may leave the list.
pub proof fn lemma_sealed_remove(
    g: Grid,
    set: Set<(u32, u32)>,
    list: Seq<(u32, u32)>,
    at: int,
)
    requires
        sealed(g, set, list),
        0 <= at < list.len(),
        forall|n: (u32, u32)| g.in_bounds(n) && #[trigger] adjacent(list[at], n) ==> set.contains(n),
    ensures
        sealed(g, set, list.remove(at)),
{
    let rest = list.remove(at);
    assert forall|c: (u32, u32)| list.contains(c) && c != list[at] implies rest.contains(c) by {
        let k = choose|k: int| 0 <= k < list.len() && list[k] == c;
        if k < at {
            assert(rest[k] == c);
        } else {
            assert(rest[k - 1] == c);
        }
    }
}

/// Once the list is empty the set is closed under grid adjacency.
pub proof fn lemma_sealed_closed(g: Grid, set: Set<(u32, u32)>, list: Seq<(u32, u32)>)
    requires
        sealed(g, set, list),
        list.len() == 0,
    ensures
        crate::reach::closed(g, set),
{
}

/// No cell outside `set` has a neighbour in `set`.
pub open spec fn none_beside(g: Grid, set: Set<(u32, u32)>, c: (u32, u32)) -> bool {
    forall|n: (u32, u32)| g.in_bounds(n) && #[trigger] adjacent(c, n) ==> !set.contains(n)
}

/// Every cell of `s` lies inside a `width` by `height` rectangle.
pub open spec fn all_inside(s: Seq<(u32, u32)>, width: u32, height: u32) -> bool {
    forall|i: int| 0 <= i < s.len() ==> (#[trigger] s[i]).0 < width && s[i].1 < height
}

/// The number of cells of a grid of valid size.
pub fn cell_count(width: u32, height: u32) -> (total: u32)
    requires
        valid_size(width, height),
    ensures
        total == width * height,
        total >= 1,
{
    proof {
        assert(width * height >= 1) by (nonlinear_arith)
            requires
                width >= 1,
                height >= 1,
        ;
    }
    width * height
}

/// Both ends of every edge of `s` lie inside a `width` by `height`
/// rectangle.
pub open spec fn edges_inside(s: Seq<(u32, u32, u32, u32)>, width: u32, height: u32) -> bool {
    forall|i: int|
        0 <= i < s.len() ==> (#[trigger] s[i]).0 < width && s[i].1 < height && s[i].2 < width
            && s[i].3 < height
}

/// The position of the cell `(x, y)` when the grid is read row by row.
pub fn cell_index(width: u32, height: u32, x: u32, y: u32) -> (index: usize)
    requires
        valid_size(width, height),
        x < width,
        y < height,
    ensures
        index == y * width + x,
        index < width * height,
{
    proof {
        assert(y * width + x < width * height) by (nonlinear_arith)
            requires
                0 <= x < width,
                0 <= y < height,
        ;
    }
    (y * width + x) as usize
}

/// Every edge of `s` leads from a cell to its eastern or southern
/// neighbour.
pub open spec fn edges_forward(s: Seq<(u32, u32, u32, u32)>) -> bool {
    forall|i: int|
        0 <= i < s.len() ==> {
            let e = #[trigger] s[i];
            (e.2 == e.0 + 1 && e.3 == e.1) || (e.2 == e.0 && e.3 == e.1 + 1)
        }
}

/// `s` holds the edge from every cell of the rectangle to its eastern and
/// to its southern neighbour.
pub open spec fn edges_complete(s: Seq<(u32, u32, u32, u32)>, width: u32, height: u32) -> bool {
    forall|c: (u32, u32)|
        #![trigger s.contains((c.0, c.1, (c.0 + 1) as u32, c.1))]
        #![trigger s.contains((c.0, c.1, c.0, (c.1 + 1) as u32))]
        c.0 < width && c.1 < height ==> {
            &&& c.0 + 1 < width ==> s.contains((c.0, c.1, (c.0 + 1) as u32, c.1))
            &&& c.1 + 1 < height ==> s.contains((c.0, c.1, c.0, (c.1 + 1) as u32))
        }
}

/// The position of the cell `c` when a grid of the given width is read row
/// by row.
pub open spec fn index_of(width: u32, c: (u32, u32)) -> int {
    c.1 * width + c.0
}

/// The position of a cell of the grid is below the number of cells.
pub proof fn lemma_index_bound(width: u32, height: u32, c: (u32, u32))
    requires
        c.0 < width,
        c.1 < height,
    ensures
        0 <= index_of(width, c) < width * height,
{
    assert(c.1 * width + c.0 < width * height) by (nonlinear_arith)
        requires
            0 <= c.0 < width,
            0 <= c.1 < height,
    ;
    assert(0 <= c.1 * width) by (nonlinear_arith)
        requires
            0 <= c.1,
            0 <= width,
    ;
}

/// Two cells of the grid with the same position are the same cell.
pub proof fn lemma_index_injective(width: u32, a: (u32, u32), b: (u32, u32))
    requires
        a.0 < width,
        b.0 < width,
        index_of(width, a) == index_of(width, b),
    ensures
        a == b,
{
    assert(a.1 == b.1) by (nonlinear_arith)
        requires
            0 <= a.0 < width,
            0 <= b.0 < width,
            a.1 * width + a.0 == b.1 * width + b.0,
            0 <= a.1,
            0 <= b.1,
    ;
}

/// Before any two sets are merged, cells of one set are connected: they
/// are the same cell.
pub proof fn lemma_fresh_joined(g: Grid, sets: &UnionFind, width: u32, height: u32)
    requires
        g.width == width,
        g.height == height,
        sets.len() == width * height,
        forall|i: int| 0 <= i < sets.len() ==> sets.root(i) == i,
    ensures
        sets_joined(g, sets, width),
{
    assert forall|a: (u32, u32), b: (u32, u32)|
        g.in_bounds(a) && g.in_bounds(b) && #[trigger] sets.same_set(
            index_of(width, a),
            index_of(width, b),
        ) implies g.connected(a, b) by {
        lemma_index_bound(width, height, a);
        lemma_index_bound(width, height, b);
        lemma_index_injective(width, a, b);
        crate::reach::lemma_connected_refl(g, a);
    }
}

/// Sets keep the cells of every passage together when representatives stay
/// as they were.
pub proof fn lemma_same_roots_merged(
    g: Grid,
    before: &UnionFind,
    after: &UnionFind,
    width: u32,
    height: u32,
)
    requires
        g.width == width,
        g.height == height,
        passages_merged(g, before, width),
        before.len() == g.width * g.height,
        forall|i: int| 0 <= i < before.len() ==> after.root(i) == before.root(i),
    ensures
        passages_merged(g, after, width),
{
    assert forall|a: (u32, u32), b: (u32, u32)| #[trigger]
        g.open_between(a, b) implies after.same_set(index_of(width, a), index_of(width, b)) by {
        lemma_index_bound(width, height, a);
        lemma_index_bound(width, height, b);
        assert(before.same_set(index_of(width, a), index_of(width, b)));
    }
}

/// Cells whose positions are in one set are connected.
pub open spec fn sets_joined(g: Grid, sets: &UnionFind, width: u32) -> bool {
    forall|a: (u32, u32), b: (u32, u32)|
        g.in_bounds(a) && g.in_bounds(b) && #[trigger] sets.same_set(
            index_of(width, a),
            index_of(width, b),
        ) ==> g.connected(a, b)
}

/// Cells with a passage between them are in one set.
pub open spec fn passages_merged(g: Grid, sets: &UnionFind, width: u32) -> bool {
    forall|a: (u32, u32), b: (u32, u32)| #[trigger]
        g.open_between(a, b) ==> sets.same_set(index_of(width, a), index_of(width, b))
}

/// Every position below the number of cells is the position of a cell of
/// the grid.
pub proof fn lemma_index_cell(width: u32, height: u32, i: int) -> (c: (u32, u32))
    requires
        width >= 1,
        0 <= i < width * height,
    ensures
        c.0 < width,
        c.1 < height,
        index_of(width, c) == i,
{
    vstd::arithmetic::div_mod::lemma_fundamental_div_mod(i, width as int);
    vstd::arithmetic::div_mod::lemma_mod_bound(i, width as int);
    vstd::arithmetic::div_mod::lemma_div_pos_is_pos(i, width as int);
    let x = i % (width as int);
    let y = i / (width as int);
    assert(y < height) by (nonlinear_arith)
        requires
            i == width * y + x,
            0 <= x,
            i < width * height,
            width >= 1,
            0 <= y,
    ;
    assert(y * width == width * y) by (nonlinear_arith);
    (x as u32, y as u32)
}

/// Sets with the same representatives join the same cells.
pub proof fn lemma_same_roots_joined(
    g: Grid,
    before: &UnionFind,
    after: &UnionFind,
    width: u32,
    height: u32,
)
    requires
        g.width == width,
        g.height == height,
        sets_joined(g, before, width),
        before.len() == g.width * g.height,
        forall|i: int| 0 <= i < before.len() ==> after.root(i) == before.root(i),
    ensures
        sets_joined(g, after, width),
{
    assert forall|a: (u32, u32), b: (u32, u32)|
        g.in_bounds(a) && g.in_bounds(b) && #[trigger] after.same_set(
            index_of(width, a),
            index_of(width, b),
        ) implies g.connected(a, b) by {
        lemma_index_bound(width, height, a);
        lemma_index_bound(width, height, b);
        assert(before.same_set(index_of(width, a), index_of(width, b)));
    }
}

/// Merging the sets of two connected cells keeps cells of one set
/// connected, also when passages were opened meanwhile.
pub proof fn lemma_union_joined(
    g: Grid,
    h: Grid,
    before: &UnionFind,
    after: &UnionFind,
    width: u32,
    height: u32,
    x: (u32, u32),
    y: (u32, u32),
)
    requires
        g.wf(),
        h.wf(),
        g.width == width,
        g.height == height,
        h.width == g.width,
        h.height == g.height,
        g.passages_within(h),
        sets_joined(g, before, width),
        before.len() == g.width * g.height,
        g.in_bounds(x),
        g.in_bounds(y),
        h.connected(x, y),
        after.root(index_of(width, x)) == before.root(index_of(width, x)) || after.root(
            index_of(width, x),
        ) == before.root(index_of(width, y)),
        forall|i: int|
            0 <= i < before.len() ==> after.root(i) == (if before.same_set(i, index_of(width, x))
                || before.same_set(i, index_of(width, y)) {
                after.root(index_of(width, x))
            } else {
                before.root(i)
            }),
    ensures
        sets_joined(h, after, width),
{
    let ix = index_of(width, x);
    let iy = index_of(width, y);
    lemma_index_bound(width, height, x);
    lemma_index_bound(width, height, y);
    assert forall|a: (u32, u32), b: (u32, u32)|
        h.in_bounds(a) && h.in_bounds(b) && #[trigger] after.same_set(
            index_of(width, a),
            index_of(width, b),
        ) implies h.connected(a, b) by {
        let ia = index_of(width, a);
        let ib = index_of(width, b);
        lemma_index_bound(width, height, a);
        lemma_index_bound(width, height, b);
        let a_in = before.same_set(ia, ix) || before.same_set(ia, iy);
        let b_in = before.same_set(ib, ix) || before.same_set(ib, iy);
        if a_in && b_in {
            lemma_near(g, h, before, width, x, y, a);
            lemma_near(g, h, before, width, x, y, b);
            crate::reach::lemma_connected_sym(h, x, a);
            crate::reach::lemma_connected_trans(h, a, x, b);
        } else if !a_in && !b_in {
            assert(before.same_set(ia, ib));
            crate::reach::lemma_connected_grows(g, h, a, b);
        }
    }
}

proof fn lemma_near(
    g: Grid,
    h: Grid,
    before: &UnionFind,
    width: u32,
    x: (u32, u32),
    y: (u32, u32),
    a: (u32, u32),
)
    requires
        g.wf(),
        h.wf(),
        g.width == width,
        h.width == g.width,
        h.height == g.height,
        g.passages_within(h),
        sets_joined(g, before, width),
        g.in_bounds(x),
        g.in_bounds(y),
        g.in_bounds(a),
        h.connected(x, y),
        before.same_set(index_of(width, a), index_of(width, x)) || before.same_set(
            index_of(width, a),
            index_of(width, y),
        ),
    ensures
        h.connected(x, a),
{
    if before.same_set(index_of(width, a), index_of(width, x)) {
        assert(before.same_set(index_of(width, x), index_of(width, a)));
        crate::reach::lemma_connected_grows(g, h, x, a);
    } else {
        assert(before.same_set(index_of(width, y), index_of(width, a)));
        crate::reach::lemma_connected_grows(g, h, y, a);
        crate::reach::lemma_connected_trans(h, x, y, a);
    }
}

/// The passages that can exist between adjacent cells of the grid, row by
/// row: for each cell the one to its eastern neighbour, then the one to its
/// southern neighbour.
pub fn all_edges(width: u32, height: u32) -> (edges: Vec<(u32, u32, u32, u32)>)
    requires
        valid_size(width, height),
    ensures
        edges_inside(edges@, width, height),
        edges_forward(edges@),
        edges_complete(edges@, width, height),
        edges@.len() == (width - 1) * height + width * (height - 1),
        edges@.len() <= 2 * (width * height),
{
    let mut edges: Vec<(u32, u32, u32, u32)> = Vec::new();
    let mut y: u32 = 0;
    while y < height
        invariant
            valid_size(width, height),
            0 <= y <= height,
            edges@.len() == y * (width - 1) + (if y < height {
                y * width
            } else {
                (height - 1) * width
            }),
            edges_inside(edges@, width, height),
            edges_forward(edges@),
            forall|c: (u32, u32)|
                #![trigger edges@.contains((c.0, c.1, (c.0 + 1) as u32, c.1))]
                #![trigger edges@.contains((c.0, c.1, c.0, (c.1 + 1) as u32))]
                c.0 < width && c.1 < y ==> {
                    &&& c.0 + 1 < width ==> edges@.contains((c.0, c.1, (c.0 + 1) as u32, c.1))
                    &&& c.1 + 1 < height ==> edges@.contains((c.0, c.1, c.0, (c.1 + 1) as u32))
                },
            edges@.len() <= 2 * (y * width),
        decreases height - y,
    {
        let mut x: u32 = 0;
        while x < width
            invariant
                valid_size(width, height),
                0 <= y < height,
                0 <= x <= width,
                edges@.len() == y * (width - 1) + (if x < width {
                    x as int
                } else {
                    width - 1
                }) + (if y + 1 < height {
                    y * width + x
                } else {
                    (height - 1) * width
                }),
                edges_inside(edges@, width, height),
                edges_forward(edges@),
                forall|c: (u32, u32)|
                    #![trigger edges@.contains((c.0, c.1, (c.0 + 1) as u32, c.1))]
                    #![trigger edges@.contains((c.0, c.1, c.0, (c.1 + 1) as u32))]
                    c.0 < width && (c.1 < y || (c.1 == y && c.0 < x)) ==> {
                        &&& c.0 + 1 < width ==> edges@.contains(
                            (c.0, c.1, (c.0 + 1) as u32, c.1),
                        )
                        &&& c.1 + 1 < height ==> edges@.contains(
                            (c.0, c.1, c.0, (c.1 + 1) as u32),
                        )
                    },
                edges@.len() <= 2 * (y * width + x),
            decreases width - x,
        {
            let ghost start = edges@;
            if x < width - 1 {
                edges.push((x, y, x + 1, y));
            }
            let ghost mid = edges@;
            if y < height - 1 {
                edges.push((x, y, x, y + 1));
            }
            proof {
                crate::seqs::lemma_push_contains(start, (x, y, (x + 1) as u32, y));
                crate::seqs::lemma_push_contains(mid, (x, y, x, (y + 1) as u32));
            }
            x += 1;
        }
        proof {
            assert((y + 1) * width == y * width + width) by (nonlinear_arith);
            assert((y + 1) * (width - 1) == y * (width - 1) + (width - 1)) by (nonlinear_arith);
        }
        y += 1;
    }
    proof {
        assert(height * width == width * height) by (nonlinear_arith);
        assert(height * (width - 1) == (width - 1) * height) by (nonlinear_arith);
        assert((height - 1) * width == width * (height - 1)) by (nonlinear_arith);
    }
    edges
}

/// Whether two coordinates name the same cell.
pub fn same_cell(a: (u32, u32), b: (u32, u32)) -> (same: bool)
    ensures
        same == (a == b),
{
    a.0 == b.0 && a.1 == b.1
}

/// The cell at `c` has a passage to the east and to the south wherever
/// the grid goes on there.
pub open spec fn opened(g: Grid, c: (u32, u32)) -> bool {
    &&& c.0 + 1 < g.width ==> g.open_between(c, ((c.0 + 1) as u32, c.1))
    &&& c.1 + 1 < g.height ==> g.open_between(c, (c.0, (c.1 + 1) as u32))
}

/// Removes every wall between two cells of the maze.
pub fn open_all(maze: &mut Maze)
    requires
        old(maze).wf(),
    ensures
        final(maze).wf(),
        final(maze)@.width == old(maze)@.width,
        final(maze)@.height == old(maze)@.height,
        forall|c: (u32, u32)| final(maze)@.in_bounds(c) ==> #[trigger] opened(final(maze)@, c),
        forall|a: (u32, u32), b: (u32, u32)|
            final(maze)@.in_bounds(a) && final(maze)@.in_bounds(b) && #[trigger] adjacent(a, b)
                ==> final(maze)@.open_between(a, b),
{
    let width = maze.width();
    let height = maze.height();
    let mut y: u32 = 0;
    while y < height
        invariant
            maze.wf(),
            maze@.width == width,
            maze@.height == height,
            maze@.width == old(maze)@.width,
            maze@.height == old(maze)@.height,
            forall|c: (u32, u32)| maze@.in_bounds(c) && c.1 < y ==> #[trigger] opened(maze@, c),
            0 <= y <= height,
        decreases height - y,
    {
        let mut x: u32 = 0;
        while x < width
            invariant
                maze.wf(),
                maze@.width == width,
                maze@.height == height,
                maze@.width == old(maze)@.width,
                maze@.height == old(maze)@.height,
                forall|c: (u32, u32)|
                    maze@.in_bounds(c) && (c.1 < y || (c.1 == y && c.0 < x)) ==> #[trigger] opened(
                        maze@,
                        c,
                    ),
                0 <= y < height,
                0 <= x <= width,
            decreases width - x,
        {
            let ghost before = maze@;
            if x < width - 1 {
                maze.remove_wall(x, y, x + 1, y);
                proof {
                    crate::reach::lemma_carve(before, (x, y), ((x + 1) as u32, y));
                }
            }
            let ghost mid = maze@;
            if y < height - 1 {
                maze.remove_wall(x, y, x, y + 1);
                proof {
                    crate::reach::lemma_carve(mid, (x, y), (x, (y + 1) as u32));
                }
            }
            proof {
                assert(opened(maze@, (x, y)));
                assert forall|c: (u32, u32)|
                    maze@.in_bounds(c) && (c.1 < y || (c.1 == y && c.0 < x + 1)) implies #[trigger] opened(
                    maze@,
                    c,
                ) by {
                    if c != (x, y) {
                        assert(opened(before, c));
                    }
                }
            }
            x += 1;
        }
        y += 1;
    }
    proof {
        assert forall|a: (u32, u32), b: (u32, u32)|
            maze@.in_bounds(a) && maze@.in_bounds(b) && #[trigger] adjacent(a, b) implies maze@.open_between(
            a,
            b,
        ) by {
            assert(opened(maze@, a));
            assert(opened(maze@, b));
            crate::grid::lemma_walls_symmetric(maze@, a, b);
        }
    }
}

/// Position `k` of `all` is the first whose cell is a member of `set` when
/// `member` is `true`, or is none when it is `false`.
pub open spec fn first_with(all: Seq<(u32, u32)>, set: Set<(u32, u32)>, member: bool, k: int) -> bool {
    &&& 0 <= k < all.len()
    &&& set.contains(all[k]) == member
    &&& forall|j: int| 0 <= j < k ==> set.contains(#[trigger] all[j]) != member
}

/// The grid neighbours of `(x, y)` that are members of `set` when `member`
/// is `true`, and those that are not when it is `false`, in the order of
/// `Maze::get_neighbors`.
pub fn select_neighbors(maze: &Maze, set: &CellSet, x: u32, y: u32, member: bool) -> (chosen: Vec<
    (u32, u32),
>)
    requires
        maze.wf(),
        set.wf(),
        set.cols() == maze@.width,
        set.lines() == maze@.height,
    ensures
        chosen@ == maze@.neighbors((x, y)).filter(|n: (u32, u32)| set@.contains(n) == member),
        chosen@.len() <= 4,
        forall|i: int|
            0 <= i < chosen@.len() ==> set@.contains(#[trigger] chosen@[i]) == member,
        maze@.in_bounds((x, y)) ==> forall|i: int|
            0 <= i < chosen@.len() ==> maze@.in_bounds(#[trigger] chosen@[i]) && adjacent(
                (x, y),
                chosen@[i],
            ),
        maze@.in_bounds((x, y)) ==> forall|n: (u32, u32)|
            maze@.in_bounds(n) && #[trigger] adjacent((x, y), n) && set@.contains(n) == member
                ==> chosen@.contains(n),
        forall|k: int| #[trigger]
            first_with(maze@.neighbors((x, y)), set@, member, k) ==> chosen@.len() > 0 && chosen@[0]
                == maze@.neighbors((x, y))[k],
{
    let all = maze.get_neighbors(x, y);
    let ghost keep = |n: (u32, u32)| set@.contains(n) == member;
    let ghost mut first: int = -1;
    let mut chosen: Vec<(u32, u32)> = Vec::new();
    let mut i: usize = 0;
    proof {
        assert(all@.take(0) =~= Seq::empty());
        reveal(Seq::filter);
    }
    while i < all.len()
        invariant
            set.wf(),
            0 <= i <= all@.len(),
            all@.len() <= 4,
            chosen@ == all@.take(i as int).filter(keep),
            chosen@.len() <= i,
            keep == (|n: (u32, u32)| set@.contains(n) == member),
            forall|k: int| 0 <= k < chosen@.len() ==> set@.contains(#[trigger] chosen@[k]) == member,
            forall|k: int| 0 <= k < chosen@.len() ==> all@.contains(#[trigger] chosen@[k]),
            forall|k: int|
                0 <= k < i && set@.contains(#[trigger] all@[k]) == member ==> chosen@.contains(
                    all@[k],
                ),
            first == -1 <==> chosen@.len() == 0,
            first == -1 ==> forall|j: int| 0 <= j < i ==> set@.contains(#[trigger] all@[j]) != member,
            first != -1 ==> 0 <= first < i && first_with(all@, set@, member, first) && chosen@[0]
                == all@[first],
        decreases all@.len() - i,
    {
        let n = all[i];
        let ghost before = chosen@;
        proof {
            if first == -1 && set@.contains(n) == member {
                first = i as int;
            }
        }
        proof {
            reveal(Seq::filter);
            assert(all@.take(i + 1).drop_last() =~= all@.take(i as int));
            assert(all@.take(i + 1).last() == n);
            assert(all@.contains(n));
        }
        if set.contains(n.0, n.1) == member {
            chosen.push(n);
        }
        proof {
            crate::seqs::lemma_push_contains(before, n);
        }
        i += 1;
    }
    proof {
        assert(all@.take(all@.len() as int) =~= all@);
        assert forall|k: int| #[trigger] first_with(all@, set@, member, k) implies chosen@.len() > 0
            && chosen@[0] == all@[k] by {
            if first == -1 {
                assert(set@.contains(all@[k]) != member);
            } else if k < first {
                assert(set@.contains(all@[k]) != member);
            } else if first < k {
                assert(set@.contains(all@[first]) != member);
            }
        }
        if maze@.in_bounds((x, y)) {
            crate::grid::lemma_neighbors(maze@, (x, y));
            assert forall|n: (u32, u32)|
                maze@.in_bounds(n) && #[trigger] adjacent((x, y), n) && set@.contains(n)
                    == member implies chosen@.contains(n) by {
                assert(all@.contains(n));
                let k = choose|k: int| 0 <= k < all@.len() && all@[k] == n;
                assert(set@.contains(all@[k]) == member);
            }
            assert forall|k: int| 0 <= k < chosen@.len() implies maze@.in_bounds(
                #[trigger] chosen@[k],
            ) && adjacent((x, y), chosen@[k]) by {
                assert(all@.contains(chosen@[k]));
            }
        }
    }
    chosen
}

/// A position in a list of `len` choices that leans toward the first: the
/// first outright when there is one choice or the complexity is below a
/// tenth; otherwise, with probability one minus the complexity, the first
/// seven times in ten and one of the others else; and a uniform draw in
/// the remaining case.
pub fn pick_leaning(rng: &mut MazeRng, len: usize, complexity: Complexity) -> (index: usize)
    requires
        len >= 1,
    ensures
        index < len,
        len == 1 || complexity.value() < 100_000 ==> index == 0,
{
    if len == 1 || complexity.below(100_000) {
        0
    } else if rng.happens(1_000_000 - complexity.millionths()) {
        if rng.happens(700_000) {
            0
        } else {
            rng.between(1, len)
        }
    } else {
        rng.below(len)
    }
}

/// A position in a list of `len` choices for a random walk: the first when
/// there is one choice; at a complexity below a tenth the first eight times
/// in ten and one of the others else; a uniform draw otherwise.
pub fn pick_step(rng: &mut MazeRng, len: usize, complexity: Complexity) -> (index: usize)
    requires
        len >= 1,
    ensures
        index < len,
        len == 1 ==> index == 0,
{
    if len == 1 {
        0
    } else if complexity.below(100_000) {
        if rng.happens(800_000) {
            0
        } else {
            rng.between(1, len)
        }
    } else {
        rng.below(len)
    }
}

} // verus!
