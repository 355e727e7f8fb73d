//! Kruskal's algorithm: the passages of the grid in shuffled order, each
//! opened when it joins two sets of cells.

use vstd::prelude::*;
use crate::algorithms::{
    all_edges, cell_count, cell_index, edges_complete, edges_forward, edges_inside, index_of,
    lemma_fresh_joined, lemma_same_roots_joined, lemma_same_roots_merged, lemma_union_joined,
    passages_merged, sets_joined, valid_size, MazeGenerator,
};
use crate::complexity::Complexity;
use crate::connectivity::mended;
use crate::grid::{adjacent, lonely, Grid};
use crate::maze::Maze;
use crate::reach::{
    closed, lemma_carve, lemma_closed_covers, lemma_connected_grows, lemma_connected_refl,
    lemma_connected_step, lemma_connected_sym, lemma_connected_trans, lemma_spanning_solvable,
};
use crate::rng::{lemma_permutation_members, lemma_swap_permutes, MazeRng};
use crate::union_find::UnionFind;

verus! {

/// Kruskal's algorithm, which joins sets of cells by shuffled passages.
pub struct Kruskal;

/// Swaps every position of `edges` in turn with a position drawn from the
/// whole list.
fn scramble(edges: &mut Vec<(u32, u32, u32, u32)>, rng: &mut MazeRng, width: u32, height: u32)
    requires
        edges_inside(old(edges)@, width, height),
    ensures
        edges_inside(final(edges)@, width, height),
        final(edges)@.to_multiset() == old(edges)@.to_multiset(),
{
    let n = edges.len();
    let mut i: usize = 0;
    while i < n
        invariant
            0 <= i <= n,
            edges@.len() == n,
            edges_inside(edges@, width, height),
            edges@.to_multiset() == old(edges)@.to_multiset(),
        decreases n - i,
    {
        let j = rng.below(n);
        let first = edges[i];
        let second = edges[j];
        let ghost before = edges@;
        edges[i] = second;
        edges[j] = first;
        proof {
            lemma_swap_permutes(before, i as int, j as int);
            assert(edges@ =~= before.update(i as int, before[j as int]).update(
                j as int,
                before[i as int],
            ));
        }
        i += 1;
    }
}

/// The two ends of every edge are connected.
pub open spec fn edges_joined(g: Grid, edges: Seq<(u32, u32, u32, u32)>, upto: int) -> bool {
    forall|k: int|
        0 <= k < upto ==> g.connected(
            ((#[trigger] edges[k]).0, edges[k].1),
            (edges[k].2, edges[k].3),
        )
}

/// The passages of `g` hold no loop: `sets` are the parts into which the
/// passages join the cells, and there are as many passages as there are
/// cells less the number of those parts.
pub open spec fn forest(g: Grid, sets: UnionFind) -> bool {
    &&& g.wf()
    &&& sets.wf()
    &&& sets.len() == g.width * g.height
    &&& sets_joined(g, &sets, g.width as u32)
    &&& passages_merged(g, &sets, g.width as u32)
    &&& g.passages().len() + sets.set_count() == g.width * g.height
}

/// Opens passages in the order of `edges` wherever one joins two sets of
/// cells. At a complexity of a tenth or more a joining passage is skipped
/// with probability `0.3 * complexity`; below that none is skipped, and
/// the two ends of every edge are connected in the end. The passages hold
/// no loop.
fn join_sets(
    maze: &mut Maze,
    edges: &Vec<(u32, u32, u32, u32)>,
    complexity: Complexity,
    rng: &mut MazeRng,
    width: u32,
    height: u32,
)
    requires
        valid_size(width, height),
        old(maze).wf(),
        old(maze)@.width == width,
        old(maze)@.height == height,
        lonely(old(maze)@, Set::empty()),
        edges_inside(edges@, width, height),
        edges_forward(edges@),
        edges_complete(edges@, width, height),
    ensures
        final(maze).wf(),
        final(maze)@.width == width,
        final(maze)@.height == height,
        old(maze)@.passages_within(final(maze)@),
        complexity.value() < 100_000 ==> final(maze)@.perfect(),
        exists|sets: UnionFind| #[trigger] forest(final(maze)@, sets),
{
    let total = cell_count(width, height);
    let mut sets = UnionFind::new(total as usize);
    let keep = 1_000_000 - complexity.scaled(0, 300_000);
    proof {
        lemma_fresh_joined(maze@, &sets, width, height);
        crate::grid::lemma_walled_passages(maze@);
        assert forall|a: (u32, u32), b: (u32, u32)| !#[trigger] maze@.open_between(a, b) by {
            if maze@.in_bounds(a) {
                assert(maze@.at(a).wall_count() == 4);
            }
        }
    }
    let mut i: usize = 0;
    while i < edges.len()
        invariant
            valid_size(width, height),
            maze.wf(),
            maze@.width == width,
            maze@.height == height,
            old(maze)@.passages_within(maze@),
            edges_inside(edges@, width, height),
            edges_forward(edges@),
            sets.wf(),
            sets.len() == width * height,
            sets_joined(maze@, &sets, width),
            passages_merged(maze@, &sets, width),
            maze@.passages().len() + sets.set_count() == width * height,
            complexity.value() < 100_000 ==> edges_joined(maze@, edges@, i as int),
            complexity.value() < 100_000 ==> forall|k: int|
                0 <= k < i ==> sets.same_set(
                    index_of(width, ((#[trigger] edges@[k]).0, edges@[k].1)),
                    index_of(width, (edges@[k].2, edges@[k].3)),
                ),
            0 <= i <= edges@.len(),
            keep <= 1_000_000,
        decreases edges@.len() - i,
    {
        let (x1, y1, x2, y2) = edges[i];
        let ghost a = (x1, y1);
        let ghost b = (x2, y2);
        let ghost grid_before = maze@;
        let first = cell_index(width, height, x1, y1);
        let second = cell_index(width, height, x2, y2);
        let ghost sets_start = sets;
        let first_root = sets.find(first);
        let second_root = sets.find(second);
        let ghost sets_found = sets;
        proof {
            lemma_same_roots_joined(grid_before, &sets_start, &sets_found, width, height);
            lemma_same_roots_merged(grid_before, &sets_start, &sets_found, width, height);
            crate::algorithms::lemma_index_bound(width, height, a);
            crate::algorithms::lemma_index_bound(width, height, b);
        }
        let apart = first_root != second_root;
        if apart {
            let taken = rng.happens(keep);
            if taken || complexity.below(100_000) {
                proof {
                    assert(adjacent(a, b));
                    if !grid_before.facing(a, b) {
                        assert(grid_before.open_between(a, b));
                    }
                    crate::grid::lemma_carve_passages(grid_before, a, b);
                }
                maze.remove_wall(x1, y1, x2, y2);
                sets.union(first, second);
                proof {
                    lemma_carve(grid_before, a, b);
                    assert(adjacent(a, b));
                    assert(maze@.open_between(a, b));
                    lemma_connected_refl(maze@, a);
                    lemma_connected_step(maze@, a, a, b);
                    lemma_union_joined(grid_before, maze@, &sets_found, &sets, width, height, a, b);
                    assert forall|p: (u32, u32), q: (u32, u32)| #[trigger]
                        maze@.open_between(p, q) implies sets.same_set(
                        index_of(width, p),
                        index_of(width, q),
                    ) by {
                        crate::algorithms::lemma_index_bound(width, height, p);
                        crate::algorithms::lemma_index_bound(width, height, q);
                        if grid_before.open_between(p, q) {
                            assert(sets_found.same_set(index_of(width, p), index_of(width, q)));
                        }
                    }
                }
            }
        } else {
            proof {
                assert(sets_found.same_set(index_of(width, a), index_of(width, b)));
            }
        }
        proof {
            if complexity.value() < 100_000 {
                assert forall|k: int| 0 <= k < i + 1 implies sets.same_set(
                    index_of(width, ((#[trigger] edges@[k]).0, edges@[k].1)),
                    index_of(width, (edges@[k].2, edges@[k].3)),
                ) by {
                    let p = (edges@[k].0, edges@[k].1);
                    let q = (edges@[k].2, edges@[k].3);
                    crate::algorithms::lemma_index_bound(width, height, p);
                    crate::algorithms::lemma_index_bound(width, height, q);
                    if k < i {
                        assert(sets_start.same_set(index_of(width, p), index_of(width, q)));
                        assert(sets_found.same_set(index_of(width, p), index_of(width, q)));
                    }
                }
                assert forall|k: int| 0 <= k < i + 1 implies maze@.connected(
                    ((#[trigger] edges@[k]).0, edges@[k].1),
                    (edges@[k].2, edges@[k].3),
                ) by {
                    if k < i {
                        lemma_connected_grows(
                            grid_before,
                            maze@,
                            (edges@[k].0, edges@[k].1),
                            (edges@[k].2, edges@[k].3),
                        );
                    }
                }
            }
        }
        i += 1;
    }
    proof {
        assert(maze@.width as u32 == width);
        assert(forest(maze@, sets));
        if complexity.value() < 100_000 {
            lemma_joined_spans(maze@, edges@, width, height);
            lemma_all_merged(maze@, &sets, edges@, width, height);
            sets.lemma_single();
        }
    }
}

/// When the two ends of every edge of a complete list are in one set, all
/// positions are in one set.
proof fn lemma_all_merged(
    g: Grid,
    sets: &UnionFind,
    edges: Seq<(u32, u32, u32, u32)>,
    width: u32,
    height: u32,
)
    requires
        g.wf(),
        g.width == width,
        g.height == height,
        sets.wf(),
        sets.len() == width * height,
        edges_complete(edges, width, height),
        forall|k: int|
            0 <= k < edges.len() ==> sets.same_set(
                index_of(width, ((#[trigger] edges[k]).0, edges[k].1)),
                index_of(width, (edges[k].2, edges[k].3)),
            ),
    ensures
        sets.len() > 0,
        forall|i: int| 0 <= i < sets.len() ==> #[trigger] sets.root(i) == sets.root(0),
{
    let together = Set::new(
        |c: (u32, u32)| sets.same_set(index_of(width, c), index_of(width, g.entry())),
    );
    assert(closed(g, together)) by {
        assert forall|a: (u32, u32), b: (u32, u32)|
            together.contains(a) && g.in_bounds(a) && g.in_bounds(b) && #[trigger] adjacent(
                a,
                b,
            ) implies together.contains(b) by {
            let forward = crate::grid::edge_between(a, b);
            if a.0 + 1 == b.0 {
                assert(edges.contains((a.0, a.1, (a.0 + 1) as u32, a.1)));
            } else if a.1 + 1 == b.1 {
                assert(edges.contains((a.0, a.1, a.0, (a.1 + 1) as u32)));
            } else if b.0 + 1 == a.0 {
                assert(edges.contains((b.0, b.1, (b.0 + 1) as u32, b.1)));
            } else {
                assert(edges.contains((b.0, b.1, b.0, (b.1 + 1) as u32)));
            }
            assert(edges.contains(forward));
            let k = choose|k: int| 0 <= k < edges.len() && edges[k] == forward;
            assert(sets.same_set(
                index_of(width, (edges[k].0, edges[k].1)),
                index_of(width, (edges[k].2, edges[k].3)),
            ));
        }
    }
    assert(width * height >= 1) by (nonlinear_arith)
        requires
            width >= 1,
            height >= 1,
    ;
    assert(index_of(width, g.entry()) == 0) by {
        assert(0 * width == 0);
    }
    assert forall|i: int| 0 <= i < sets.len() implies #[trigger] sets.root(i) == sets.root(0) by {
        let c = crate::algorithms::lemma_index_cell(width, height, i);
        lemma_closed_covers(g, together, g.entry(), c);
    }
}

/// A grid in which the two ends of every edge of a complete list are
/// connected spans.
proof fn lemma_joined_spans(g: Grid, edges: Seq<(u32, u32, u32, u32)>, width: u32, height: u32)
    requires
        g.wf(),
        g.width == width,
        g.height == height,
        edges_complete(edges, width, height),
        edges_joined(g, edges, edges.len() as int),
    ensures
        g.spanning(),
{
    let reached = Set::new(|c: (u32, u32)| g.connected(g.entry(), c));
    lemma_connected_refl(g, g.entry());
    assert(closed(g, reached)) by {
        assert forall|a: (u32, u32), b: (u32, u32)|
            reached.contains(a) && g.in_bounds(a) && g.in_bounds(b) && #[trigger] adjacent(
                a,
                b,
            ) implies reached.contains(b) by {
            let forward = if a.0 + 1 == b.0 || a.1 + 1 == b.1 {
                (a.0, a.1, b.0, b.1)
            } else {
                (b.0, b.1, a.0, a.1)
            };
            if a.0 + 1 == b.0 {
                assert(edges.contains((a.0, a.1, (a.0 + 1) as u32, a.1)));
            } else if a.1 + 1 == b.1 {
                assert(edges.contains((a.0, a.1, a.0, (a.1 + 1) as u32)));
            } else if b.0 + 1 == a.0 {
                assert(edges.contains((b.0, b.1, (b.0 + 1) as u32, b.1)));
            } else {
                assert(edges.contains((b.0, b.1, b.0, (b.1 + 1) as u32)));
            }
            assert(edges.contains(forward));
            let k = choose|k: int| 0 <= k < edges.len() && edges[k] == forward;
            assert(g.connected((edges[k].0, edges[k].1), (edges[k].2, edges[k].3)));
            if a.0 + 1 == b.0 || a.1 + 1 == b.1 {
            } else {
                lemma_connected_sym(g, b, a);
            }
            lemma_connected_trans(g, g.entry(), a, b);
        }
    }
    assert forall|c: (u32, u32)| g.in_bounds(c) implies #[trigger] g.connected(g.entry(), c) by {
        lemma_closed_covers(g, reached, g.entry(), c);
    }
}

impl MazeGenerator for Kruskal {
    /// The maze is a grid whose passages hold no loop, or the repair of
    /// such a grid. Below a complexity of a tenth the passages form a tree
    /// on all cells.
    open spec fn keeps(&self, maze: Grid, complexity: Complexity) -> bool {
        &&& exists|joined: Grid, sets: UnionFind| #[trigger]
            forest(joined, sets) && mended(joined, maze)
        &&& complexity.value() < 100_000 ==> maze.perfect()
    }

    /// The passages are taken row by row at complexity zero and scrambled
    /// otherwise; connectivity repair follows, since skipped passages can
    /// leave the exit cut off.
    fn generate(&self, width: u32, height: u32, complexity: Complexity, seed: Option<u64>) -> (maze:
        Maze) {
        let mut maze = Maze::new(width, height);
        let mut rng = MazeRng::new(seed);
        let mut edges = all_edges(width, height);
        if complexity.positive() {
            let ghost listed = edges@;
            scramble(&mut edges, &mut rng, width, height);
            proof {
                lemma_permutation_members(listed, edges@);
                assert forall|k: int| 0 <= k < edges@.len() implies {
                    let e = #[trigger] edges@[k];
                    (e.2 == e.0 + 1 && e.3 == e.1) || (e.2 == e.0 && e.3 == e.1 + 1)
                } by {
                    assert(listed.contains(edges@[k]));
                }
                assert forall|c: (u32, u32)|
                    #![trigger edges@.contains((c.0, c.1, (c.0 + 1) as u32, c.1))]
                    #![trigger edges@.contains((c.0, c.1, c.0, (c.1 + 1) as u32))]
                    c.0 < width && c.1 < height implies {
                    &&& c.0 + 1 < width ==> edges@.contains((c.0, c.1, (c.0 + 1) as u32, c.1))
                    &&& c.1 + 1 < height ==> edges@.contains((c.0, c.1, c.0, (c.1 + 1) as u32))
                } by {
                    if c.0 + 1 < width {
                        let e = (c.0, c.1, (c.0 + 1) as u32, c.1);
                        assert(listed.contains(e));
                        let k = choose|k: int| 0 <= k < listed.len() && listed[k] == e;
                        assert(edges@.contains(listed[k]));
                    }
                    if c.1 + 1 < height {
                        let e = (c.0, c.1, c.0, (c.1 + 1) as u32);
                        assert(listed.contains(e));
                        let k = choose|k: int| 0 <= k < listed.len() && listed[k] == e;
                        assert(edges@.contains(listed[k]));
                    }
                }
            }
        }
        join_sets(&mut maze, &edges, complexity, &mut rng, width, height);
        let ghost joined = maze@;
        proof {
            if complexity.value() < 100_000 {
                lemma_spanning_solvable(maze@);
            }
        }
        maze.ensure_connectivity();
        proof {
            let sets = choose|sets: UnionFind| #[trigger] forest(joined, sets);
            assert(forest(joined, sets) && mended(joined, maze@));
        }
        maze
    }
}

} // verus!
