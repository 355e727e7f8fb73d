//! Random obstacles: walls are put back into an open grid, and what they
//! cut apart is stitched together again.

use vstd::prelude::*;
use crate::algorithms::{
    all_edges, cell_count, cell_index, index_of, lemma_fresh_joined, lemma_index_bound,
    lemma_union_joined, open_all, passages_merged, sets_joined, valid_size, MazeGenerator,
};
use crate::complexity::Complexity;
use crate::connectivity::{groups_inside, linked, listed_in, row_major_before};
use crate::reach::{
    lemma_connected_grows, lemma_connected_refl, lemma_connected_step, lemma_connected_sym,
    lemma_connected_trans, lemma_spanning_solvable, lemma_wall_up,
};
use crate::grid::{adjacent, same_step, Grid};
use crate::maze::Maze;
use crate::rng::MazeRng;
use crate::union_find::{lemma_union_merges, UnionFind};

verus! {

/// Random obstacles, walls put back into an open grid.
pub struct RandomObstacle;

/// No wall stands between two cells of the grid.
pub open spec fn all_open(g: Grid) -> bool {
    forall|a: (u32, u32), b: (u32, u32)|
        g.in_bounds(a) && g.in_bounds(b) && #[trigger] adjacent(a, b) ==> g.open_between(a, b)
}

/// At complexity zero the maze does not depend on the seed: any two mazes
/// of one size without walls between cells are the same.
pub proof fn lemma_open_grid_repeats(first: Grid, second: Grid)
    requires
        first.wf(),
        second.wf(),
        first.width == second.width,
        first.height == second.height,
        all_open(first),
        all_open(second),
    ensures
        first == second,
{
    crate::grid::lemma_passages_fix_grid(first, second);
}

/// How many of `edges` walls are raised: the share `0.4 * complexity`,
/// rounded down.
pub fn obstacle_count(edges: u64, complexity: Complexity) -> (count: u64)
    ensures
        count == (edges * ((complexity.value() * 400_000) / 1_000_000)) / 1_000_000,
        count <= edges,
        complexity.value() == 0 ==> count == 0,
{
    let density = complexity.scaled(0, 400_000);
    if density == 0 {
        assert(edges * 0 == 0);
        return 0;
    }
    let whole: u64 = edges / 1_000_000;
    let rest: u64 = edges % 1_000_000;
    proof {
        assert(whole * 1_000_000 <= edges);
        assert(0 <= whole * density <= whole * 400_000) by (nonlinear_arith)
            requires
                0 <= density <= 400_000,
                0 <= whole,
        ;
        assert(0 <= rest * density <= 1_000_000 * 400_000) by (nonlinear_arith)
            requires
                0 <= density <= 400_000,
                0 <= rest <= 1_000_000,
        ;
        assert((edges * density) / 1_000_000 == whole * density + (rest * density) / 1_000_000)
            by (nonlinear_arith)
            requires
                edges == whole * 1_000_000 + rest,
                0 <= rest < 1_000_000,
                0 <= density,
                0 <= whole,
        ;
        assert((rest * density) / 1_000_000 <= rest) by (nonlinear_arith)
            requires
                0 <= density <= 1_000_000,
                0 <= rest,
        ;
    }
    whole * (density as u64) + (rest * (density as u64)) / 1_000_000
}

/// The cells before `upto`, row by row, are in one set with every cell
/// they have a passage to.
pub open spec fn merged_before(g: Grid, sets: &UnionFind, width: u32, upto: (u32, u32)) -> bool {
    forall|a: (u32, u32), b: (u32, u32)| #[trigger]
        g.open_between(a, b) && row_major_before(a, upto) ==> sets.same_set(
            index_of(width, a),
            index_of(width, b),
        )
}

/// A merge keeps in one set what was in one set.
proof fn lemma_merged_kept(
    g: Grid,
    before: &UnionFind,
    after: &UnionFind,
    width: u32,
    height: u32,
    upto: (u32, u32),
)
    requires
        g.width == width,
        g.height == height,
        before.len() == width * height,
        merged_before(g, before, width, upto),
        forall|i: int, j: int|
            0 <= i < before.len() && 0 <= j < before.len() && before.same_set(i, j)
                ==> #[trigger] after.same_set(i, j),
    ensures
        merged_before(g, after, width, upto),
{
    assert forall|a: (u32, u32), b: (u32, u32)| #[trigger]
        g.open_between(a, b) && row_major_before(a, upto) implies after.same_set(
        index_of(width, a),
        index_of(width, b),
    ) by {
        lemma_index_bound(width, height, a);
        lemma_index_bound(width, height, b);
        assert(before.same_set(index_of(width, a), index_of(width, b)));
    }
}

/// The sets of cells that passages join, each cell named by its position
/// when the grid is read row by row: two cells are in one set exactly when
/// they are connected. Cells with a passage between them are in one set,
/// and the cells of one set are connected.
fn join_accessible(maze: &Maze, width: u32, height: u32) -> (sets: UnionFind)
    requires
        valid_size(width, height),
        maze.wf(),
        maze@.width == width,
        maze@.height == height,
    ensures
        sets.wf(),
        sets.len() == width * height,
        sets_joined(maze@, &sets, width),
        passages_merged(maze@, &sets, width),
{
    let total = cell_count(width, height);
    let mut sets = UnionFind::new(total as usize);
    proof {
        lemma_fresh_joined(maze@, &sets, width, height);
    }
    let mut y: u32 = 0;
    while y < height
        invariant
            valid_size(width, height),
            maze.wf(),
            maze@.width == width,
            maze@.height == height,
            sets.wf(),
            sets.len() == width * height,
            sets_joined(maze@, &sets, width),
            0 <= y <= height,
            merged_before(maze@, &sets, width, (0u32, y)),
        decreases height - y,
    {
        let mut x: u32 = 0;
        while x < width
            invariant
                valid_size(width, height),
                maze.wf(),
                maze@.width == width,
                maze@.height == height,
                sets.wf(),
                sets.len() == width * height,
                sets_joined(maze@, &sets, width),
                0 <= y < height,
                0 <= x <= width,
                merged_before(maze@, &sets, width, (x, y)),
            decreases width - x,
        {
            let here = cell_index(width, height, x, y);
            let around = maze.get_accessible_neighbors(x, y);
            let mut t: usize = 0;
            while t < around.len()
                invariant
                    valid_size(width, height),
                    maze.wf(),
                    maze@.width == width,
                    maze@.height == height,
                    sets.wf(),
                    sets.len() == width * height,
                    sets_joined(maze@, &sets, width),
                    x < width,
                    y < height,
                    here == index_of(width, (x, y)),
                    here < width * height,
                    0 <= t <= around@.len(),
                    forall|u: int|
                        0 <= u < around@.len() ==> maze@.open_between((x, y), #[trigger] around@[u]),
                    merged_before(maze@, &sets, width, (x, y)),
                    forall|u: int|
                        0 <= u < t ==> sets.same_set(
                            here as int,
                            index_of(width, #[trigger] around@[u]),
                        ),
                decreases around@.len() - t,
            {
                let (nx, ny) = around[t];
                assert(maze@.open_between((x, y), around@[t as int]));
                let there = cell_index(width, height, nx, ny);
                let ghost before = sets;
                sets.union(here, there);
                proof {
                    lemma_connected_refl(maze@, (x, y));
                    lemma_connected_step(maze@, (x, y), (x, y), (nx, ny));
                    lemma_union_joined(
                        maze@,
                        maze@,
                        &before,
                        &sets,
                        width,
                        height,
                        (x, y),
                        (nx, ny),
                    );
                    lemma_union_merges(&before, &sets, here as int, there as int);
                    lemma_merged_kept(maze@, &before, &sets, width, height, (x, y));
                    assert forall|u: int| 0 <= u < t + 1 implies sets.same_set(
                        here as int,
                        index_of(width, #[trigger] around@[u]),
                    ) by {
                        if u < t {
                            lemma_index_bound(width, height, around@[u]);
                            assert(before.same_set(here as int, index_of(width, around@[u])));
                        }
                    }
                }
                t += 1;
            }
            proof {
                assert forall|a: (u32, u32), b: (u32, u32)| #[trigger]
                    maze@.open_between(a, b) && row_major_before(
                        a,
                        ((x + 1) as u32, y),
                    ) implies sets.same_set(index_of(width, a), index_of(width, b)) by {
                    if a == (x, y) {
                        assert(around@.contains(b));
                        let u = choose|u: int| 0 <= u < around@.len() && around@[u] == b;
                        assert(sets.same_set(here as int, index_of(width, around@[u])));
                    } else {
                        assert(row_major_before(a, (x, y)));
                    }
                }
            }
            x += 1;
        }
        proof {
            assert forall|a: (u32, u32), b: (u32, u32)| #[trigger]
                maze@.open_between(a, b) && row_major_before(
                    a,
                    (0u32, (y + 1) as u32),
                ) implies sets.same_set(index_of(width, a), index_of(width, b)) by {
                assert(row_major_before(a, (x, y)));
            }
        }
        y += 1;
    }
    proof {
        assert forall|a: (u32, u32), b: (u32, u32)| #[trigger]
            maze@.open_between(a, b) implies sets.same_set(
            index_of(width, a),
            index_of(width, b),
        ) by {
            assert(row_major_before(a, (0u32, y)));
        }
    }
    sets
}

/// The representative of the set of every position.
fn all_roots(sets: &mut UnionFind, total: usize) -> (roots: Vec<usize>)
    requires
        old(sets).wf(),
        old(sets).len() == total,
    ensures
        final(sets).wf(),
        final(sets).len() == total,
        forall|i: int| 0 <= i < total ==> final(sets).root(i) == old(sets).root(i),
        roots@.len() == total,
        forall|i: int| 0 <= i < total ==> #[trigger] roots@[i] == old(sets).root(i),
        forall|i: int| 0 <= i < total ==> #[trigger] roots@[i] < total,
{
    let mut roots: Vec<usize> = Vec::new();
    let mut i: usize = 0;
    while i < total
        invariant
            sets.wf(),
            sets.len() == total,
            forall|j: int| 0 <= j < total ==> sets.root(j) == old(sets).root(j),
            0 <= i <= total,
            roots@.len() == i,
            forall|j: int| 0 <= j < i ==> #[trigger] roots@[j] == old(sets).root(j),
            forall|j: int| 0 <= j < i ==> #[trigger] roots@[j] < total,
        decreases total - i,
    {
        proof {
            sets.lemma_root_is_element(i as int);
        }
        let root = sets.find(i);
        roots.push(root);
        i += 1;
    }
    roots
}

/// The cells of every group have the representative of the first.
pub open spec fn grouped_by(groups: Seq<Vec<(u32, u32)>>, roots: Seq<usize>, width: u32) -> bool {
    forall|k: int, j: int|
        0 <= k < groups.len() && 0 <= j < groups[k]@.len() ==> roots[index_of(
            width,
            #[trigger] groups[k]@[j],
        )] == roots[index_of(width, groups[k]@[0])]
}

/// The cells of the grid grouped by the representative of their set, the
/// groups in the order in which their first cell stands when the grid is
/// read row by row, and the cells of each group in that order too.
fn group_by_root(roots: &Vec<usize>, width: u32, height: u32) -> (groups: Vec<Vec<(u32, u32)>>)
    requires
        valid_size(width, height),
        roots@.len() == width * height,
        forall|i: int| 0 <= i < roots@.len() ==> #[trigger] roots@[i] < roots@.len(),
    ensures
        groups_inside(groups@, width as nat, height as nat),
        forall|k: int| 0 <= k < groups@.len() ==> (#[trigger] groups@[k])@.len() >= 1,
        grouped_by(groups@, roots@, width),
        forall|c: (u32, u32)| c.0 < width && c.1 < height ==> listed_in(groups@, c),
{
    let total = cell_count(width, height) as usize;
    let mut slot: Vec<Option<usize>> = Vec::new();
    let mut i: usize = 0;
    while i < total
        invariant
            0 <= i <= total,
            slot@.len() == i,
            forall|k: int| 0 <= k < i ==> slot@[k] is None,
        decreases total - i,
    {
        slot.push(None);
        i += 1;
    }
    let mut groups: Vec<Vec<(u32, u32)>> = Vec::new();
    let mut y: u32 = 0;
    while y < height
        invariant
            valid_size(width, height),
            total == width * height,
            roots@.len() == total,
            forall|i: int| 0 <= i < roots@.len() ==> #[trigger] roots@[i] < roots@.len(),
            slot@.len() == total,
            slots_point(slot@, groups@, roots@, width, height),
            groups_inside(groups@, width as nat, height as nat),
            forall|k: int| 0 <= k < groups@.len() ==> (#[trigger] groups@[k])@.len() >= 1,
            grouped_by(groups@, roots@, width),
            forall|c: (u32, u32)| c.0 < width && c.1 < y ==> listed_in(groups@, c),
            0 <= y <= height,
        decreases height - y,
    {
        let mut x: u32 = 0;
        while x < width
            invariant
                valid_size(width, height),
                total == width * height,
                roots@.len() == total,
                forall|i: int| 0 <= i < roots@.len() ==> #[trigger] roots@[i] < roots@.len(),
                slot@.len() == total,
                slots_point(slot@, groups@, roots@, width, height),
                groups_inside(groups@, width as nat, height as nat),
                forall|k: int| 0 <= k < groups@.len() ==> (#[trigger] groups@[k])@.len() >= 1,
                grouped_by(groups@, roots@, width),
                forall|c: (u32, u32)|
                    c.0 < width && (c.1 < y || (c.1 == y && c.0 < x)) ==> listed_in(groups@, c),
                0 <= y < height,
                0 <= x <= width,
            decreases width - x,
        {
            let here = cell_index(width, height, x, y);
            let root = roots[here];
            let ghost before = groups@;
            let ghost slot_before = slot@;
            let ghost put: (int, int) = (0, 0);
            let place = slot[root];
            if place.is_none() {
                slot[root] = Some(groups.len());
                let mut fresh: Vec<(u32, u32)> = Vec::new();
                fresh.push((x, y));
                groups.push(fresh);
                proof {
                    let at = before.len() as int;
                    put = (at, 0);
                    assert(groups@[at]@ =~= seq![(x, y)]);
                    assert forall|k: int| 0 <= k < before.len() implies #[trigger] groups@[k]
                        == before[k] by {}
                    lemma_groups_kept(
                        before,
                        groups@,
                        roots@,
                        slot_before,
                        slot@,
                        width,
                        height,
                        (x, y),
                        at,
                    );
                }
            } else {
                let at = place.unwrap();
                groups[at].push((x, y));
                proof {
                    put = (at as int, before[at as int]@.len() as int);
                    assert(groups@[at as int]@ == before[at as int]@.push((x, y)));
                    assert forall|k: int| 0 <= k < before.len() && k != at implies #[trigger] groups@[k]
                        == before[k] by {}
                    lemma_groups_kept(
                        before,
                        groups@,
                        roots@,
                        slot_before,
                        slot@,
                        width,
                        height,
                        (x, y),
                        at as int,
                    );
                }
            }
            proof {
                assert forall|c: (u32, u32)|
                    c.0 < width && (c.1 < y || (c.1 == y && c.0 < x + 1)) implies listed_in(
                    groups@,
                    c,
                ) by {
                    if c != (x, y) {
                        assert(listed_in(before, c));
                        let (k, j) = choose|k: int, j: int|
                            0 <= k < before.len() && 0 <= j < before[k]@.len()
                                && #[trigger] before[k]@[j] == c;
                        if k != put.0 {
                            assert(groups@[k] == before[k]);
                        }
                        assert(groups@[k]@[j] == c);
                    } else {
                        assert(groups@[put.0]@[put.1] == c);
                    }
                }
            }
            x += 1;
        }
        y += 1;
    }
    groups
}

/// Every slot in use names a group whose cells have the representative
/// that the slot stands for.
spec fn slots_point(
    slot: Seq<Option<usize>>,
    groups: Seq<Vec<(u32, u32)>>,
    roots: Seq<usize>,
    width: u32,
    height: u32,
) -> bool {
    forall|r: int|
        0 <= r < slot.len() && (#[trigger] slot[r]) is Some ==> {
            let k = slot[r]->Some_0 as int;
            &&& k < groups.len()
            &&& groups[k]@.len() >= 1
            &&& roots[index_of(width, groups[k]@[0])] == r
        }
}

/// What a step of grouping keeps: the cell `c`, whose representative the
/// slot stands for, joined the group at `at`, an old one or a new one at
/// the end, and nothing else changed.
proof fn lemma_groups_kept(
    before: Seq<Vec<(u32, u32)>>,
    after: Seq<Vec<(u32, u32)>>,
    roots: Seq<usize>,
    slot_before: Seq<Option<usize>>,
    slot_after: Seq<Option<usize>>,
    width: u32,
    height: u32,
    c: (u32, u32),
    at: int,
)
    requires
        slots_point(slot_before, before, roots, width, height),
        groups_inside(before, width as nat, height as nat),
        grouped_by(before, roots, width),
        forall|k: int| 0 <= k < before.len() ==> (#[trigger] before[k])@.len() >= 1,
        slot_after.len() == slot_before.len(),
        c.0 < width,
        c.1 < height,
        0 <= index_of(width, c) < roots.len(),
        0 <= roots[index_of(width, c)] < slot_before.len(),
        0 <= at <= before.len(),
        at <= usize::MAX,
        at == before.len() ==> {
            &&& after.len() == before.len() + 1
            &&& after[at]@ == seq![c]
            &&& slot_before[roots[index_of(width, c)] as int] is None
            &&& slot_after[roots[index_of(width, c)] as int] == Some(at as usize)
            &&& at <= usize::MAX
            &&& forall|q: int|
                0 <= q < slot_before.len() && q != roots[index_of(width, c)] ==> slot_after[q]
                    == slot_before[q]
        },
        at < before.len() ==> {
            &&& after.len() == before.len()
            &&& after[at]@ == before[at]@.push(c)
            &&& slot_before[roots[index_of(width, c)] as int] == Some(at as usize)
            &&& slot_after == slot_before
        },
        forall|k: int| 0 <= k < before.len() && k != at ==> #[trigger] after[k] == before[k],
    ensures
        slots_point(slot_after, after, roots, width, height),
        groups_inside(after, width as nat, height as nat),
        grouped_by(after, roots, width),
        forall|k: int| 0 <= k < after.len() ==> (#[trigger] after[k])@.len() >= 1,
{
    let r = roots[index_of(width, c)] as int;
    assert forall|k: int| 0 <= k < after.len() implies (#[trigger] after[k])@.len() >= 1 by {
        if k != at {
            assert(after[k] == before[k]);
        } else if at < before.len() {
            assert(before[at]@.len() >= 1);
        }
    }
    assert forall|k: int, j: int| 0 <= k < after.len() && 0 <= j < after[k]@.len() implies (
    #[trigger] after[k]@[j]).0 < width && after[k]@[j].1 < height && roots[index_of(
        width,
        after[k]@[j],
    )] == roots[index_of(width, after[k]@[0])] by {
        if k != at {
            assert(after[k] == before[k]);
            assert(before[k]@[j].0 < width);
            assert(roots[index_of(width, before[k]@[j])] == roots[index_of(
                width,
                before[k]@[0],
            )]);
        } else if at == before.len() {
            assert(after[at]@[j] == c);
            assert(after[at]@[0] == c);
        } else if at < before.len() {
            assert(slot_before[r] is Some);
            assert(before[at]@.len() >= 1);
            assert(after[at]@[0] == before[at]@[0]);
            assert(roots[index_of(width, before[at]@[0])] == r);
            if j == before[at]@.len() {
                assert(after[at]@[j] == c);
            }
            if j < before[at]@.len() {
                assert(after[at]@[j] == before[at]@[j]);
                assert(before[at]@[j].0 < width);
                assert(roots[index_of(width, before[at]@[j])] == roots[index_of(
                    width,
                    before[at]@[0],
                )]);
            }
        }
    }
    assert forall|q: int| 0 <= q < slot_after.len() && (#[trigger] slot_after[q]) is Some implies {
        let k = slot_after[q]->Some_0 as int;
        &&& k < after.len()
        &&& after[k]@.len() >= 1
        &&& roots[index_of(width, after[k]@[0])] == q
    } by {
        if at == before.len() && q == r {
        } else {
            assert(slot_before[q] is Some);
            let k = slot_before[q]->Some_0 as int;
            if k != at {
                assert(after[k] == before[k]);
            } else {
                assert(after[at]@[0] == before[at]@[0]);
            }
        }
    }
}

/// Groups that hold every cell, each connected in itself and linked to the
/// next, span the grid.
proof fn lemma_stitched_spans(g: Grid, groups: Seq<Vec<(u32, u32)>>)
    requires
        g.wf(),
        forall|k: int| 0 <= k < groups.len() ==> (#[trigger] groups[k])@.len() >= 1,
        forall|k: int, j: int|
            0 <= k < groups.len() && 0 <= j < groups[k]@.len() ==> g.connected(
                groups[k]@[0],
                #[trigger] groups[k]@[j],
            ),
        forall|k: int|
            0 <= k < groups.len() - 1 ==> linked(g, (#[trigger] groups[k])@, groups[k + 1]@),
        forall|c: (u32, u32)| g.in_bounds(c) ==> listed_in(groups, c),
    ensures
        g.spanning(),
{
    assert(listed_in(groups, g.entry()));
    let (ek, ej) = choose|k: int, j: int|
        0 <= k < groups.len() && 0 <= j < groups[k]@.len() && #[trigger] groups[k]@[j]
            == g.entry();
    let first = groups[0]@[0];
    lemma_chain(g, groups, ek);
    assert(g.connected(groups[ek]@[0], groups[ek]@[ej]));
    lemma_connected_trans(g, first, groups[ek]@[0], g.entry());
    lemma_connected_sym(g, first, g.entry());
    assert forall|c: (u32, u32)| g.in_bounds(c) implies #[trigger] g.connected(g.entry(), c) by {
        assert(listed_in(groups, c));
        let (k, j) = choose|k: int, j: int|
            0 <= k < groups.len() && 0 <= j < groups[k]@.len() && #[trigger] groups[k]@[j] == c;
        lemma_chain(g, groups, k);
        assert(g.connected(groups[k]@[0], groups[k]@[j]));
        lemma_connected_trans(g, first, groups[k]@[0], c);
        lemma_connected_trans(g, g.entry(), first, c);
    }
}

proof fn lemma_chain(g: Grid, groups: Seq<Vec<(u32, u32)>>, k: int)
    requires
        g.wf(),
        0 <= k < groups.len(),
        forall|i: int| 0 <= i < groups.len() ==> (#[trigger] groups[i])@.len() >= 1,
        forall|i: int, j: int|
            0 <= i < groups.len() && 0 <= j < groups[i]@.len() ==> g.connected(
                groups[i]@[0],
                #[trigger] groups[i]@[j],
            ),
        forall|i: int|
            0 <= i < groups.len() - 1 ==> linked(g, (#[trigger] groups[i])@, groups[i + 1]@),
    ensures
        g.connected(groups[0]@[0], groups[k]@[0]),
    decreases k,
{
    if k == 0 {
        assert(g.connected(groups[0]@[0], groups[0]@[0]));
    } else {
        lemma_chain(g, groups, k - 1);
        let near = groups[k - 1]@;
        let far = groups[k]@;
        assert(linked(g, near, groups[k - 1 + 1]@));
        let (p, q) = choose|p: (u32, u32), q: (u32, u32)|
            near.contains(p) && far.contains(q) && g.connected(p, q);
        let i = choose|i: int| 0 <= i < near.len() && near[i] == p;
        let j = choose|j: int| 0 <= j < far.len() && far[j] == q;
        assert(g.connected(groups[k - 1]@[0], groups[k - 1]@[i]));
        assert(g.connected(groups[k]@[0], groups[k]@[j]));
        lemma_connected_sym(g, far[0], q);
        lemma_connected_trans(g, groups[0]@[0], near[0], p);
        lemma_connected_trans(g, groups[0]@[0], p, q);
        lemma_connected_trans(g, groups[0]@[0], q, far[0]);
    }
}

/// The step between `p` and `q` crosses the wall at position `i` of
/// `walls`.
pub open spec fn wall_at(
    walls: Seq<(u32, u32, u32, u32)>,
    i: int,
    p: (u32, u32),
    q: (u32, u32),
) -> bool {
    0 <= i < walls.len() && same_step(p, q, (walls[i].0, walls[i].1), (walls[i].2, walls[i].3))
}

/// The step between `p` and `q` crosses one of the first `upto` walls of
/// `walls`.
pub open spec fn walled_off(
    walls: Seq<(u32, u32, u32, u32)>,
    upto: int,
    p: (u32, u32),
    q: (u32, u32),
) -> bool {
    exists|i: int| i < upto && #[trigger] wall_at(walls, i, p, q)
}

/// How many walls are raised when `count` are asked for and `len` are
/// listed.
pub open spec fn raised_count(count: u64, len: nat) -> int {
    if count <= len {
        count as int
    } else {
        len as int
    }
}

/// Raises the first `count` walls of `walls`, or all of them where there
/// are fewer. The passages afterwards are those from before that cross
/// none of these walls.
fn raise_walls(
    maze: &mut Maze,
    walls: &Vec<(u32, u32, u32, u32)>,
    count: u64,
)
    requires
        old(maze).wf(),
    ensures
        final(maze).wf(),
        final(maze)@.width == old(maze)@.width,
        final(maze)@.height == old(maze)@.height,
        final(maze)@.passages_within(old(maze)@),
        count == 0 ==> final(maze)@ == old(maze)@,
        forall|p: (u32, u32), q: (u32, u32)| #[trigger]
            final(maze)@.open_between(p, q) <==> old(maze)@.open_between(p, q) && !walled_off(
                walls@,
                raised_count(count, walls@.len()),
                p,
                q,
            ),
{
    let mut i: usize = 0;
    proof {
        assert forall|p: (u32, u32), q: (u32, u32)| !#[trigger] walled_off(walls@, 0, p, q) by {
            if walled_off(walls@, 0, p, q) {
                let k = choose|k: int| k < 0 && #[trigger] wall_at(walls@, k, p, q);
            }
        }
    }
    while i < walls.len() && (i as u64) < count
        invariant
            maze.wf(),
            maze@.width == old(maze)@.width,
            maze@.height == old(maze)@.height,
            maze@.passages_within(old(maze)@),
            0 <= i <= walls@.len(),
            i <= count,
            count == 0 ==> maze@ == old(maze)@,
            forall|p: (u32, u32), q: (u32, u32)| #[trigger]
                maze@.open_between(p, q) <==> old(maze)@.open_between(p, q) && !walled_off(
                    walls@,
                    i as int,
                    p,
                    q,
                ),
        decreases walls@.len() - i,
    {
        let (x1, y1, x2, y2) = walls[i];
        let ghost before = maze@;
        maze.add_wall(x1, y1, x2, y2);
        proof {
            lemma_wall_up(before, (x1, y1), (x2, y2));
            assert forall|p: (u32, u32), q: (u32, u32)| #[trigger]
                maze@.open_between(p, q) <==> old(maze)@.open_between(p, q) && !walled_off(
                    walls@,
                    i + 1,
                    p,
                    q,
                ) by {
                assert(before.open_between(p, q) <==> old(maze)@.open_between(p, q) && !walled_off(
                    walls@,
                    i as int,
                    p,
                    q,
                ));
                if walled_off(walls@, i as int, p, q) {
                    let k = choose|k: int| k < i && #[trigger] wall_at(walls@, k, p, q);
                    assert(wall_at(walls@, k, p, q));
                }
                if wall_at(walls@, i as int, p, q) {
                    assert(walled_off(walls@, i + 1, p, q));
                }
                if walled_off(walls@, i + 1, p, q) {
                    let k = choose|k: int| k < i + 1 && #[trigger] wall_at(walls@, k, p, q);
                    if k < i {
                        assert(walled_off(walls@, i as int, p, q));
                    }
                }
            }
        }
        i += 1;
    }
}

impl MazeGenerator for RandomObstacle {
    /// Every cell can be reached from the entry. At complexity zero no
    /// wall stands between two cells.
    open spec fn keeps(&self, maze: Grid, complexity: Complexity) -> bool {
        &&& maze.spanning()
        &&& complexity.value() == 0 ==> all_open(maze)
    }

    /// Opens the whole grid, raises a share of its walls chosen by a
    /// shuffle, groups the cells that still hang together, stitches the
    /// groups and repairs connectivity.
    fn generate(&self, width: u32, height: u32, complexity: Complexity, seed: Option<u64>) -> (maze:
        Maze) {
        let mut maze = Maze::new(width, height);
        let mut rng = MazeRng::new(seed);
        open_all(&mut maze);
        let ghost opened = maze@;
        let mut walls = all_edges(width, height);
        let count = obstacle_count(walls.len() as u64, complexity);
        if complexity.positive() {
            rng.shuffle(&mut walls);
        }
        raise_walls(&mut maze, &walls, count);
        let mut sets = join_accessible(&maze, width, height);
        let ghost joined = sets;
        let ghost walled = maze@;
        let roots = all_roots(&mut sets, cell_count(width, height) as usize);
        let groups = group_by_root(&roots, width, height);
        maze.stitch_components(&groups);
        proof {
            assert forall|k: int, j: int|
                0 <= k < groups@.len() && 0 <= j < groups@[k]@.len() implies maze@.connected(
                groups@[k]@[0],
                #[trigger] groups@[k]@[j],
            ) by {
                let a = groups@[k]@[0];
                let b = groups@[k]@[j];
                assert(a.0 < width && a.1 < height);
                assert(b.0 < width && b.1 < height);
                lemma_index_bound(width, height, a);
                lemma_index_bound(width, height, b);
                assert(roots@[index_of(width, b)] == roots@[index_of(width, a)]);
                assert(joined.same_set(index_of(width, a), index_of(width, b)));
                lemma_connected_grows(walled, maze@, a, b);
            }
            assert forall|k: int| 0 <= k < groups@.len() - 1 implies linked(
                maze@,
                (#[trigger] groups@[k])@,
                groups@[k + 1]@,
            ) by {
                assert(groups@[k]@.len() >= 1);
                assert(groups@[k + 1]@.len() >= 1);
            }
            lemma_stitched_spans(maze@, groups@);
            lemma_spanning_solvable(maze@);
            if complexity.value() == 0 {
                assert(walled == opened);
                assert forall|a: (u32, u32), b: (u32, u32)|
                    maze@.in_bounds(a) && maze@.in_bounds(b) && #[trigger] adjacent(
                        a,
                        b,
                    ) implies maze@.open_between(a, b) by {
                    assert(opened.open_between(a, b));
                }
            }
        }
        maze.ensure_connectivity();
        maze
    }
}

} // verus!
