//! Wilson's algorithm: loop-erased random walks from cells outside the
//! tree, each spliced into the tree where it arrives.

use vstd::prelude::*;
use crate::algorithms::hunt_and_kill::hunt_out;
use crate::algorithms::{
    all_inside, cell_count, pick_step, same_cell, valid_size, MazeGenerator,
};
use crate::cell_grid::CellSet;
use crate::complexity::Complexity;
use crate::grid::{adjacent, lemma_tree_grows, lemma_walled_passages, lonely, Grid};
use crate::maze::Maze;
use crate::reach::{lemma_connected_refl, lemma_rooted_grows, lemma_spanning_solvable, rooted};
use crate::rng::MazeRng;

verus! {

/// Wilson's algorithm, which splices loop-erased random walks into a tree.
pub struct Wilsons;

/// How many steps all walks together may take for every cell of the grid.
pub const STEPS_PER_CELL: u64 = 1000;

/// `set` holds exactly the cells of `path`, and `path` visits no cell
/// twice.
pub open spec fn tracks(path: Seq<(u32, u32)>, set: Set<(u32, u32)>) -> bool {
    &&& path.no_duplicates()
    &&& forall|c: (u32, u32)|
        #![trigger set.contains(c)]
        #![trigger path.contains(c)]
        set.contains(c) <==> path.contains(c)
}

/// Erases the loop that stepping back onto `next` would close: the walk is
/// cut back to its visit of `next`, and the cells cut off leave the set.
pub fn erase_loop(
    path: &mut Vec<(u32, u32)>,
    walk_set: &mut CellSet,
    next: (u32, u32),
    width: u32,
    height: u32,
)
    requires
        old(walk_set).wf(),
        old(walk_set).cols() == width,
        old(walk_set).lines() == height,
        all_inside(old(path)@, width, height),
        tracks(old(path)@, old(walk_set)@),
        old(path)@.contains(next),
    ensures
        final(walk_set).wf(),
        final(walk_set).cols() == width,
        final(walk_set).lines() == height,
        all_inside(final(path)@, width, height),
        tracks(final(path)@, final(walk_set)@),
        1 <= final(path)@.len() <= old(path)@.len(),
        final(path)@ == old(path)@.subrange(0, final(path)@.len() as int),
        final(path)@[final(path)@.len() - 1] == next,
        final(path)@[0] == old(path)@[0],
{
    proof {
        assert(path@.subrange(0, path@.len() as int) =~= path@);
    }
    while !same_cell(path[path.len() - 1], next)
        invariant
            walk_set.wf(),
            walk_set.cols() == width,
            walk_set.lines() == height,
            all_inside(path@, width, height),
            tracks(path@, walk_set@),
            path@.contains(next),
            1 <= path@.len() <= old(path)@.len(),
            path@ == old(path)@.subrange(0, path@.len() as int),
            path@[0] == old(path)@[0],
        decreases path@.len(),
    {
        let ghost before = path@;
        let ghost set_before = walk_set@;
        let back = path.pop().unwrap();
        walk_set.remove(back.0, back.1);
        proof {
            let at = choose|k: int| 0 <= k < before.len() && before[k] == next;
            assert(path@ =~= before.drop_last());
            assert(path@ =~= old(path)@.subrange(0, path@.len() as int));
            assert(path@[at] == next);
            assert forall|c: (u32, u32)|
                #![trigger walk_set@.contains(c)]
                #![trigger path@.contains(c)]
                walk_set@.contains(c) <==> path@.contains(c) by {
                if path@.contains(c) {
                    let k = choose|k: int| 0 <= k < path@.len() && path@[k] == c;
                    assert(before[k] == c);
                    assert(before.contains(c));
                }
                if walk_set@.contains(c) {
                    assert(set_before.contains(c));
                    assert(before.contains(c));
                    let k = choose|k: int| 0 <= k < before.len() && before[k] == c;
                    assert(path@[k] == c);
                }
            }
        }
    }
}

/// Consecutive cells of `path` are neighbours on the grid.
pub open spec fn chained(path: Seq<(u32, u32)>) -> bool {
    forall|i: int| 0 <= i < path.len() - 1 ==> adjacent(#[trigger] path[i], path[i + 1])
}

/// No cell of `path` but the last is in `tree`.
pub open spec fn arrives(path: Seq<(u32, u32)>, tree: Set<(u32, u32)>) -> bool {
    forall|j: int| 0 <= j < path.len() - 1 ==> !tree.contains(#[trigger] path[j])
}

/// `c` stands in `path` at position `from` or later.
pub open spec fn spliced(path: Seq<(u32, u32)>, from: int, c: (u32, u32)) -> bool {
    exists|j: int| from <= j < path.len() && #[trigger] path[j] == c
}

/// Splices a walk that has arrived at the tree: from the cell of arrival
/// back to the start, the wall between each cell and the one before it is
/// opened and that cell joins the tree. The set of the walk is emptied.
/// The tree grows by one passage for every cell it gains.
fn splice(
    maze: &mut Maze,
    in_tree: &mut CellSet,
    walk_set: &mut CellSet,
    path: &Vec<(u32, u32)>,
    width: u32,
    height: u32,
    Ghost(origin): Ghost<(u32, u32)>,
)
    requires
        old(maze).wf(),
        old(maze)@.width == width,
        old(maze)@.height == height,
        old(in_tree).wf(),
        old(in_tree).cols() == width,
        old(in_tree).lines() == height,
        old(walk_set).wf(),
        old(walk_set).cols() == width,
        old(walk_set).lines() == height,
        all_inside(path@, width, height),
        tracks(path@, old(walk_set)@),
        path@.len() >= 1,
        chained(path@),
        arrives(path@, old(in_tree)@),
        old(in_tree)@.contains(path@[path@.len() - 1]),
        rooted(old(maze)@, old(in_tree)@, origin),
        lonely(old(maze)@, old(in_tree)@),
    ensures
        final(maze).wf(),
        final(maze)@.width == width,
        final(maze)@.height == height,
        final(in_tree).wf(),
        final(in_tree).cols() == width,
        final(in_tree).lines() == height,
        final(walk_set).wf(),
        final(walk_set).cols() == width,
        final(walk_set).lines() == height,
        final(walk_set)@ == Set::<(u32, u32)>::empty(),
        forall|c: (u32, u32)|
            #![trigger final(in_tree)@.contains(c)]
            #![trigger old(in_tree)@.contains(c)]
            #![trigger path@.contains(c)]
            final(in_tree)@.contains(c) <==> old(in_tree)@.contains(c) || path@.contains(c),
        final(in_tree).count() + 1 == old(in_tree).count() + path@.len(),
        final(in_tree).room() + path@.len() == old(in_tree).room() + 1,
        final(maze)@.passages().len() + old(in_tree).count() == old(maze)@.passages().len()
            + final(in_tree).count(),
        rooted(final(maze)@, final(in_tree)@, origin),
        lonely(final(maze)@, final(in_tree)@),
{
    let n = path.len();
    let mut k: usize = n - 1;
    walk_set.remove(path[k].0, path[k].1);
    proof {
        assert forall|c: (u32, u32)|
            in_tree@.contains(c) <==> old(in_tree)@.contains(c) || spliced(path@, k as int, c) by {
            if spliced(path@, k as int, c) {
                assert(c == path@[k as int]);
            }
        }
    }
    while k > 0
        invariant
            n == path@.len(),
            0 <= k < n,
            maze.wf(),
            maze@.width == width,
            maze@.height == height,
            in_tree.wf(),
            in_tree.cols() == width,
            in_tree.lines() == height,
            walk_set.wf(),
            walk_set.cols() == width,
            walk_set.lines() == height,
            all_inside(path@, width, height),
            path@.no_duplicates(),
            chained(path@),
            arrives(path@, old(in_tree)@),
            forall|c: (u32, u32)|
                in_tree@.contains(c) <==> old(in_tree)@.contains(c) || spliced(path@, k as int, c),
            forall|c: (u32, u32)| #[trigger] walk_set@.contains(c) ==> path@.contains(c),
            forall|j: int| k <= j < n ==> !walk_set@.contains(#[trigger] path@[j]),
            rooted(maze@, in_tree@, origin),
            lonely(maze@, in_tree@),
            maze@.passages().len() + old(in_tree).count() == old(maze)@.passages().len()
                + in_tree.count(),
            in_tree.count() + k + 1 == old(in_tree).count() + n,
            in_tree.room() + n == old(in_tree).room() + k + 1,
        decreases k,
    {
        let (fx, fy) = path[k];
        let (tx, ty) = path[k - 1];
        let ghost before = maze@;
        let ghost tree_before = in_tree@;
        proof {
            assert(adjacent(path@[k - 1], path@[k - 1 + 1]));
            assert(spliced(path@, k as int, (fx, fy)));
            if tree_before.contains((tx, ty)) {
                assert(!old(in_tree)@.contains(path@[k - 1]));
                let j = choose|j: int| k <= j < path@.len() && #[trigger] path@[j] == (tx, ty);
                assert(path@[j] == path@[k - 1]);
            }
        }
        maze.remove_wall(tx, ty, fx, fy);
        in_tree.insert(tx, ty);
        walk_set.remove(tx, ty);
        proof {
            lemma_rooted_grows(before, maze@, tree_before, origin, (fx, fy), (tx, ty));
            lemma_tree_grows(before, maze@, tree_before, (fx, fy), (tx, ty));
            assert forall|c: (u32, u32)|
                in_tree@.contains(c) <==> old(in_tree)@.contains(c) || spliced(
                    path@,
                    k as int - 1,
                    c,
                ) by {
                if spliced(path@, k as int - 1, c) {
                    let j = choose|j: int| k - 1 <= j < path@.len() && #[trigger] path@[j] == c;
                    if j >= k {
                        assert(spliced(path@, k as int, c));
                    }
                }
                if spliced(path@, k as int, c) {
                    let j = choose|j: int| k <= j < path@.len() && #[trigger] path@[j] == c;
                    assert(spliced(path@, k as int - 1, c));
                }
                if c == (tx, ty) {
                    assert(path@[k - 1] == c);
                    assert(spliced(path@, k as int - 1, c));
                }
            }
        }
        k -= 1;
    }
    proof {
        assert forall|c: (u32, u32)| !walk_set@.contains(c) by {
            if walk_set@.contains(c) {
                let j = choose|j: int| 0 <= j < path@.len() && path@[j] == c;
                assert(!walk_set@.contains(path@[j]));
            }
        }
        assert(walk_set@ =~= Set::<(u32, u32)>::empty());
        assert forall|c: (u32, u32)|
            #![trigger in_tree@.contains(c)]
            #![trigger old(in_tree)@.contains(c)]
            #![trigger path@.contains(c)]
            in_tree@.contains(c) <==> old(in_tree)@.contains(c) || path@.contains(c) by {
            if spliced(path@, 0, c) {
                let j = choose|j: int| 0 <= j < path@.len() && #[trigger] path@[j] == c;
                assert(path@.contains(c));
            }
            if path@.contains(c) {
                let j = choose|j: int| 0 <= j < path@.len() && path@[j] == c;
                assert(spliced(path@, 0, c));
            }
        }
    }
}

/// The cells of the grid outside the tree, row by row.
fn outside_tree(in_tree: &CellSet, width: u32, height: u32) -> (list: Vec<(u32, u32)>)
    requires
        in_tree.wf(),
        in_tree.cols() == width,
        in_tree.lines() == height,
    ensures
        all_inside(list@, width, height),
        forall|i: int| 0 <= i < list@.len() ==> !in_tree@.contains(#[trigger] list@[i]),
        forall|c: (u32, u32)|
            c.0 < width && c.1 < height && !in_tree@.contains(c) ==> list@.contains(c),
{
    let mut list: Vec<(u32, u32)> = Vec::new();
    let mut y: u32 = 0;
    while y < height
        invariant
            in_tree.wf(),
            0 <= y <= height,
            all_inside(list@, width, height),
            forall|i: int| 0 <= i < list@.len() ==> !in_tree@.contains(#[trigger] list@[i]),
            forall|c: (u32, u32)|
                c.0 < width && c.1 < y && !in_tree@.contains(c) ==> list@.contains(c),
        decreases height - y,
    {
        let mut x: u32 = 0;
        while x < width
            invariant
                in_tree.wf(),
                0 <= y < height,
                0 <= x <= width,
                all_inside(list@, width, height),
                forall|i: int| 0 <= i < list@.len() ==> !in_tree@.contains(#[trigger] list@[i]),
                forall|c: (u32, u32)|
                    c.0 < width && (c.1 < y || (c.1 == y && c.0 < x)) && !in_tree@.contains(c)
                        ==> list@.contains(c),
            decreases width - x,
        {
            if !in_tree.contains(x, y) {
                let ghost before = list@;
                list.push((x, y));
                proof {
                    crate::seqs::lemma_push_contains(before, (x, y));
                }
            }
            x += 1;
        }
        y += 1;
    }
    list
}

/// What is left of `list` once the cells of the tree are taken out, in the
/// same order.
fn still_outside(list: &Vec<(u32, u32)>, in_tree: &CellSet, width: u32, height: u32) -> (rest: Vec<
    (u32, u32),
>)
    requires
        in_tree.wf(),
        all_inside(list@, width, height),
    ensures
        rest@ == list@.filter(|c: (u32, u32)| !in_tree@.contains(c)),
        all_inside(rest@, width, height),
        forall|i: int| 0 <= i < rest@.len() ==> !in_tree@.contains(#[trigger] rest@[i]),
{
    let ghost keep = |c: (u32, u32)| !in_tree@.contains(c);
    let mut rest: Vec<(u32, u32)> = Vec::new();
    let mut i: usize = 0;
    proof {
        assert(list@.take(0) =~= Seq::empty());
        reveal(Seq::filter);
    }
    while i < list.len()
        invariant
            in_tree.wf(),
            all_inside(list@, width, height),
            0 <= i <= list@.len(),
            keep == (|c: (u32, u32)| !in_tree@.contains(c)),
            rest@ == list@.take(i as int).filter(keep),
            all_inside(rest@, width, height),
            forall|k: int| 0 <= k < rest@.len() ==> !in_tree@.contains(#[trigger] rest@[k]),
        decreases list@.len() - i,
    {
        let c = list[i];
        proof {
            reveal(Seq::filter);
            assert(list@.take(i + 1).drop_last() =~= list@.take(i as int));
            assert(list@.take(i + 1).last() == c);
        }
        if !in_tree.contains(c.0, c.1) {
            rest.push(c);
        }
        i += 1;
    }
    proof {
        assert(list@.take(list@.len() as int) =~= list@);
    }
    rest
}

/// Builds the maze from loop-erased random walks. The tree starts as one
/// random cell; each walk starts at the first cell still outside it and is
/// spliced into the tree where it arrives. When the step budget is spent
/// the walk under way is dropped, and the cells still outside are joined
/// to the tree one by one, each to a neighbour already in it. The passages
/// form a tree on all cells.
fn weave(width: u32, height: u32, complexity: Complexity, rng: &mut MazeRng) -> (maze: Maze)
    requires
        valid_size(width, height),
    ensures
        maze.wf(),
        maze@.width == width,
        maze@.height == height,
        maze@.perfect(),
{
    let mut maze = Maze::new(width, height);
    let mut in_tree = CellSet::new(width, height);
    let mut walk_set = CellSet::new(width, height);
    let start_x = rng.coordinate(width);
    let start_y = rng.coordinate(height);
    let ghost origin = (start_x, start_y);
    in_tree.insert(start_x, start_y);
    proof {
        lemma_connected_refl(maze@, origin);
        lemma_walled_passages(maze@);
    }
    let mut unvisited = outside_tree(&in_tree, width, height);
    if complexity.positive() {
        let ghost before = unvisited@;
        rng.shuffle(&mut unvisited);
        proof {
            assert forall|i: int| 0 <= i < unvisited@.len() implies (#[trigger] unvisited@[i]).0
                < width && unvisited@[i].1 < height && !in_tree@.contains(unvisited@[i]) by {
                assert(before.contains(unvisited@[i]));
            }
        }
    }
    let budget: u64 = cell_count(width, height) as u64 * STEPS_PER_CELL;
    let mut steps: u64 = 0;
    while unvisited.len() > 0 && steps < budget
        invariant_except_break
            walk_set@ == Set::<(u32, u32)>::empty(),
        invariant
            maze.wf(),
            maze@.width == width,
            maze@.height == height,
            in_tree.wf(),
            in_tree.cols() == width,
            in_tree.lines() == height,
            walk_set.wf(),
            walk_set.cols() == width,
            walk_set.lines() == height,
            all_inside(unvisited@, width, height),
            forall|i: int| 0 <= i < unvisited@.len() ==> !in_tree@.contains(#[trigger] unvisited@[i]),
            steps <= budget,
            origin.0 < width,
            origin.1 < height,
            in_tree@.contains(origin),
            rooted(maze@, in_tree@, origin),
            lonely(maze@, in_tree@),
            maze@.passages().len() + 1 == in_tree.count(),
        decreases in_tree.room(),
    {
        let start = unvisited[0];
        let mut current = start;
        let mut path: Vec<(u32, u32)> = Vec::new();
        path.push(current);
        walk_set.insert(current.0, current.1);
        proof {
            assert forall|c: (u32, u32)|
                #![trigger walk_set@.contains(c)]
                #![trigger path@.contains(c)]
                walk_set@.contains(c) <==> path@.contains(c) by {
                if c == start {
                    assert(path@[0] == c);
                }
            }
        }
        while !in_tree.contains(current.0, current.1) && steps < budget
            invariant
                maze.wf(),
                maze@.width == width,
                maze@.height == height,
                in_tree.wf(),
                in_tree.cols() == width,
                in_tree.lines() == height,
                walk_set.wf(),
                walk_set.cols() == width,
                walk_set.lines() == height,
                all_inside(path@, width, height),
                tracks(path@, walk_set@),
                chained(path@),
                arrives(path@, in_tree@),
                path@.len() >= 1,
                path@[0] == start,
                !in_tree@.contains(start),
                path@[path@.len() - 1] == current,
                steps <= budget,
                all_inside(unvisited@, width, height),
                forall|i: int|
                    0 <= i < unvisited@.len() ==> !in_tree@.contains(#[trigger] unvisited@[i]),
                origin.0 < width,
                origin.1 < height,
                in_tree@.contains(origin),
                rooted(maze@, in_tree@, origin),
                lonely(maze@, in_tree@),
                maze@.passages().len() + 1 == in_tree.count(),
            decreases budget - steps,
        {
            let neighbors = maze.get_neighbors(current.0, current.1);
            if neighbors.len() == 0 {
                break ;
            }
            let next = neighbors[pick_step(rng, neighbors.len(), complexity)];
            let ghost before = path@;
            if walk_set.contains(next.0, next.1) {
                erase_loop(&mut path, &mut walk_set, next, width, height);
            } else {
                path.push(next);
                walk_set.insert(next.0, next.1);
                proof {
                    crate::seqs::lemma_push_contains(before, next);
                    assert(!before.contains(next));
                    assert(adjacent(before[before.len() - 1], next));
                }
            }
            proof {
                assert forall|i: int| 0 <= i < path@.len() - 1 implies adjacent(
                    #[trigger] path@[i],
                    path@[i + 1],
                ) by {
                    if i + 1 < before.len() {
                        assert(adjacent(before[i], before[i + 1]));
                    }
                }
                assert forall|j: int| 0 <= j < path@.len() - 1 implies !in_tree@.contains(
                    #[trigger] path@[j],
                ) by {
                    if j < before.len() - 1 {
                        assert(!in_tree@.contains(before[j]));
                    }
                }
            }
            current = next;
            steps += 1;
        }
        if !in_tree.contains(current.0, current.1) {
            break ;
        }
        let ghost tree_before = in_tree@;
        splice(&mut maze, &mut in_tree, &mut walk_set, &path, width, height, Ghost(origin));
        assert(in_tree@.contains(origin)) by {
            assert(tree_before.contains(origin));
        }
        unvisited = still_outside(&unvisited, &in_tree, width, height);
    }
    hunt_out(&mut maze, &mut in_tree, rng, width, height, Ghost(origin));
    maze
}

impl MazeGenerator for Wilsons {
    /// The passages form a tree on all cells.
    open spec fn keeps(&self, maze: Grid, complexity: Complexity) -> bool {
        maze.perfect()
    }

    fn generate(&self, width: u32, height: u32, complexity: Complexity, seed: Option<u64>) -> (maze:
        Maze) {
        let mut rng = MazeRng::new(seed);
        let maze = weave(width, height, complexity, &mut rng);
        proof {
            lemma_spanning_solvable(maze@);
        }
        maze
    }
}

} // verus!
