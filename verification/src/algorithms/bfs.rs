//! Breadth-first search: a randomized spanning traversal with a queue.

use vstd::prelude::*;
use crate::algorithms::{
    all_inside, lemma_sealed_closed, sealed, select_neighbors, valid_size, MazeGenerator,
};
use crate::cell_grid::CellSet;
use crate::complexity::Complexity;
use crate::connectivity::mended;
use crate::grid::{adjacent, lemma_tree_grows, lonely, Grid};
use crate::maze::Maze;
use crate::reach::{
    lemma_closed_is_full, lemma_connected_sym, lemma_connected_trans, lemma_rooted_closed_spans,
    lemma_rooted_grows, lemma_spanning_solvable, rooted,
};
use crate::rng::MazeRng;

verus! {

/// Breadth-first search, a traversal with a queue.
pub struct Bfs;

/// How many of `len` unvisited neighbours a cell carves to: all of them
/// below a complexity of a tenth; otherwise each counts with probability
/// `1 - complexity / 2`, and at least one is taken.
fn how_many(rng: &mut MazeRng, len: usize, complexity: Complexity) -> (count: usize)
    requires
        1 <= len <= 4,
    ensures
        1 <= count <= len,
        complexity.value() < 100_000 ==> count == len,
{
    if complexity.below(100_000) {
        len
    } else {
        let each = 1_000_000 - complexity.scaled(0, 500_000);
        let mut count: usize = 0;
        let mut i: usize = 0;
        while i < len
            invariant
                0 <= i <= len,
                count <= i,
                each <= 1_000_000,
            decreases len - i,
        {
            if rng.happens(each) {
                count += 1;
            }
            i += 1;
        }
        if count < 1 {
            1
        } else {
            count
        }
    }
}

/// Carves from the visited cell `(x, y)` to some of its unvisited
/// neighbours, shuffled when the complexity is above zero, and puts those
/// at the end of the queue. Below a complexity of a tenth no neighbour is
/// left out.
fn expand(
    maze: &mut Maze,
    visited: &mut CellSet,
    queue: &mut Vec<(u32, u32)>,
    rng: &mut MazeRng,
    complexity: Complexity,
    x: u32,
    y: u32,
    width: u32,
    height: u32,
    Ghost(origin): Ghost<(u32, u32)>,
)
    requires
        old(maze).wf(),
        old(maze)@.width == width,
        old(maze)@.height == height,
        old(visited).wf(),
        old(visited).cols() == width,
        old(visited).lines() == height,
        x < width,
        y < height,
        old(visited)@.contains((x, y)),
        all_inside(old(queue)@, width, height),
        forall|k: int| 0 <= k < old(queue)@.len() ==> old(visited)@.contains(#[trigger] old(queue)@[k]),
        rooted(old(maze)@, old(visited)@, origin),
        lonely(old(maze)@, old(visited)@),
    ensures
        final(maze).wf(),
        final(maze)@.width == width,
        final(maze)@.height == height,
        final(visited).wf(),
        final(visited).cols() == width,
        final(visited).lines() == height,
        all_inside(final(queue)@, width, height),
        forall|k: int|
            0 <= k < final(queue)@.len() ==> final(visited)@.contains(#[trigger] final(queue)@[k]),
        rooted(final(maze)@, final(visited)@, origin),
        lonely(final(maze)@, final(visited)@),
        final(maze)@.passages().len() + old(visited).count() == old(maze)@.passages().len()
            + final(visited).count(),
        old(queue)@.len() <= final(queue)@.len(),
        final(queue)@.subrange(0, old(queue)@.len() as int) == old(queue)@,
        forall|c: (u32, u32)| old(visited)@.contains(c) ==> final(visited)@.contains(c),
        forall|c: (u32, u32)|
            final(visited)@.contains(c) && !old(visited)@.contains(c) ==> final(queue)@.subrange(
                old(queue)@.len() as int,
                final(queue)@.len() as int,
            ).contains(c),
        final(visited).room() + final(queue)@.len() == old(visited).room() + old(queue)@.len(),
        complexity.value() < 100_000 ==> forall|n: (u32, u32)|
            final(maze)@.in_bounds(n) && #[trigger] adjacent((x, y), n) ==> final(visited)@.contains(
                n,
            ),
{
    let ghost entered = visited@;
    let ghost standing = queue@;
    let ghost queued = queue@.len();
    let mut ahead = select_neighbors(maze, visited, x, y, false);
    let ghost listed = ahead@;
    let mut count: usize = 0;
    if ahead.len() > 0 {
        count = how_many(rng, ahead.len(), complexity);
        if complexity.positive() {
            rng.shuffle(&mut ahead);
            proof {
                assert forall|k: int| 0 <= k < ahead@.len() implies maze@.in_bounds(
                    #[trigger] ahead@[k],
                ) && adjacent((x, y), ahead@[k]) by {
                    assert(listed.contains(ahead@[k]));
                    let j = choose|j: int| 0 <= j < listed.len() && listed[j] == ahead@[k];
                    assert(maze@.in_bounds(listed[j]));
                }
            }
        }
    }
    proof {
        assert(queue@.subrange(0, queued as int) =~= standing);
    }
    let mut i: usize = 0;
    while i < count
        invariant
            maze.wf(),
            maze@.width == width,
            maze@.height == height,
            visited.wf(),
            visited.cols() == width,
            visited.lines() == height,
            all_inside(queue@, width, height),
            queued == standing.len(),
            queued <= queue@.len(),
            queue@.subrange(0, queued as int) == standing,
            x < width,
            y < height,
            visited@.contains((x, y)),
            0 <= i <= count <= ahead@.len(),
            forall|k: int|
                0 <= k < ahead@.len() ==> maze@.in_bounds(#[trigger] ahead@[k]) && adjacent(
                    (x, y),
                    ahead@[k],
                ),
            forall|k: int| 0 <= k < queue@.len() ==> visited@.contains(#[trigger] queue@[k]),
            forall|k: int| 0 <= k < i ==> visited@.contains(#[trigger] ahead@[k]),
            forall|c: (u32, u32)| entered.contains(c) ==> visited@.contains(c),
            forall|c: (u32, u32)|
                visited@.contains(c) && !entered.contains(c) ==> queue@.subrange(
                    queued as int,
                    queue@.len() as int,
                ).contains(c),
            rooted(maze@, visited@, origin),
            lonely(maze@, visited@),
            maze@.passages().len() + old(visited).count() == old(maze)@.passages().len()
                + visited.count(),
            visited.room() + queue@.len() == old(visited).room() + queued,
        decreases count - i,
    {
        let (nx, ny) = ahead[i];
        let ghost grid_before = maze@;
        let ghost set_before = visited@;
        let ghost queue_before = queue@;
        assert(maze@.in_bounds(ahead@[i as int]));
        if visited.insert(nx, ny) {
            maze.remove_wall(x, y, nx, ny);
            queue.push((nx, ny));
            proof {
                lemma_rooted_grows(grid_before, maze@, set_before, origin, (x, y), (nx, ny));
                lemma_tree_grows(grid_before, maze@, set_before, (x, y), (nx, ny));
                let tail_before = queue_before.subrange(queued as int, queue_before.len() as int);
                assert(queue@.subrange(queued as int, queue@.len() as int) =~= tail_before.push(
                    (nx, ny),
                ));
                crate::seqs::lemma_push_contains(tail_before, (nx, ny));
                assert(queue@.subrange(0, queued as int) =~= queue_before.subrange(
                    0,
                    queued as int,
                ));
            }
        }
        i += 1;
    }
    proof {
        if complexity.value() < 100_000 {
            assert forall|n: (u32, u32)|
                maze@.in_bounds(n) && #[trigger] adjacent((x, y), n) implies visited@.contains(
                n,
            ) by {
                if !entered.contains(n) {
                    assert(listed.contains(n));
                    let j = choose|j: int| 0 <= j < listed.len() && listed[j] == n;
                    assert(ahead@.contains(listed[j]));
                    let k = choose|k: int| 0 <= k < ahead@.len() && ahead@[k] == n;
                    assert(visited@.contains(ahead@[k]));
                }
            }
        }
    }
}

/// Once the cell at the head of the queue has all its neighbours in the
/// set, the rest of the queue, with what was added behind it, seals the
/// set again.
proof fn lemma_sealed_advance(
    g: Grid,
    entered: Set<(u32, u32)>,
    visited: Set<(u32, u32)>,
    standing: Seq<(u32, u32)>,
    queue: Seq<(u32, u32)>,
    head: int,
)
    requires
        0 <= head < standing.len() <= queue.len(),
        queue.subrange(0, standing.len() as int) == standing,
        sealed(g, entered, standing.subrange(head, standing.len() as int)),
        forall|c: (u32, u32)| entered.contains(c) ==> visited.contains(c),
        forall|c: (u32, u32)|
            visited.contains(c) && !entered.contains(c) ==> queue.subrange(
                standing.len() as int,
                queue.len() as int,
            ).contains(c),
        forall|n: (u32, u32)|
            g.in_bounds(n) && #[trigger] adjacent(standing[head], n) ==> visited.contains(n),
    ensures
        sealed(g, visited, queue.subrange(head + 1, queue.len() as int)),
{
    let waiting = standing.subrange(head, standing.len() as int);
    let rest = queue.subrange(head + 1, queue.len() as int);
    let added = queue.subrange(standing.len() as int, queue.len() as int);
    assert forall|c: (u32, u32), n: (u32, u32)|
        visited.contains(c) && !rest.contains(c) && g.in_bounds(c) && g.in_bounds(n)
            && #[trigger] adjacent(c, n) implies visited.contains(n) by {
        if !entered.contains(c) {
            assert(added.contains(c));
            let k = choose|k: int| 0 <= k < added.len() && added[k] == c;
            assert(rest[k + standing.len() - head - 1] == c);
        } else if c != standing[head] {
            if waiting.contains(c) {
                let k = choose|k: int| 0 <= k < waiting.len() && waiting[k] == c;
                assert(waiting[0] == standing[head]);
                assert(queue.subrange(0, standing.len() as int)[k + head] == c);
                assert(rest[k - 1] == c);
            }
            assert(entered.contains(n));
        }
    }
}

/// The passages of `grown` form a tree on the cells of `reached`: these
/// are one at least, each can be reached from every other, every other
/// cell has all its walls, and there is one passage less than there are
/// cells reached.
pub open spec fn sprouted(grown: Grid, reached: CellSet) -> bool {
    &&& grown.wf()
    &&& reached.wf()
    &&& reached.cols() == grown.width
    &&& reached.lines() == grown.height
    &&& reached.count() >= 1
    &&& forall|a: (u32, u32), b: (u32, u32)|
        #![trigger reached@.contains(a), reached@.contains(b)]
        reached@.contains(a) && reached@.contains(b) ==> grown.connected(a, b)
    &&& lonely(grown, reached@)
    &&& grown.passages().len() + 1 == reached.count()
}

/// Traverses the grid breadth first from a random cell. The passages form
/// a tree on the cells reached. Below a complexity of a tenth every cell
/// is reached and joined to every other.
fn traverse(width: u32, height: u32, complexity: Complexity, rng: &mut MazeRng) -> (maze: Maze)
    requires
        valid_size(width, height),
    ensures
        maze.wf(),
        maze@.width == width,
        maze@.height == height,
        complexity.value() < 100_000 ==> maze@.perfect(),
        exists|reached: CellSet| #[trigger] sprouted(maze@, reached),
{
    let mut maze = Maze::new(width, height);
    let mut queue: Vec<(u32, u32)> = Vec::new();
    let mut visited = CellSet::new(width, height);
    let start_x = rng.coordinate(width);
    let start_y = rng.coordinate(height);
    let ghost origin = (start_x, start_y);
    queue.push((start_x, start_y));
    visited.insert(start_x, start_y);
    let mut head: usize = 0;
    proof {
        crate::reach::lemma_connected_refl(maze@, origin);
        assert(queue@[0] == origin);
        assert(queue@.subrange(0, 1) =~= queue@);
        crate::grid::lemma_walled_passages(maze@);
    }
    while head < queue.len()
        invariant
            maze.wf(),
            maze@.width == width,
            maze@.height == height,
            visited.wf(),
            visited.cols() == width,
            visited.lines() == height,
            all_inside(queue@, width, height),
            0 <= head <= queue@.len(),
            origin.0 < width,
            origin.1 < height,
            visited@.contains(origin),
            forall|k: int| 0 <= k < queue@.len() ==> visited@.contains(#[trigger] queue@[k]),
            rooted(maze@, visited@, origin),
            lonely(maze@, visited@),
            maze@.passages().len() + 1 == visited.count(),
            complexity.value() < 100_000 ==> sealed(
                maze@,
                visited@,
                queue@.subrange(head as int, queue@.len() as int),
            ),
        decreases visited.room() + queue@.len() - head,
    {
        let (x, y) = queue[head];
        let ghost grid_before = maze@;
        let ghost entered = visited@;
        let ghost standing = queue@;
        expand(
            &mut maze,
            &mut visited,
            &mut queue,
            rng,
            complexity,
            x,
            y,
            width,
            height,
            Ghost(origin),
        );
        proof {
            if complexity.value() < 100_000 {
                lemma_sealed_advance(grid_before, entered, visited@, standing, queue@, head as int);
            }
        }
        head += 1;
    }
    proof {
        if complexity.value() < 100_000 {
            lemma_sealed_closed(
                maze@,
                visited@,
                queue@.subrange(head as int, queue@.len() as int),
            );
            lemma_rooted_closed_spans(maze@, visited@, origin);
            lemma_closed_is_full(maze@, visited@, origin);
            visited.lemma_full();
        }
        assert forall|a: (u32, u32), b: (u32, u32)|
            #![trigger visited@.contains(a), visited@.contains(b)]
            visited@.contains(a) && visited@.contains(b) implies maze@.connected(a, b) by {
            lemma_connected_sym(maze@, origin, a);
            lemma_connected_trans(maze@, a, origin, b);
        }
        assert(sprouted(maze@, visited));
    }
    maze
}

impl MazeGenerator for Bfs {
    /// The maze is a grid whose passages form a tree on the cells the
    /// traversal reached, or the repair of such a grid. Below a complexity
    /// of a tenth the passages form a tree on all cells.
    open spec fn keeps(&self, maze: Grid, complexity: Complexity) -> bool {
        &&& exists|grown: Grid, reached: CellSet| #[trigger]
            sprouted(grown, reached) && mended(grown, maze)
        &&& complexity.value() < 100_000 ==> maze.perfect()
    }

    fn generate(&self, width: u32, height: u32, complexity: Complexity, seed: Option<u64>) -> (maze:
        Maze) {
        let mut rng = MazeRng::new(seed);
        let mut maze = traverse(width, height, complexity, &mut rng);
        let ghost grown = maze@;
        proof {
            if complexity.value() < 100_000 {
                lemma_spanning_solvable(maze@);
            }
        }
        maze.ensure_connectivity();
        proof {
            let reached = choose|reached: CellSet| #[trigger] sprouted(grown, reached);
            assert(sprouted(grown, reached) && mended(grown, maze@));
        }
        maze
    }
}

} // verus!
