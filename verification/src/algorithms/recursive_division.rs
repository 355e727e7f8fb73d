//! Recursive division: an open grid is split again and again by a wall
//! with one gap.

use vstd::prelude::*;
use vstd::set_lib::lemma_len_subset;
use crate::algorithms::{open_all, MazeGenerator};
use crate::complexity::Complexity;
use crate::grid::{
    adjacent, forward, lemma_passages_finite, lemma_walls_symmetric, manhattan, Grid,
};
use crate::maze::Maze;
use crate::reach::{lemma_spanning_solvable, lemma_wall_up, lemma_within_connected};
use crate::rng::MazeRng;

verus! {

/// Recursive division, which splits an open grid by walls with one gap.
pub struct RecursiveDivision;

/// A rectangle of cells: the columns from `x1` up to `x2` and the rows
/// from `y1` up to `y2`.
pub struct Region {
    pub x1: u32,
    pub y1: u32,
    pub x2: u32,
    pub y2: u32,
}

impl Region {
    /// The cell `c` lies in the region.
    pub open spec fn holds(self, c: (u32, u32)) -> bool {
        self.x1 <= c.0 < self.x2 && self.y1 <= c.1 < self.y2
    }

    /// The region lies in the grid.
    pub open spec fn fits(self, g: Grid) -> bool {
        self.x1 <= self.x2 <= g.width && self.y1 <= self.y2 <= g.height
    }

    /// The number of cells of the region.
    pub open spec fn area(self) -> int {
        (self.x2 - self.x1) * (self.y2 - self.y1)
    }

    /// The region lies in `other`.
    pub open spec fn part_of(self, other: Region) -> bool {
        other.x1 <= self.x1 && self.x2 <= other.x2 && other.y1 <= self.y1 && self.y2 <= other.y2
    }
}

impl Grid {
    /// `c` can be reached from `src` through at most `k` passages without
    /// leaving the region.
    pub open spec fn reach_in(self, r: Region, src: (u32, u32), c: (u32, u32), k: nat) -> bool
        decreases k,
    {
        if k == 0 {
            c == src && r.holds(src) && self.in_bounds(src)
        } else {
            ||| self.reach_in(r, src, c, (k - 1) as nat)
            ||| exists|p: (u32, u32)| #![trigger self.open_between(p, c)]
                r.holds(c) && self.open_between(p, c) && self.reach_in(r, src, p, (k - 1) as nat)
        }
    }

    /// The passages between cells of the region, each named once.
    pub open spec fn passages_in(self, r: Region) -> Set<(u32, u32, u32, u32)> {
        Set::new(
            |e: (u32, u32, u32, u32)|
                forward(e) && self.open_between((e.0, e.1), (e.2, e.3)) && r.holds((e.0, e.1))
                    && r.holds((e.2, e.3)),
        )
    }

    /// The region has one passage less than it has cells.
    pub open spec fn tree_in(self, r: Region) -> bool {
        self.passages_in(r).len() + 1 == r.area()
    }

    /// `b` can be reached from `a` without leaving the region.
    pub open spec fn tied(self, r: Region, a: (u32, u32), b: (u32, u32)) -> bool {
        exists|k: nat| self.reach_in(r, a, b, k)
    }

    /// Every two cells of the region can reach each other without leaving
    /// it.
    pub open spec fn knit(self, r: Region) -> bool {
        forall|a: (u32, u32), b: (u32, u32)| r.holds(a) && r.holds(b) ==> #[trigger] self.tied(r, a, b)
    }

    /// No wall stands between two cells of the region.
    pub open spec fn open_in(self, r: Region) -> bool {
        forall|a: (u32, u32), b: (u32, u32)|
            r.holds(a) && r.holds(b) && #[trigger] adjacent(a, b) ==> self.open_between(a, b)
    }

    /// The two grids have the same passages between cells of the region.
    pub open spec fn same_inside(self, other: Grid, r: Region) -> bool {
        forall|a: (u32, u32), b: (u32, u32)|
            #![trigger self.open_between(a, b)]
            #![trigger other.open_between(a, b)]
            r.holds(a) && r.holds(b) ==> (self.open_between(a, b) <==> other.open_between(a, b))
    }

    /// The two grids differ at most in passages between cells of the
    /// region.
    pub open spec fn same_outside(self, other: Grid, r: Region) -> bool {
        forall|a: (u32, u32), b: (u32, u32)|
            #![trigger self.open_between(a, b)]
            #![trigger other.open_between(a, b)]
            !(r.holds(a) && r.holds(b)) ==> (self.open_between(a, b) <==> other.open_between(a, b))
    }
}

proof fn lemma_reach_step(g: Grid, r: Region, a: (u32, u32), b: (u32, u32), c: (u32, u32), k: nat)
    requires
        g.reach_in(r, a, b, k),
        g.open_between(b, c),
        r.holds(c),
    ensures
        g.reach_in(r, a, c, k + 1),
{
}

proof fn lemma_reach_trans(
    g: Grid,
    r: Region,
    a: (u32, u32),
    b: (u32, u32),
    c: (u32, u32),
    k: nat,
    m: nat,
)
    requires
        g.reach_in(r, a, b, k),
        g.reach_in(r, b, c, m),
    ensures
        g.reach_in(r, a, c, k + m),
    decreases m,
{
    if m == 0 {
    } else if g.reach_in(r, b, c, (m - 1) as nat) {
        lemma_reach_trans(g, r, a, b, c, k, (m - 1) as nat);
    } else {
        let p = choose|p: (u32, u32)| #![trigger g.open_between(p, c)]
            r.holds(c) && g.open_between(p, c) && g.reach_in(r, b, p, (m - 1) as nat);
        lemma_reach_trans(g, r, a, b, p, k, (m - 1) as nat);
        lemma_reach_step(g, r, a, p, c, (k + m - 1) as nat);
    }
}

proof fn lemma_reach_moves(
    g: Grid,
    h: Grid,
    small: Region,
    big: Region,
    a: (u32, u32),
    b: (u32, u32),
    k: nat,
)
    requires
        g.width == h.width,
        g.height == h.height,
        g.same_inside(h, small),
        small.part_of(big),
        g.reach_in(small, a, b, k),
    ensures
        h.reach_in(big, a, b, k),
        small.holds(a),
        small.holds(b),
    decreases k,
{
    if k == 0 {
    } else if g.reach_in(small, a, b, (k - 1) as nat) {
        lemma_reach_moves(g, h, small, big, a, b, (k - 1) as nat);
    } else {
        let p = choose|p: (u32, u32)| #![trigger g.open_between(p, b)]
            small.holds(b) && g.open_between(p, b) && g.reach_in(small, a, p, (k - 1) as nat);
        lemma_reach_moves(g, h, small, big, a, p, (k - 1) as nat);
        assert(h.open_between(p, b));
    }
}

proof fn lemma_reach_within(g: Grid, r: Region, a: (u32, u32), b: (u32, u32), k: nat)
    requires
        g.reach_in(r, a, b, k),
    ensures
        g.within(a, b, k),
    decreases k,
{
    if k == 0 {
    } else if g.reach_in(r, a, b, (k - 1) as nat) {
        lemma_reach_within(g, r, a, b, (k - 1) as nat);
    } else {
        let p = choose|p: (u32, u32)| #![trigger g.open_between(p, b)]
            r.holds(b) && g.open_between(p, b) && g.reach_in(r, a, p, (k - 1) as nat);
        lemma_reach_within(g, r, a, p, (k - 1) as nat);
    }
}

/// In a region without walls every cell reaches every other.
proof fn lemma_open_tied(g: Grid, r: Region, a: (u32, u32), b: (u32, u32))
    requires
        r.fits(g),
        g.open_in(r),
        r.holds(a),
        r.holds(b),
    ensures
        g.tied(r, a, b),
    decreases manhattan(a, b),
{
    if a == b {
        assert(g.reach_in(r, a, b, 0));
    } else {
        let nearer: (u32, u32) = if b.0 > a.0 {
            ((b.0 - 1) as u32, b.1)
        } else if b.0 < a.0 {
            ((b.0 + 1) as u32, b.1)
        } else if b.1 > a.1 {
            (b.0, (b.1 - 1) as u32)
        } else {
            (b.0, (b.1 + 1) as u32)
        };
        lemma_open_tied(g, r, a, nearer);
        let k = choose|k: nat| g.reach_in(r, a, nearer, k);
        assert(adjacent(nearer, b));
        lemma_reach_step(g, r, a, nearer, b, k);
    }
}

/// Two knit parts of a region with a passage between them knit the
/// region.
proof fn lemma_parts_knit(
    g: Grid,
    r: Region,
    first: Region,
    second: Region,
    ga: (u32, u32),
    gb: (u32, u32),
)
    requires
        g.wf(),
        r.fits(g),
        first.part_of(r),
        second.part_of(r),
        forall|c: (u32, u32)| r.holds(c) ==> first.holds(c) || second.holds(c),
        g.knit(first),
        g.knit(second),
        first.holds(ga),
        second.holds(gb),
        g.open_between(ga, gb),
    ensures
        g.knit(r),
{
    lemma_walls_symmetric(g, ga, gb);
    assert forall|a: (u32, u32), b: (u32, u32)| r.holds(a) && r.holds(b) implies #[trigger] g.tied(
        r,
        a,
        b,
    ) by {
        if first.holds(a) && first.holds(b) {
            assert(g.tied(first, a, b));
            let k = choose|k: nat| g.reach_in(first, a, b, k);
            lemma_reach_moves(g, g, first, r, a, b, k);
        } else if second.holds(a) && second.holds(b) {
            assert(g.tied(second, a, b));
            let k = choose|k: nat| g.reach_in(second, a, b, k);
            lemma_reach_moves(g, g, second, r, a, b, k);
        } else if first.holds(a) {
            assert(g.tied(first, a, ga));
            assert(g.tied(second, gb, b));
            let k = choose|k: nat| g.reach_in(first, a, ga, k);
            let m = choose|m: nat| g.reach_in(second, gb, b, m);
            lemma_reach_moves(g, g, first, r, a, ga, k);
            lemma_reach_moves(g, g, second, r, gb, b, m);
            lemma_reach_step(g, r, a, ga, gb, k);
            lemma_reach_trans(g, r, a, gb, b, k + 1, m);
        } else {
            assert(g.tied(second, a, gb));
            assert(g.tied(first, ga, b));
            let k = choose|k: nat| g.reach_in(second, a, gb, k);
            let m = choose|m: nat| g.reach_in(first, ga, b, m);
            lemma_reach_moves(g, g, second, r, a, gb, k);
            lemma_reach_moves(g, g, first, r, ga, b, m);
            lemma_reach_step(g, r, a, gb, ga, k);
            lemma_reach_trans(g, r, a, ga, b, k + 1, m);
        }
    }
}

/// A knit region stays knit when the grid changes only outside it.
proof fn lemma_knit_kept(g: Grid, h: Grid, r: Region)
    requires
        g.width == h.width,
        g.height == h.height,
        g.same_inside(h, r),
        g.knit(r),
    ensures
        h.knit(r),
{
    assert forall|a: (u32, u32), b: (u32, u32)| r.holds(a) && r.holds(b) implies #[trigger] h.tied(
        r,
        a,
        b,
    ) by {
        assert(g.tied(r, a, b));
        let k = choose|k: nat| g.reach_in(r, a, b, k);
        lemma_reach_moves(g, h, r, r, a, b, k);
    }
}

proof fn lemma_passages_in_finite(g: Grid, r: Region)
    requires
        g.shaped(),
    ensures
        g.passages_in(r).finite(),
{
    lemma_passages_finite(g);
    assert(g.passages_in(r).subset_of(g.passages()));
    lemma_len_subset(g.passages_in(r), g.passages());
}

/// A column without walls has one passage less than it has cells.
proof fn lemma_column_tree(g: Grid, x: u32, y1: u32, y2: u32)
    requires
        g.wf(),
        x < g.width,
        y1 < y2 <= g.height,
        g.open_in(Region { x1: x, y1, x2: (x + 1) as u32, y2 }),
    ensures
        g.tree_in(Region { x1: x, y1, x2: (x + 1) as u32, y2 }),
    decreases y2 - y1,
{
    broadcast use vstd::set::group_set_axioms;

    let r = Region { x1: x, y1, x2: (x + 1) as u32, y2 };
    lemma_passages_in_finite(g, r);
    assert(r.area() == y2 - y1) by (nonlinear_arith)
        requires
            r.area() == (x + 1 - x) * (y2 - y1),
    ;
    if y2 == y1 + 1 {
        assert(g.passages_in(r) =~= Set::empty());
    } else {
        let shorter = Region { x1: x, y1, x2: (x + 1) as u32, y2: (y2 - 1) as u32 };
        assert(g.open_in(shorter));
        lemma_column_tree(g, x, y1, (y2 - 1) as u32);
        lemma_passages_in_finite(g, shorter);
        assert(shorter.area() == y2 - 1 - y1) by (nonlinear_arith)
            requires
                shorter.area() == (x + 1 - x) * (y2 - 1 - y1),
        ;
        let e = (x, (y2 - 2) as u32, x, (y2 - 1) as u32);
        assert(adjacent((e.0, e.1), (e.2, e.3)));
        assert(g.open_between((e.0, e.1), (e.2, e.3)));
        assert(g.passages_in(r) =~= g.passages_in(shorter).insert(e));
        assert(!g.passages_in(shorter).contains(e));
    }
}

/// A row without walls has one passage less than it has cells.
proof fn lemma_row_tree(g: Grid, y: u32, x1: u32, x2: u32)
    requires
        g.wf(),
        y < g.height,
        x1 < x2 <= g.width,
        g.open_in(Region { x1, y1: y, x2, y2: (y + 1) as u32 }),
    ensures
        g.tree_in(Region { x1, y1: y, x2, y2: (y + 1) as u32 }),
    decreases x2 - x1,
{
    broadcast use vstd::set::group_set_axioms;

    let r = Region { x1, y1: y, x2, y2: (y + 1) as u32 };
    lemma_passages_in_finite(g, r);
    assert(r.area() == x2 - x1) by (nonlinear_arith)
        requires
            r.area() == (x2 - x1) * (y + 1 - y),
    ;
    if x2 == x1 + 1 {
        assert(g.passages_in(r) =~= Set::empty());
    } else {
        let shorter = Region { x1, y1: y, x2: (x2 - 1) as u32, y2: (y + 1) as u32 };
        assert(g.open_in(shorter));
        lemma_row_tree(g, y, x1, (x2 - 1) as u32);
        lemma_passages_in_finite(g, shorter);
        assert(shorter.area() == x2 - 1 - x1) by (nonlinear_arith)
            requires
                shorter.area() == (x2 - 1 - x1) * (y + 1 - y),
        ;
        let e = ((x2 - 2) as u32, y, (x2 - 1) as u32, y);
        assert(adjacent((e.0, e.1), (e.2, e.3)));
        assert(g.open_between((e.0, e.1), (e.2, e.3)));
        assert(g.passages_in(r) =~= g.passages_in(shorter).insert(e));
        assert(!g.passages_in(shorter).contains(e));
    }
}

/// Two parts of a region that are trees, with one passage between them,
/// make the region a tree.
proof fn lemma_parts_tree(
    g: Grid,
    r: Region,
    first: Region,
    second: Region,
    ga: (u32, u32),
    gb: (u32, u32),
)
    requires
        g.wf(),
        r.fits(g),
        first.part_of(r),
        second.part_of(r),
        forall|c: (u32, u32)| r.holds(c) ==> first.holds(c) || second.holds(c),
        forall|c: (u32, u32)| !(first.holds(c) && second.holds(c)),
        first.area() + second.area() == r.area(),
        g.tree_in(first),
        g.tree_in(second),
        first.holds(ga),
        second.holds(gb),
        forward((ga.0, ga.1, gb.0, gb.1)),
        g.open_between(ga, gb),
        forall|e: (u32, u32, u32, u32)|
            forward(e) && #[trigger] g.open_between((e.0, e.1), (e.2, e.3)) && r.holds((e.0, e.1))
                && r.holds((e.2, e.3)) && !(first.holds((e.0, e.1)) && first.holds((e.2, e.3)))
                && !(second.holds((e.0, e.1)) && second.holds((e.2, e.3))) ==> e == (
                ga.0,
                ga.1,
                gb.0,
                gb.1,
            ),
    ensures
        g.tree_in(r),
{
    broadcast use vstd::set::group_set_axioms;

    let gap = (ga.0, ga.1, gb.0, gb.1);
    lemma_passages_in_finite(g, r);
    lemma_passages_in_finite(g, first);
    lemma_passages_in_finite(g, second);
    let a = g.passages_in(first);
    let b = g.passages_in(second);
    assert(a.disjoint(b));
    vstd::set_lib::lemma_set_disjoint_lens(a, b);
    assert(!(a + b).contains(gap));
    assert(g.passages_in(r) =~= (a + b).insert(gap)) by {
        assert forall|e: (u32, u32, u32, u32)| g.passages_in(r).contains(e) implies (a + b).insert(
            gap,
        ).contains(e) by {
            if !a.contains(e) && !b.contains(e) {
                assert(g.open_between((e.0, e.1), (e.2, e.3)));
            }
        }
    }
}

/// A region keeps its passages when the grid changes only outside it.
proof fn lemma_tree_kept(g: Grid, h: Grid, r: Region)
    requires
        g.same_inside(h, r),
        g.tree_in(r),
    ensures
        h.tree_in(r),
{
    assert(g.passages_in(r) =~= h.passages_in(r));
}

/// A grid whose whole rectangle is a tree is tree sized.
proof fn lemma_whole_tree(g: Grid)
    requires
        g.wf(),
        g.tree_in(Region { x1: 0, y1: 0, x2: g.width as u32, y2: g.height as u32 }),
    ensures
        g.tree_sized(),
{
    let whole = Region { x1: 0, y1: 0, x2: g.width as u32, y2: g.height as u32 };
    assert(g.passages_in(whole) =~= g.passages());
}

/// A grid whose whole rectangle is knit spans.
proof fn lemma_knit_spans(g: Grid)
    requires
        g.wf(),
        g.knit(Region { x1: 0, y1: 0, x2: g.width as u32, y2: g.height as u32 }),
    ensures
        g.spanning(),
{
    let whole = Region { x1: 0, y1: 0, x2: g.width as u32, y2: g.height as u32 };
    assert forall|c: (u32, u32)| g.in_bounds(c) implies #[trigger] g.connected(g.entry(), c) by {
        assert(g.tied(whole, g.entry(), c));
        let k = choose|k: nat| g.reach_in(whole, g.entry(), c, k);
        lemma_reach_within(g, whole, g.entry(), c, k);
        lemma_within_connected(g, g.entry(), c, k);
    }
}

/// Where the wall that splits the span `low..high` stands: in the middle
/// below a complexity of a tenth; otherwise at an offset from the middle
/// of the positions allowed, drawn from a range that grows with the
/// complexity, on either side with even odds.
fn pick_wall(rng: &mut MazeRng, low: u32, high: u32, complexity: Complexity) -> (wall: u32)
    requires
        low + 2 <= high,
    ensures
        low + 1 <= wall <= high - 1,
        complexity.value() < 100_000 ==> wall == low + (high - low) / 2,
{
    if complexity.below(100_000) {
        low + (high - low) / 2
    } else {
        let least = low + 1;
        let most = high - 1;
        let center = ((least as u64 + most as u64) / 2) as u32;
        let spread = complexity.portion((most - least) as u64);
        let range: u32 = if spread < 1 {
            1
        } else {
            spread as u32
        };
        let offset = rng.coordinate_between(0, range);
        if rng.chance(1, 2) {
            let below = if offset > center {
                0
            } else {
                center - offset
            };
            if below < least {
                least
            } else {
                below
            }
        } else {
            let above = center as u64 + offset as u64;
            if above > most as u64 {
                most
            } else {
                above as u32
            }
        }
    }
}

/// Where the gap in a wall across the span `low..high` stands: in the
/// middle below a complexity of a tenth, anywhere otherwise.
fn pick_gap(rng: &mut MazeRng, low: u32, high: u32, complexity: Complexity) -> (gap: u32)
    requires
        low < high,
    ensures
        low <= gap < high,
        complexity.value() < 100_000 ==> gap == low + (high - low) / 2,
{
    if complexity.below(100_000) {
        low + (high - low) / 2
    } else {
        low + rng.coordinate(high - low)
    }
}

/// The step between `p` and `q` crosses the line above row `wall` in a
/// column from `from` up to `to` other than `gap`.
pub open spec fn barred_across(p: (u32, u32), q: (u32, u32), wall: u32, from: u32, to: u32, gap: u32) -> bool {
    &&& p.0 == q.0
    &&& from <= p.0 < to
    &&& p.0 != gap
    &&& (p.1 + 1 == wall && q.1 == wall) || (q.1 + 1 == wall && p.1 == wall)
}

/// The step between `p` and `q` crosses the line before column `wall` in a
/// row from `from` up to `to` other than `gap`.
pub open spec fn barred_along(p: (u32, u32), q: (u32, u32), wall: u32, from: u32, to: u32, gap: u32) -> bool {
    &&& p.1 == q.1
    &&& from <= p.1 < to
    &&& p.1 != gap
    &&& (p.0 + 1 == wall && q.0 == wall) || (q.0 + 1 == wall && p.0 == wall)
}

/// Raises the wall above row `wall_y` across the columns `x1..x2`, but for
/// the column `gap_x`.
fn wall_across(maze: &mut Maze, x1: u32, x2: u32, wall_y: u32, gap_x: u32)
    requires
        old(maze).wf(),
        x1 <= x2 <= old(maze)@.width,
        1 <= wall_y < old(maze)@.height,
    ensures
        final(maze).wf(),
        final(maze)@.width == old(maze)@.width,
        final(maze)@.height == old(maze)@.height,
        forall|p: (u32, u32), q: (u32, u32)| #[trigger]
            final(maze)@.open_between(p, q) <==> old(maze)@.open_between(p, q) && !barred_across(
                p,
                q,
                wall_y,
                x1,
                x2,
                gap_x,
            ),
{
    let mut x = x1;
    while x < x2
        invariant
            maze.wf(),
            maze@.width == old(maze)@.width,
            maze@.height == old(maze)@.height,
            x1 <= x <= x2 <= maze@.width,
            1 <= wall_y < maze@.height,
            forall|p: (u32, u32), q: (u32, u32)| #[trigger]
                maze@.open_between(p, q) <==> old(maze)@.open_between(p, q) && !barred_across(
                    p,
                    q,
                    wall_y,
                    x1,
                    x,
                    gap_x,
                ),
        decreases x2 - x,
    {
        let ghost before = maze@;
        if x != gap_x {
            maze.add_wall(x, wall_y - 1, x, wall_y);
            proof {
                lemma_wall_up(before, (x, (wall_y - 1) as u32), (x, wall_y));
            }
        }
        proof {
            assert forall|p: (u32, u32), q: (u32, u32)| #[trigger]
                maze@.open_between(p, q) <==> old(maze)@.open_between(p, q) && !barred_across(
                    p,
                    q,
                    wall_y,
                    x1,
                    (x + 1) as u32,
                    gap_x,
                ) by {
                assert(before.open_between(p, q) <==> old(maze)@.open_between(p, q)
                    && !barred_across(p, q, wall_y, x1, x, gap_x));
            }
        }
        x += 1;
    }
}

/// Raises the wall before column `wall_x` along the rows `y1..y2`, but for
/// the row `gap_y`.
fn wall_along(maze: &mut Maze, y1: u32, y2: u32, wall_x: u32, gap_y: u32)
    requires
        old(maze).wf(),
        y1 <= y2 <= old(maze)@.height,
        1 <= wall_x < old(maze)@.width,
    ensures
        final(maze).wf(),
        final(maze)@.width == old(maze)@.width,
        final(maze)@.height == old(maze)@.height,
        forall|p: (u32, u32), q: (u32, u32)| #[trigger]
            final(maze)@.open_between(p, q) <==> old(maze)@.open_between(p, q) && !barred_along(
                p,
                q,
                wall_x,
                y1,
                y2,
                gap_y,
            ),
{
    let mut y = y1;
    while y < y2
        invariant
            maze.wf(),
            maze@.width == old(maze)@.width,
            maze@.height == old(maze)@.height,
            y1 <= y <= y2 <= maze@.height,
            1 <= wall_x < maze@.width,
            forall|p: (u32, u32), q: (u32, u32)| #[trigger]
                maze@.open_between(p, q) <==> old(maze)@.open_between(p, q) && !barred_along(
                    p,
                    q,
                    wall_x,
                    y1,
                    y,
                    gap_y,
                ),
        decreases y2 - y,
    {
        let ghost before = maze@;
        if y != gap_y {
            maze.add_wall(wall_x - 1, y, wall_x, y);
            proof {
                lemma_wall_up(before, ((wall_x - 1) as u32, y), (wall_x, y));
            }
        }
        proof {
            assert forall|p: (u32, u32), q: (u32, u32)| #[trigger]
                maze@.open_between(p, q) <==> old(maze)@.open_between(p, q) && !barred_along(
                    p,
                    q,
                    wall_x,
                    y1,
                    (y + 1) as u32,
                    gap_y,
                ) by {
                assert(before.open_between(p, q) <==> old(maze)@.open_between(p, q)
                    && !barred_along(p, q, wall_x, y1, y, gap_y));
            }
        }
        y += 1;
    }
}

/// Divides the region of columns `x1..x2` and rows `y1..y2`, which has no
/// walls inside. A region less than two cells wide or high is left alone.
/// Otherwise a wall with one gap is raised across the region, across its
/// longer side, or, on a square region, horizontally below a complexity of
/// a tenth and on an even draw otherwise; both parts are then divided in
/// turn. Nothing changes outside the region, and inside it every cell
/// still reaches every other.
fn divide(
    maze: &mut Maze,
    rng: &mut MazeRng,
    x1: u32,
    y1: u32,
    x2: u32,
    y2: u32,
    complexity: Complexity,
)
    requires
        old(maze).wf(),
        x1 < x2 <= old(maze)@.width,
        y1 < y2 <= old(maze)@.height,
        old(maze)@.open_in(Region { x1, y1, x2, y2 }),
    ensures
        final(maze).wf(),
        final(maze)@.width == old(maze)@.width,
        final(maze)@.height == old(maze)@.height,
        final(maze)@.same_outside(old(maze)@, Region { x1, y1, x2, y2 }),
        final(maze)@.knit(Region { x1, y1, x2, y2 }),
        final(maze)@.tree_in(Region { x1, y1, x2, y2 }),
    decreases (x2 - x1) + (y2 - y1),
{
    let ghost r = Region { x1, y1, x2, y2 };
    let ghost start = maze@;
    let width = x2 - x1;
    let height = y2 - y1;
    if width < 2 || height < 2 {
        proof {
            assert forall|a: (u32, u32), b: (u32, u32)|
                r.holds(a) && r.holds(b) implies #[trigger] start.tied(r, a, b) by {
                lemma_open_tied(start, r, a, b);
            }
            if width < 2 {
                lemma_column_tree(start, x1, y1, y2);
            } else {
                lemma_row_tree(start, y1, x1, x2);
            }
        }
        return ;
    }
    let horizontal = if width < height {
        true
    } else if height < width {
        false
    } else if complexity.below(100_000) {
        true
    } else {
        rng.chance(1, 2)
    };
    if horizontal {
        let wall_y = pick_wall(rng, y1, y2, complexity);
        let gap_x = pick_gap(rng, x1, x2, complexity);
        let ghost first = Region { x1, y1, x2, y2: wall_y };
        let ghost second = Region { x1, y1: wall_y, x2, y2 };
        let ghost ga = (gap_x, (wall_y - 1) as u32);
        let ghost gb = (gap_x, wall_y);
        wall_across(maze, x1, x2, wall_y, gap_x);
        let ghost walled = maze@;
        proof {
            assert(adjacent(ga, gb));
            assert(start.open_between(ga, gb));
            assert(walled.open_between(ga, gb));
            assert(walled.open_in(first)) by {
                assert forall|a: (u32, u32), b: (u32, u32)|
                    first.holds(a) && first.holds(b) && #[trigger] adjacent(
                        a,
                        b,
                    ) implies walled.open_between(a, b) by {
                    assert(start.open_between(a, b));
                }
            }
        }
        divide(maze, rng, x1, y1, x2, wall_y, complexity);
        let ghost halfway = maze@;
        proof {
            assert(halfway.open_in(second)) by {
                assert forall|a: (u32, u32), b: (u32, u32)|
                    second.holds(a) && second.holds(b) && #[trigger] adjacent(
                        a,
                        b,
                    ) implies halfway.open_between(a, b) by {
                    assert(start.open_between(a, b));
                    assert(walled.open_between(a, b));
                }
            }
            assert(halfway.open_between(ga, gb));
        }
        divide(maze, rng, x1, wall_y, x2, y2, complexity);
        proof {
            assert(maze@.open_between(ga, gb));
            assert(halfway.same_inside(maze@, first));
            lemma_knit_kept(halfway, maze@, first);
            lemma_parts_knit(maze@, r, first, second, ga, gb);
            lemma_tree_kept(halfway, maze@, first);
            assert(first.area() + second.area() == r.area()) by (nonlinear_arith)
                requires
                    first.area() == (x2 - x1) * (wall_y - y1),
                    second.area() == (x2 - x1) * (y2 - wall_y),
                    r.area() == (x2 - x1) * (y2 - y1),
            ;
            assert forall|e: (u32, u32, u32, u32)|
                forward(e) && #[trigger] maze@.open_between((e.0, e.1), (e.2, e.3)) && r.holds(
                    (e.0, e.1),
                ) && r.holds((e.2, e.3)) && !(first.holds((e.0, e.1)) && first.holds((e.2, e.3)))
                    && !(second.holds((e.0, e.1)) && second.holds((e.2, e.3))) implies e == (
                ga.0,
                ga.1,
                gb.0,
                gb.1,
            ) by {
                let p = (e.0, e.1);
                let q = (e.2, e.3);
                assert(maze@.open_between(p, q) <==> halfway.open_between(p, q));
                assert(halfway.open_between(p, q) <==> walled.open_between(p, q));
                assert(walled.open_between(p, q) <==> start.open_between(p, q) && !barred_across(
                    p,
                    q,
                    wall_y,
                    x1,
                    x2,
                    gap_x,
                ));
            }
            lemma_parts_tree(maze@, r, first, second, ga, gb);
            assert(maze@.same_outside(start, r)) by {
                assert forall|a: (u32, u32), b: (u32, u32)|
                    #![trigger maze@.open_between(a, b)]
                    #![trigger start.open_between(a, b)]
                    !(r.holds(a) && r.holds(b)) implies (maze@.open_between(a, b)
                    <==> start.open_between(a, b)) by {
                    assert(maze@.open_between(a, b) <==> halfway.open_between(a, b));
                    assert(halfway.open_between(a, b) <==> walled.open_between(a, b));
                    assert(walled.open_between(a, b) <==> start.open_between(a, b));
                }
            }
        }
    } else {
        let wall_x = pick_wall(rng, x1, x2, complexity);
        let gap_y = pick_gap(rng, y1, y2, complexity);
        let ghost first = Region { x1, y1, x2: wall_x, y2 };
        let ghost second = Region { x1: wall_x, y1, x2, y2 };
        let ghost ga = ((wall_x - 1) as u32, gap_y);
        let ghost gb = (wall_x, gap_y);
        wall_along(maze, y1, y2, wall_x, gap_y);
        let ghost walled = maze@;
        proof {
            assert(adjacent(ga, gb));
            assert(start.open_between(ga, gb));
            assert(walled.open_between(ga, gb));
            assert(walled.open_in(first)) by {
                assert forall|a: (u32, u32), b: (u32, u32)|
                    first.holds(a) && first.holds(b) && #[trigger] adjacent(
                        a,
                        b,
                    ) implies walled.open_between(a, b) by {
                    assert(start.open_between(a, b));
                }
            }
        }
        divide(maze, rng, x1, y1, wall_x, y2, complexity);
        let ghost halfway = maze@;
        proof {
            assert(halfway.open_in(second)) by {
                assert forall|a: (u32, u32), b: (u32, u32)|
                    second.holds(a) && second.holds(b) && #[trigger] adjacent(
                        a,
                        b,
                    ) implies halfway.open_between(a, b) by {
                    assert(start.open_between(a, b));
                    assert(walled.open_between(a, b));
                }
            }
            assert(halfway.open_between(ga, gb));
        }
        divide(maze, rng, wall_x, y1, x2, y2, complexity);
        proof {
            assert(maze@.open_between(ga, gb));
            assert(halfway.same_inside(maze@, first));
            lemma_knit_kept(halfway, maze@, first);
            lemma_parts_knit(maze@, r, first, second, ga, gb);
            lemma_tree_kept(halfway, maze@, first);
            assert(first.area() + second.area() == r.area()) by (nonlinear_arith)
                requires
                    first.area() == (wall_x - x1) * (y2 - y1),
                    second.area() == (x2 - wall_x) * (y2 - y1),
                    r.area() == (x2 - x1) * (y2 - y1),
            ;
            assert forall|e: (u32, u32, u32, u32)|
                forward(e) && #[trigger] maze@.open_between((e.0, e.1), (e.2, e.3)) && r.holds(
                    (e.0, e.1),
                ) && r.holds((e.2, e.3)) && !(first.holds((e.0, e.1)) && first.holds((e.2, e.3)))
                    && !(second.holds((e.0, e.1)) && second.holds((e.2, e.3))) implies e == (
                ga.0,
                ga.1,
                gb.0,
                gb.1,
            ) by {
                let p = (e.0, e.1);
                let q = (e.2, e.3);
                assert(maze@.open_between(p, q) <==> halfway.open_between(p, q));
                assert(halfway.open_between(p, q) <==> walled.open_between(p, q));
                assert(walled.open_between(p, q) <==> start.open_between(p, q) && !barred_along(
                    p,
                    q,
                    wall_x,
                    y1,
                    y2,
                    gap_y,
                ));
            }
            lemma_parts_tree(maze@, r, first, second, ga, gb);
            assert(maze@.same_outside(start, r)) by {
                assert forall|a: (u32, u32), b: (u32, u32)|
                    #![trigger maze@.open_between(a, b)]
                    #![trigger start.open_between(a, b)]
                    !(r.holds(a) && r.holds(b)) implies (maze@.open_between(a, b)
                    <==> start.open_between(a, b)) by {
                    assert(maze@.open_between(a, b) <==> halfway.open_between(a, b));
                    assert(halfway.open_between(a, b) <==> walled.open_between(a, b));
                    assert(walled.open_between(a, b) <==> start.open_between(a, b));
                }
            }
        }
    }
}

impl MazeGenerator for RecursiveDivision {
    /// The passages form a tree on all cells.
    open spec fn keeps(&self, maze: Grid, complexity: Complexity) -> bool {
        maze.perfect()
    }

    /// Opens the whole grid and divides it.
    fn generate(&self, width: u32, height: u32, complexity: Complexity, seed: Option<u64>) -> (maze:
        Maze) {
        let mut maze = Maze::new(width, height);
        let mut rng = MazeRng::new(seed);
        open_all(&mut maze);
        divide(&mut maze, &mut rng, 0, 0, width, height, complexity);
        proof {
            lemma_knit_spans(maze@);
            lemma_whole_tree(maze@);
            lemma_spanning_solvable(maze@);
        }
        maze
    }
}

} // verus!
