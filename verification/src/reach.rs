//! Reachability in the passage graph: bounded reachability, its agreement
//! with paths, and the laws of connectedness.

use vstd::prelude::*;
use crate::grid::{adjacent, lemma_walls_symmetric, manhattan, Grid};

verus! {

impl Grid {
    /// Every cell of the grid can be reached from the entry.
    pub open spec fn spanning(self) -> bool {
        forall|c: (u32, u32)| self.in_bounds(c) ==> #[trigger] self.connected(self.entry(), c)
    }

    /// The passages of the grid form a tree on all its cells: every cell
    /// can be reached from the entry, and there is one passage less than
    /// there are cells.
    pub open spec fn perfect(self) -> bool {
        self.spanning() && self.tree_sized()
    }

    /// `c` can be reached from `src` through at most `k` passages.
    pub open spec fn within(self, src: (u32, u32), c: (u32, u32), k: nat) -> bool
        decreases k,
    {
        if k == 0 {
            c == src && self.in_bounds(src)
        } else {
            ||| self.within(src, c, (k - 1) as nat)
            ||| exists|p: (u32, u32)| #![trigger self.open_between(p, c)]
                self.open_between(p, c) && self.within(src, p, (k - 1) as nat)
        }
    }
}

/// Whatever is reachable within `k` passages is reachable within more.
pub proof fn lemma_within_mono(g: Grid, src: (u32, u32), c: (u32, u32), k: nat, m: nat)
    requires
        g.within(src, c, k),
        k <= m,
    ensures
        g.within(src, c, m),
    decreases m,
{
    if k < m {
        lemma_within_mono(g, src, c, k, (m - 1) as nat);
    }
}

/// One more passage extends bounded reachability by one.
pub proof fn lemma_within_step(g: Grid, src: (u32, u32), p: (u32, u32), c: (u32, u32), k: nat)
    requires
        g.within(src, p, k),
        g.open_between(p, c),
    ensures
        g.within(src, c, k + 1),
{
}

/// A path of `n` cells witnesses reachability within `n - 1` passages.
pub proof fn lemma_path_within(g: Grid, p: Seq<(u32, u32)>, a: (u32, u32), b: (u32, u32))
    requires
        g.joins(p, a, b),
    ensures
        g.within(a, b, (p.len() - 1) as nat),
    decreases p.len(),
{
    if p.len() > 1 {
        let q = p.drop_last();
        let mid = p[p.len() - 2];
        assert forall|i: int| 0 <= i < q.len() - 1 implies g.open_between(
            #[trigger] q[i],
            q[i + 1],
        ) by {
            assert(g.open_between(p[i], p[i + 1]));
        }
        assert(g.joins(q, a, mid));
        lemma_path_within(g, q, a, mid);
        assert(g.open_between(p[p.len() - 2], p[p.len() - 2 + 1]));
        lemma_within_step(g, a, mid, b, (q.len() - 1) as nat);
    }
}

/// Reachability within `k` passages is witnessed by a path of at most
/// `k + 1` cells.
pub proof fn lemma_within_path(g: Grid, src: (u32, u32), c: (u32, u32), k: nat) -> (p: Seq<
    (u32, u32),
>)
    requires
        g.within(src, c, k),
    ensures
        g.joins(p, src, c),
        p.len() <= k + 1,
    decreases k,
{
    if k == 0 {
        seq![src]
    } else if g.within(src, c, (k - 1) as nat) {
        lemma_within_path(g, src, c, (k - 1) as nat)
    } else {
        let prev = choose|prev: (u32, u32)| #![trigger g.open_between(prev, c)]
            g.open_between(prev, c) && g.within(src, prev, (k - 1) as nat);
        let q = lemma_within_path(g, src, prev, (k - 1) as nat);
        let p = q.push(c);
        assert forall|i: int| 0 <= i < p.len() - 1 implies g.open_between(
            #[trigger] p[i],
            p[i + 1],
        ) by {
            if i < q.len() - 1 {
                assert(g.open_between(q[i], q[i + 1]));
            }
        }
        p
    }
}

/// Bounded reachability implies connectedness.
pub proof fn lemma_within_connected(g: Grid, src: (u32, u32), c: (u32, u32), k: nat)
    requires
        g.within(src, c, k),
    ensures
        g.connected(src, c),
{
    let p = lemma_within_path(g, src, c, k);
    assert(g.joins(p, src, c));
}

/// Connected cells are reachable within some number of passages.
pub proof fn lemma_connected_within(g: Grid, a: (u32, u32), b: (u32, u32)) -> (k: nat)
    requires
        g.connected(a, b),
    ensures
        g.within(a, b, k),
{
    let p = choose|p: Seq<(u32, u32)>| g.joins(p, a, b);
    lemma_path_within(g, p, a, b);
    (p.len() - 1) as nat
}

/// Connected cells lie inside the grid.
pub proof fn lemma_connected_bounds(g: Grid, a: (u32, u32), b: (u32, u32))
    requires
        g.connected(a, b),
    ensures
        g.in_bounds(a),
        g.in_bounds(b),
{
    let p = choose|p: Seq<(u32, u32)>| g.joins(p, a, b);
    if p.len() > 1 {
        assert(g.open_between(p[p.len() - 2], p[p.len() - 2 + 1]));
    }
}

/// Every cell of the grid is connected to itself.
pub proof fn lemma_connected_refl(g: Grid, a: (u32, u32))
    requires
        g.in_bounds(a),
    ensures
        g.connected(a, a),
{
    assert(g.joins(seq![a], a, a));
}

/// A passage extends connectedness.
pub proof fn lemma_connected_step(g: Grid, a: (u32, u32), b: (u32, u32), c: (u32, u32))
    requires
        g.connected(a, b),
        g.open_between(b, c),
    ensures
        g.connected(a, c),
{
    let k = lemma_connected_within(g, a, b);
    lemma_within_step(g, a, b, c, k);
    lemma_within_connected(g, a, c, k + 1);
}

proof fn lemma_within_trans(g: Grid, a: (u32, u32), b: (u32, u32), c: (u32, u32), k: nat)
    requires
        g.connected(a, b),
        g.within(b, c, k),
    ensures
        g.connected(a, c),
    decreases k,
{
    if k == 0 {
    } else if g.within(b, c, (k - 1) as nat) {
        lemma_within_trans(g, a, b, c, (k - 1) as nat);
    } else {
        let prev = choose|prev: (u32, u32)| #![trigger g.open_between(prev, c)]
            g.open_between(prev, c) && g.within(b, prev, (k - 1) as nat);
        lemma_within_trans(g, a, b, prev, (k - 1) as nat);
        lemma_connected_step(g, a, prev, c);
    }
}

/// Connectedness is transitive.
pub proof fn lemma_connected_trans(g: Grid, a: (u32, u32), b: (u32, u32), c: (u32, u32))
    requires
        g.connected(a, b),
        g.connected(b, c),
    ensures
        g.connected(a, c),
{
    let k = lemma_connected_within(g, b, c);
    lemma_within_trans(g, a, b, c, k);
}

proof fn lemma_within_sym(g: Grid, a: (u32, u32), c: (u32, u32), k: nat)
    requires
        g.wf(),
        g.within(a, c, k),
    ensures
        g.connected(c, a),
    decreases k,
{
    if k == 0 {
        lemma_connected_refl(g, a);
    } else if g.within(a, c, (k - 1) as nat) {
        lemma_within_sym(g, a, c, (k - 1) as nat);
    } else {
        let prev = choose|prev: (u32, u32)| #![trigger g.open_between(prev, c)]
            g.open_between(prev, c) && g.within(a, prev, (k - 1) as nat);
        lemma_within_sym(g, a, prev, (k - 1) as nat);
        lemma_walls_symmetric(g, prev, c);
        lemma_connected_refl(g, c);
        lemma_connected_step(g, c, c, prev);
        lemma_connected_trans(g, c, prev, a);
    }
}

/// In a well-formed grid connectedness is symmetric.
pub proof fn lemma_connected_sym(g: Grid, a: (u32, u32), b: (u32, u32))
    requires
        g.wf(),
        g.connected(a, b),
    ensures
        g.connected(b, a),
{
    let k = lemma_connected_within(g, a, b);
    lemma_within_sym(g, a, b, k);
}

/// Opening more passages in a grid of the same size never disconnects two
/// cells.
pub proof fn lemma_connected_grows(g: Grid, h: Grid, a: (u32, u32), b: (u32, u32))
    requires
        g.width == h.width,
        g.height == h.height,
        g.passages_within(h),
        g.connected(a, b),
    ensures
        h.connected(a, b),
{
    let p = choose|p: Seq<(u32, u32)>| g.joins(p, a, b);
    assert forall|i: int| 0 <= i < p.len() - 1 implies h.open_between(
        #[trigger] p[i],
        p[i + 1],
    ) by {
        assert(g.open_between(p[i], p[i + 1]));
    }
    assert(h.joins(p, a, b));
}

/// Removing a wall keeps a grid well-formed, keeps its size, keeps every
/// passage and opens at most the one between the two cells.
pub proof fn lemma_carve(g: Grid, a: (u32, u32), b: (u32, u32))
    requires
        g.wf(),
    ensures
        g.carve(a, b).wf(),
        g.carve(a, b).width == g.width,
        g.carve(a, b).height == g.height,
        g.passages_within(g.carve(a, b)),
        forall|p: (u32, u32), q: (u32, u32)| #[trigger]
            g.carve(a, b).open_between(p, q) <==> g.open_between(p, q) || (g.in_bounds(a)
                && g.in_bounds(b) && adjacent(a, b) && ((p == a && q == b) || (p == b && q
                == a))),
{
    if g.in_bounds(a) && g.in_bounds(b) && adjacent(a, b) {
        crate::grid::lemma_with_wall(g, a, b, false);
    }
}

/// Raising a wall keeps a grid well-formed, keeps its size, opens nothing and
/// closes at most the passage between the two cells.
pub proof fn lemma_wall_up(g: Grid, a: (u32, u32), b: (u32, u32))
    requires
        g.wf(),
    ensures
        g.wall_up(a, b).wf(),
        g.wall_up(a, b).width == g.width,
        g.wall_up(a, b).height == g.height,
        g.wall_up(a, b).passages_within(g),
        forall|p: (u32, u32), q: (u32, u32)| #[trigger]
            g.wall_up(a, b).open_between(p, q) <==> g.open_between(p, q) && !((p == a && q == b)
                || (p == b && q == a)),
{
    if g.in_bounds(a) && g.in_bounds(b) && adjacent(a, b) {
        crate::grid::lemma_with_wall(g, a, b, true);
    }
}

/// A passage in front extends connectedness.
pub proof fn lemma_connected_prepend(g: Grid, a: (u32, u32), b: (u32, u32), c: (u32, u32))
    requires
        g.open_between(a, b),
        g.connected(b, c),
    ensures
        g.connected(a, c),
{
    lemma_connected_refl(g, a);
    lemma_connected_step(g, a, a, b);
    lemma_connected_trans(g, a, b, c);
}

/// Every cell of `set` is connected to `origin`.
pub open spec fn rooted(g: Grid, set: Set<(u32, u32)>, origin: (u32, u32)) -> bool {
    forall|c: (u32, u32)| #[trigger] set.contains(c) ==> g.connected(origin, c)
}

/// Whatever lies next to a cell of `set` on the grid is in `set` too.
pub open spec fn closed(g: Grid, set: Set<(u32, u32)>) -> bool {
    forall|a: (u32, u32), b: (u32, u32)|
        set.contains(a) && g.in_bounds(a) && g.in_bounds(b) && #[trigger] adjacent(a, b)
            ==> set.contains(b)
}

/// A set of cells that holds one cell of the grid and, with every cell,
/// its neighbours holds every cell of the grid.
pub proof fn lemma_closed_covers(g: Grid, set: Set<(u32, u32)>, seed: (u32, u32), c: (u32, u32))
    requires
        g.in_bounds(seed),
        set.contains(seed),
        closed(g, set),
        g.in_bounds(c),
    ensures
        set.contains(c),
    decreases manhattan(seed, c),
{
    if c != seed {
        let nearer: (u32, u32) = if c.0 > seed.0 {
            ((c.0 - 1) as u32, c.1)
        } else if c.0 < seed.0 {
            ((c.0 + 1) as u32, c.1)
        } else if c.1 > seed.1 {
            (c.0, (c.1 - 1) as u32)
        } else {
            (c.0, (c.1 + 1) as u32)
        };
        lemma_closed_covers(g, set, seed, nearer);
        assert(adjacent(nearer, c));
    }
}

/// Opening the wall between a cell of a rooted set and a neighbour keeps
/// the set rooted and roots the neighbour.
pub proof fn lemma_rooted_grows(
    g: Grid,
    h: Grid,
    set: Set<(u32, u32)>,
    origin: (u32, u32),
    from: (u32, u32),
    to: (u32, u32),
)
    requires
        g.wf(),
        rooted(g, set, origin),
        set.contains(from),
        g.in_bounds(from),
        g.in_bounds(to),
        adjacent(from, to),
        h == g.carve(from, to) || h == g.carve(to, from),
    ensures
        rooted(h, set.insert(to), origin),
{
    lemma_carve(g, from, to);
    lemma_carve(g, to, from);
    lemma_walls_symmetric(h, from, to);
    assert(h.open_between(from, to));
    assert forall|c: (u32, u32)| #[trigger] set.insert(to).contains(c) implies h.connected(
        origin,
        c,
    ) by {
        lemma_connected_grows(g, h, origin, from);
        if set.contains(c) {
            lemma_connected_grows(g, h, origin, c);
        } else {
            lemma_connected_step(h, origin, from, to);
        }
    }
}

/// A rooted set that is closed under grid adjacency spans the grid: every
/// cell can be reached from the entry.
pub proof fn lemma_rooted_closed_spans(g: Grid, set: Set<(u32, u32)>, origin: (u32, u32))
    requires
        g.wf(),
        g.in_bounds(origin),
        set.contains(origin),
        rooted(g, set, origin),
        closed(g, set),
    ensures
        g.spanning(),
{
    lemma_closed_covers(g, set, origin, g.entry());
    lemma_connected_sym(g, origin, g.entry());
    assert forall|c: (u32, u32)| g.in_bounds(c) implies #[trigger] g.connected(g.entry(), c) by {
        lemma_closed_covers(g, set, origin, c);
        lemma_connected_trans(g, g.entry(), origin, c);
    }
}

/// A set that is closed under grid adjacency and holds a cell of the grid
/// holds every cell of the grid.
pub proof fn lemma_closed_is_full(g: Grid, set: Set<(u32, u32)>, seed: (u32, u32))
    requires
        g.in_bounds(seed),
        set.contains(seed),
        closed(g, set),
    ensures
        forall|c: (u32, u32)| g.in_bounds(c) ==> set.contains(c),
{
    assert forall|c: (u32, u32)| g.in_bounds(c) implies set.contains(c) by {
        lemma_closed_covers(g, set, seed, c);
    }
}

/// A grid that spans is solvable.
pub proof fn lemma_spanning_solvable(g: Grid)
    requires
        g.wf(),
        g.spanning(),
    ensures
        g.solvable(),
{
    assert(g.in_bounds(g.exit()));
}

} // verus!
