//! Breadth-first search over the passage graph, and the solver built on it.

use vstd::prelude::*;
use crate::cell_grid::{CellGrid, CellSet};
use crate::grid::Grid;
use crate::maze::Maze;
use crate::reach::{
    lemma_connected_within, lemma_path_within, lemma_within_connected, lemma_within_mono,
    lemma_within_step,
};

verus! {

/// What a breadth-first search from one cell found: which cells it reached,
/// in how many steps, and from which cell each was first entered.
pub struct Flood {
    seen: CellSet,
    steps: CellGrid<u64>,
    back: CellGrid<(u32, u32)>,
}

/// What the first `t` cells of `nbrs` add to the list `acc`: each cell that
/// cannot be reached from `src` within `level` passages and is not yet in
/// the list, at the end.
pub open spec fn gathered(
    g: Grid,
    src: (u32, u32),
    level: nat,
    acc: Seq<(u32, u32)>,
    nbrs: Seq<(u32, u32)>,
    t: nat,
) -> Seq<(u32, u32)>
    decreases t,
{
    if t == 0 {
        acc
    } else {
        let sofar = gathered(g, src, level, acc, nbrs, (t - 1) as nat);
        let n = nbrs[t - 1];
        if g.within(src, n, level) || sofar.contains(n) {
            sofar
        } else {
            sofar.push(n)
        }
    }
}

/// The cells first entered from the first `i` cells of `row`, whose cells
/// lie `level` passages from `src`: the neighbours that each of them can
/// enter, west, east, north, south, as far as they are new.
pub open spec fn spread(g: Grid, src: (u32, u32), level: nat, row: Seq<(u32, u32)>, i: nat) -> Seq<
    (u32, u32),
>
    decreases i,
{
    if i == 0 {
        Seq::empty()
    } else {
        let nbrs = g.accessible_neighbors(row[i - 1]);
        gathered(g, src, level, spread(g, src, level, row, (i - 1) as nat), nbrs, nbrs.len())
    }
}

/// The cells that a breadth-first search from `src` enters at the given
/// level, in the order in which it enters them.
pub open spec fn wave(g: Grid, src: (u32, u32), level: nat) -> Seq<(u32, u32)>
    decreases level,
{
    if level == 0 {
        seq![src]
    } else {
        let row = wave(g, src, (level - 1) as nat);
        spread(g, src, (level - 1) as nat, row, row.len())
    }
}

/// The cell at position `i` of `row` is the first of the row from which
/// `c` can be entered.
pub open spec fn first_door(g: Grid, row: Seq<(u32, u32)>, c: (u32, u32), i: int) -> bool {
    &&& 0 <= i < row.len()
    &&& g.open_between(row[i], c)
    &&& forall|j: int| 0 <= j < i ==> !g.open_between(#[trigger] row[j], c)
}

/// The cell from which a breadth-first search from `src` enters `c` at the
/// given level: the first cell of the level before that has a passage to
/// `c`.
pub open spec fn entered_from(g: Grid, src: (u32, u32), c: (u32, u32), level: nat) -> (u32, u32) {
    let row = wave(g, src, (level - 1) as nat);
    row[choose|i: int| first_door(g, row, c, i)]
}

/// The way by which a breadth-first search from `src` enters `c` at the
/// given level, from `src` to `c`.
pub open spec fn route(g: Grid, src: (u32, u32), c: (u32, u32), level: nat) -> Seq<(u32, u32)>
    decreases level,
{
    if level == 0 {
        seq![c]
    } else {
        route(g, src, entered_from(g, src, c, level), (level - 1) as nat).push(c)
    }
}

impl Grid {
    /// `b` can be reached from `a` through `k` passages and through no
    /// fewer.
    pub open spec fn nearest_in(self, a: (u32, u32), b: (u32, u32), k: nat) -> bool {
        self.within(a, b, k) && (k > 0 ==> !self.within(a, b, (k - 1) as nat))
    }

    /// The least number of passages from `a` to `b`.
    pub open spec fn steps_between(self, a: (u32, u32), b: (u32, u32)) -> nat {
        choose|k: nat| self.nearest_in(a, b, k)
    }

    /// The shortest way from the entry to the exit that a breadth-first
    /// search finds first when it enters the neighbours of every cell in
    /// the order west, east, north, south.
    pub open spec fn first_route(self) -> Seq<(u32, u32)> {
        route(self, self.entry(), self.exit(), self.steps_between(self.entry(), self.exit()))
    }
}

/// A row has one first door to a cell.
proof fn lemma_first_door(g: Grid, row: Seq<(u32, u32)>, c: (u32, u32), i: int)
    requires
        first_door(g, row, c, i),
    ensures
        (choose|k: int| first_door(g, row, c, k)) == i,
{
    let k = choose|k: int| first_door(g, row, c, k);
    if k < i {
        assert(!g.open_between(row[k], c));
    }
    if i < k {
        assert(!g.open_between(row[i], c));
    }
}

/// The least number of passages between two cells is the one number
/// within which the second is reached and within one less is not.
proof fn lemma_steps_between(g: Grid, a: (u32, u32), b: (u32, u32), k: nat)
    requires
        g.within(a, b, k),
        k > 0 ==> !g.within(a, b, (k - 1) as nat),
    ensures
        g.steps_between(a, b) == k,
{
    assert(g.nearest_in(a, b, k));
    let m = g.steps_between(a, b);
    if m < k {
        lemma_within_mono(g, a, b, m, (k - 1) as nat);
    }
    if k < m {
        lemma_within_mono(g, a, b, k, (m - 1) as nat);
    }
}

/// A list in which every cell was entered from the one before it is the
/// way by which the search enters its cells.
proof fn lemma_route(g: Grid, src: (u32, u32), p: Seq<(u32, u32)>, j: nat)
    requires
        j < p.len(),
        forall|k: int| 1 <= k <= j ==> p[k - 1] == entered_from(g, src, #[trigger] p[k], k as nat),
    ensures
        p.subrange(0, j as int + 1) == route(g, src, p[j as int], j),
    decreases j,
{
    if j == 0 {
        assert(p.subrange(0, 1) =~= seq![p[0]]);
    } else {
        lemma_route(g, src, p, (j - 1) as nat);
        assert(p[j - 1] == entered_from(g, src, p[j as int], j));
        assert(p.subrange(0, j as int + 1) =~= p.subrange(0, j as int).push(p[j as int]));
    }
}

/// Every cell entered after the first was entered from the first cell of
/// the level before that has a passage to it.
spec fn doors(
    g: Grid,
    src: (u32, u32),
    seen: Set<(u32, u32)>,
    steps: &CellGrid<u64>,
    back: &CellGrid<(u32, u32)>,
) -> bool {
    forall|c: (u32, u32)| #[trigger]
        seen.contains(c) && steps.at(c) > 0 ==> back.at(c) == entered_from(
            g,
            src,
            c,
            steps.at(c) as nat,
        )
}

spec fn settled_at(
    g: Grid,
    src: (u32, u32),
    seen: Set<(u32, u32)>,
    steps: &CellGrid<u64>,
    back: &CellGrid<(u32, u32)>,
    c: (u32, u32),
) -> bool {
    &&& g.in_bounds(c)
    &&& g.within(src, c, steps.at(c) as nat)
    &&& steps.at(c) > 0 ==> {
        &&& !g.within(src, c, (steps.at(c) - 1) as nat)
        &&& g.open_between(back.at(c), c)
        &&& g.within(src, back.at(c), (steps.at(c) - 1) as nat)
    }
}

spec fn labelled(
    g: Grid,
    src: (u32, u32),
    seen: Set<(u32, u32)>,
    steps: &CellGrid<u64>,
    back: &CellGrid<(u32, u32)>,
    top: nat,
) -> bool {
    forall|c: (u32, u32)| #[trigger]
        seen.contains(c) ==> settled_at(g, src, seen, steps, back, c) && steps.at(c) <= top
}

spec fn covers(g: Grid, src: (u32, u32), seen: Set<(u32, u32)>, level: nat) -> bool {
    forall|c: (u32, u32)| #[trigger] g.within(src, c, level) ==> seen.contains(c)
}

proof fn lemma_flood_complete(
    g: Grid,
    src: (u32, u32),
    seen: Set<(u32, u32)>,
    steps: &CellGrid<u64>,
    back: &CellGrid<(u32, u32)>,
    level: nat,
    c: (u32, u32),
    k: nat,
)
    requires
        labelled(g, src, seen, steps, back, level),
        covers(g, src, seen, level),
        forall|d: (u32, u32)| #[trigger] seen.contains(d) ==> steps.at(d) != level,
        g.within(src, c, k),
    ensures
        seen.contains(c),
    decreases k,
{
    if k <= level {
        lemma_within_mono(g, src, c, k, level);
    } else if g.within(src, c, (k - 1) as nat) {
        lemma_flood_complete(g, src, seen, steps, back, level, c, (k - 1) as nat);
    } else {
        let p = choose|p: (u32, u32)| #![trigger g.open_between(p, c)]
            g.open_between(p, c) && g.within(src, p, (k - 1) as nat);
        lemma_flood_complete(g, src, seen, steps, back, level, p, (k - 1) as nat);
        assert(seen.contains(p));
        assert(settled_at(g, src, seen, steps, back, p));
        lemma_within_step(g, src, p, c, steps.at(p) as nat);
        lemma_within_mono(g, src, c, (steps.at(p) + 1) as nat, level);
    }
}

impl Flood {
    /// The number of columns of the searched rectangle.
    pub closed spec fn cols(&self) -> nat {
        self.seen.cols()
    }

    /// The number of rows of the searched rectangle.
    pub closed spec fn lines(&self) -> nat {
        self.seen.lines()
    }

    /// The search reached `c`.
    pub closed spec fn reached(&self, c: (u32, u32)) -> bool {
        self.seen@.contains(c)
    }

    /// The number of steps the search recorded for `c`.
    pub closed spec fn distance(&self, c: (u32, u32)) -> nat {
        self.steps.at(c) as nat
    }

    /// The cell from which the search first entered `c`.
    pub closed spec fn previous(&self, c: (u32, u32)) -> (u32, u32) {
        self.back.at(c)
    }

    /// The three records cover the same rectangle.
    pub closed spec fn wf(&self) -> bool {
        &&& self.seen.wf()
        &&& self.steps.wf()
        &&& self.back.wf()
        &&& self.steps.cols() == self.seen.cols()
        &&& self.steps.lines() == self.seen.lines()
        &&& self.back.cols() == self.seen.cols()
        &&& self.back.lines() == self.seen.lines()
    }

    /// The record for `c` is right: its distance is the least number of
    /// passages from `src` to `c`, and the cell before it is one step
    /// nearer to `src` and joined to `c` by a passage.
    pub open spec fn settled(&self, g: Grid, src: (u32, u32), c: (u32, u32)) -> bool {
        &&& g.in_bounds(c)
        &&& g.within(src, c, self.distance(c))
        &&& self.distance(c) > 0 ==> {
            &&& !g.within(src, c, (self.distance(c) - 1) as nat)
            &&& g.open_between(self.previous(c), c)
            &&& g.within(src, self.previous(c), (self.distance(c) - 1) as nat)
        }
    }

    /// The cell recorded before a reached cell was itself reached, exactly
    /// one step earlier.
    pub proof fn lemma_previous(&self, g: Grid, src: (u32, u32), c: (u32, u32))
        requires
            self.charts(g, src),
            self.reached(c),
            self.distance(c) > 0,
        ensures
            self.reached(self.previous(c)),
            self.distance(self.previous(c)) + 1 == self.distance(c),
    {
        let p = self.previous(c);
        let d = self.distance(c);
        assert(self.settled(g, src, c));
        lemma_within_connected(g, src, p, (d - 1) as nat);
        assert(self.reached(p));
        assert(self.settled(g, src, p));
        let e = self.distance(p);
        if e > d - 1 {
            lemma_within_mono(g, src, p, (d - 1) as nat, (e - 1) as nat);
        }
        if e < d - 1 {
            lemma_within_step(g, src, p, c, e);
            lemma_within_mono(g, src, c, e + 1, (d - 1) as nat);
        }
    }

    /// Every cell reached after the first is recorded as entered from the
    /// first cell of the level before that has a passage to it.
    pub open spec fn first_come(&self, g: Grid, src: (u32, u32)) -> bool {
        forall|c: (u32, u32)| #[trigger]
            self.reached(c) && self.distance(c) > 0 ==> self.previous(c) == entered_from(
                g,
                src,
                c,
                self.distance(c),
            )
    }

    /// The search describes the grid `g` as seen from `src`: it reached
    /// exactly the cells connected to `src`, and every record is right.
    pub open spec fn charts(&self, g: Grid, src: (u32, u32)) -> bool {
        &&& self.wf()
        &&& self.cols() == g.width
        &&& self.lines() == g.height
        &&& forall|c: (u32, u32)| #[trigger] self.reached(c) <==> g.connected(src, c)
        &&& forall|c: (u32, u32)| #[trigger] self.reached(c) ==> self.settled(g, src, c)
    }

    /// Every reached cell lies inside the searched rectangle.
    pub proof fn lemma_reached_bounds(&self)
        requires
            self.wf(),
        ensures
            forall|c: (u32, u32)| #[trigger]
                self.reached(c) ==> c.0 < self.cols() && c.1 < self.lines(),
    {
        self.seen.lemma_bounds();
    }

    /// The number of columns of the searched rectangle.
    pub fn width(&self) -> (w: u32)
        requires
            self.wf(),
        ensures
            w == self.cols(),
    {
        self.seen.width()
    }

    /// The number of rows of the searched rectangle.
    pub fn height(&self) -> (h: u32)
        requires
            self.wf(),
        ensures
            h == self.lines(),
    {
        self.seen.height()
    }

    /// Whether the search reached `(x, y)`.
    pub fn reaches(&self, x: u32, y: u32) -> (reached: bool)
        requires
            self.wf(),
        ensures
            reached == self.reached((x, y)),
    {
        self.seen.contains(x, y)
    }

    /// The number of steps recorded for `(x, y)`.
    pub fn steps_to(&self, x: u32, y: u32) -> (steps: u64)
        requires
            self.wf(),
            x < self.cols(),
            y < self.lines(),
        ensures
            steps == self.distance((x, y)),
    {
        self.steps.get(x, y)
    }

    /// The cell recorded as the one before `(x, y)`.
    pub fn before(&self, x: u32, y: u32) -> (cell: (u32, u32))
        requires
            self.wf(),
            x < self.cols(),
            y < self.lines(),
        ensures
            cell == self.previous((x, y)),
    {
        self.back.get(x, y)
    }
}

impl Maze {
    /// Breadth-first search from `(x, y)` over the passages of the maze.
    /// Cells are entered level by level, and from each cell its neighbours
    /// in the order west, east, north, south; a cell is recorded as entered
    /// from the cell that reached it first.
    pub fn flood(&self, x: u32, y: u32) -> (found: Flood)
        requires
            self.wf(),
            self@.in_bounds((x, y)),
        ensures
            found.charts(self@, (x, y)),
            found.first_come(self@, (x, y)),
    {
        let width = self.width();
        let height = self.height();
        let ghost g = self@;
        let ghost src = (x, y);
        let mut seen = CellSet::new(width, height);
        let mut steps: CellGrid<u64> = CellGrid::new(width, height, 0u64);
        let mut back: CellGrid<(u32, u32)> = CellGrid::new(width, height, (x, y));
        seen.insert(x, y);
        let mut current: Vec<(u32, u32)> = Vec::new();
        current.push((x, y));
        let mut level: u64 = 0;
        proof {
            assert(seen@ =~= set![src]);
            assert(current@[0] == src);
            assert(current@ =~= wave(g, src, 0));
        }
        while current.len() > 0
            invariant
                self.wf(),
                g == self@,
                g.in_bounds(src),
                seen.wf(),
                steps.wf(),
                back.wf(),
                seen.cols() == g.width,
                seen.lines() == g.height,
                steps.cols() == g.width,
                steps.lines() == g.height,
                back.cols() == g.width,
                back.lines() == g.height,
                labelled(g, src, seen@, &steps, &back, level as nat),
                covers(g, src, seen@, level as nat),
                doors(g, src, seen@, &steps, &back),
                current@ == wave(g, src, level as nat),
                forall|i: int|
                    0 <= i < current@.len() ==> seen@.contains(#[trigger] current@[i]) && steps.at(
                        current@[i],
                    ) == level,
                forall|c: (u32, u32)| #[trigger]
                    seen@.contains(c) && steps.at(c) == level ==> current@.contains(c),
                current@.len() > 0 ==> level < seen.count(),
            decreases seen.room() * 2 + (if current@.len() > 0 { 1nat } else { 0nat }),
        {
            let mut next: Vec<(u32, u32)> = Vec::new();
            let ghost room0 = seen.room();
            proof {
                seen.lemma_bounds();
            }
            let mut i: usize = 0;
            while i < current.len()
                invariant
                    self.wf(),
                    g == self@,
                    g.in_bounds(src),
                    seen.wf(),
                    steps.wf(),
                    back.wf(),
                    seen.cols() == g.width,
                    seen.lines() == g.height,
                    steps.cols() == g.width,
                    steps.lines() == g.height,
                    back.cols() == g.width,
                    back.lines() == g.height,
                    0 <= i <= current@.len(),
                    doors(g, src, seen@, &steps, &back),
                    current@ == wave(g, src, level as nat),
                    next@ == spread(g, src, level as nat, current@, i as nat),
                    labelled(g, src, seen@, &steps, &back, (level + 1) as nat),
                    covers(g, src, seen@, level as nat),
                    forall|c: (u32, u32)| #[trigger]
                        g.within(src, c, level as nat) ==> steps.at(c) <= level,
                    forall|j: int|
                        0 <= j < current@.len() ==> seen@.contains(#[trigger] current@[j])
                            && steps.at(current@[j]) == level,
                    forall|c: (u32, u32)| #[trigger]
                        seen@.contains(c) && steps.at(c) == level ==> current@.contains(c),
                    forall|j: int|
                        0 <= j < next@.len() ==> seen@.contains(#[trigger] next@[j]) && steps.at(
                            next@[j],
                        ) == level + 1,
                    forall|c: (u32, u32)| #[trigger]
                        seen@.contains(c) && steps.at(c) == level + 1 ==> next@.contains(c),
                    forall|j: int, n: (u32, u32)|
                        0 <= j < i && #[trigger] g.open_between(current@[j], n) ==> seen@.contains(
                            n,
                        ),
                    seen.room() + next@.len() == room0,
                    seen.count() <= g.width * g.height,
                    level + next@.len() < seen.count(),
                decreases current@.len() - i,
            {
                let (cx, cy) = current[i];
                let ghost cur = (cx, cy);
                let nbrs = self.get_accessible_neighbors(cx, cy);
                let mut t: usize = 0;
                while t < nbrs.len()
                    invariant
                        self.wf(),
                        g == self@,
                        g.in_bounds(src),
                        seen.wf(),
                        steps.wf(),
                        back.wf(),
                        seen.cols() == g.width,
                        seen.lines() == g.height,
                        steps.cols() == g.width,
                        steps.lines() == g.height,
                        back.cols() == g.width,
                        back.lines() == g.height,
                        0 <= i < current@.len(),
                        cur == current@[i as int],
                        cur == (cx, cy),
                        0 <= t <= nbrs@.len(),
                        doors(g, src, seen@, &steps, &back),
                        current@ == wave(g, src, level as nat),
                        nbrs@ == g.accessible_neighbors(cur),
                        next@ == gathered(
                            g,
                            src,
                            level as nat,
                            spread(g, src, level as nat, current@, i as nat),
                            nbrs@,
                            t as nat,
                        ),
                        forall|u: int|
                            0 <= u < nbrs@.len() ==> g.open_between(cur, #[trigger] nbrs@[u]),
                        labelled(g, src, seen@, &steps, &back, (level + 1) as nat),
                        covers(g, src, seen@, level as nat),
                        forall|c: (u32, u32)| #[trigger]
                            g.within(src, c, level as nat) ==> steps.at(c) <= level,
                        forall|j: int|
                            0 <= j < current@.len() ==> seen@.contains(#[trigger] current@[j])
                                && steps.at(current@[j]) == level,
                        forall|c: (u32, u32)| #[trigger]
                            seen@.contains(c) && steps.at(c) == level ==> current@.contains(c),
                        forall|j: int|
                            0 <= j < next@.len() ==> seen@.contains(#[trigger] next@[j])
                                && steps.at(next@[j]) == level + 1,
                        forall|c: (u32, u32)| #[trigger]
                            seen@.contains(c) && steps.at(c) == level + 1 ==> next@.contains(c),
                        forall|j: int, n: (u32, u32)|
                            0 <= j < i && #[trigger] g.open_between(current@[j], n)
                                ==> seen@.contains(n),
                        forall|u: int| 0 <= u < t ==> seen@.contains(#[trigger] nbrs@[u]),
                        seen.room() + next@.len() == room0,
                        seen.count() <= g.width * g.height,
                        level + next@.len() < seen.count(),
                    decreases nbrs@.len() - t,
                {
                    let (nx, ny) = nbrs[t];
                    let ghost n = (nx, ny);
                    assert(g.open_between(cur, nbrs@[t as int]));
                    proof {
                        assert(seen@.contains(n) <==> g.within(src, n, level as nat)
                            || next@.contains(n)) by {
                            if seen@.contains(n) {
                                assert(settled_at(g, src, seen@, &steps, &back, n));
                                if steps.at(n) <= level {
                                    lemma_within_mono(g, src, n, steps.at(n) as nat, level as nat);
                                }
                            }
                            if next@.contains(n) {
                                let j = choose|j: int| 0 <= j < next@.len() && next@[j] == n;
                                assert(seen@.contains(next@[j]));
                            }
                        }
                    }
                    if !seen.contains(nx, ny) {
                        let ghost seen0 = seen@;
                        let ghost steps0 = steps;
                        let ghost back0 = back;
                        let ghost next0 = next@;
                        proof {
                            seen.lemma_bounds();
                            crate::cell_grid::lemma_area_bound(g.width as int, g.height as int);
                        }
                        seen.insert(nx, ny);
                        steps.set(nx, ny, level + 1);
                        back.set(nx, ny, (cx, cy));
                        next.push((nx, ny));
                        proof {
                            seen.lemma_bounds();
                            assert(settled_at(g, src, seen0, &steps0, &back0, cur));
                            lemma_within_step(g, src, cur, n, level as nat);
                            assert forall|c: (u32, u32)| #[trigger]
                                seen@.contains(c) implies settled_at(
                                g,
                                src,
                                seen@,
                                &steps,
                                &back,
                                c,
                            ) && steps.at(c) <= level + 1 by {
                                if c != n {
                                    assert(seen0.contains(c));
                                    assert(settled_at(g, src, seen0, &steps0, &back0, c));
                                }
                            }
                            assert forall|c: (u32, u32)| #[trigger]
                                g.within(src, c, level as nat) implies steps.at(c) <= level by {
                                assert(seen0.contains(c));
                                assert(settled_at(g, src, seen0, &steps0, &back0, c));
                            }
                            assert forall|j: int| 0 <= j < current@.len() implies seen@.contains(
                                #[trigger] current@[j],
                            ) && steps.at(current@[j]) == level by {
                                assert(seen0.contains(current@[j]));
                                assert(settled_at(g, src, seen0, &steps0, &back0, current@[j]));
                            }
                            assert forall|c: (u32, u32)| #[trigger]
                                seen@.contains(c) && steps.at(c) == level implies current@.contains(
                                c,
                            ) by {
                                assert(seen0.contains(c));
                                assert(settled_at(g, src, seen0, &steps0, &back0, c));
                            }
                            assert forall|j: int| 0 <= j < next@.len() implies seen@.contains(
                                #[trigger] next@[j],
                            ) && steps.at(next@[j]) == level + 1 by {
                                if j < next0.len() {
                                    assert(seen0.contains(next0[j]));
                                    assert(settled_at(g, src, seen0, &steps0, &back0, next0[j]));
                                }
                            }
                            assert forall|c: (u32, u32)| #[trigger]
                                seen@.contains(c) && steps.at(c) == level + 1 implies next@.contains(
                                c,
                            ) by {
                                if c == n {
                                    assert(next@[next0.len() as int] == n);
                                } else {
                                    assert(seen0.contains(c));
                                    assert(settled_at(g, src, seen0, &steps0, &back0, c));
                                    assert(next0.contains(c));
                                    let j = choose|j: int| 0 <= j < next0.len() && next0[j] == c;
                                    assert(next@[j] == c);
                                }
                            }
                            assert(seen.room() + next@.len() == room0) by {
                                assert(seen.count() <= seen.cols() * seen.lines());
                            }
                            assert(doors(g, src, seen@, &steps, &back)) by {
                                assert(first_door(g, current@, n, i as int)) by {
                                    assert forall|j: int| 0 <= j < i implies !g.open_between(
                                        #[trigger] current@[j],
                                        n,
                                    ) by {
                                        if g.open_between(current@[j], n) {
                                            assert(seen0.contains(n));
                                        }
                                    }
                                }
                                lemma_first_door(g, current@, n, i as int);
                                assert forall|c: (u32, u32)| #[trigger]
                                    seen@.contains(c) && steps.at(c) > 0 implies back.at(c)
                                    == entered_from(g, src, c, steps.at(c) as nat) by {
                                    if c != n {
                                        assert(seen0.contains(c));
                                        assert(settled_at(g, src, seen0, &steps0, &back0, c));
                                    }
                                }
                            }
                        }
                    }
                    t += 1;
                }
                proof {
                    assert forall|n: (u32, u32)| #[trigger]
                        g.open_between(current@[i as int], n) implies seen@.contains(n) by {
                        assert(nbrs@.contains(n));
                    }
                    assert(next@ == spread(g, src, level as nat, current@, (i + 1) as nat));
                }
                i += 1;
            }
            proof {
                assert forall|c: (u32, u32)| #[trigger]
                    g.within(src, c, (level + 1) as nat) implies seen@.contains(c) by {
                    if !g.within(src, c, level as nat) {
                        let p = choose|p: (u32, u32)| #![trigger g.open_between(p, c)]
                            g.open_between(p, c) && g.within(src, p, level as nat);
                        assert(seen@.contains(p));
                        assert(settled_at(g, src, seen@, &steps, &back, p));
                        if steps.at(p) == level {
                            assert(current@.contains(p));
                            let j = choose|j: int| 0 <= j < current@.len() && current@[j] == p;
                            assert(g.open_between(current@[j], c));
                        } else {
                            lemma_within_step(g, src, p, c, steps.at(p) as nat);
                            lemma_within_mono(g, src, c, (steps.at(p) + 1) as nat, level as nat);
                        }
                    }
                }
                seen.lemma_bounds();
                crate::cell_grid::lemma_area_bound(g.width as int, g.height as int);
                assert(next@ == wave(g, src, (level + 1) as nat));
            }
            current = next;
            level = level + 1;
        }
        let found = Flood { seen, steps, back };
        proof {
            assert forall|c: (u32, u32)| #[trigger]
                found.reached(c) && found.distance(c) > 0 implies found.previous(c) == entered_from(
                g,
                src,
                c,
                found.distance(c),
            ) by {
                assert(seen@.contains(c));
            }
            assert forall|c: (u32, u32)| #[trigger] found.reached(c) implies found.settled(
                g,
                src,
                c,
            ) by {
                assert(settled_at(g, src, seen@, &steps, &back, c));
            }
            assert forall|c: (u32, u32)| #[trigger] found.reached(c) <==> g.connected(src, c) by {
                if found.reached(c) {
                    assert(settled_at(g, src, seen@, &steps, &back, c));
                    lemma_within_connected(g, src, c, steps.at(c) as nat);
                }
                if g.connected(src, c) {
                    let k = lemma_connected_within(g, src, c);
                    lemma_flood_complete(g, src, seen@, &steps, &back, level as nat, c, k);
                }
            }
        }
        found
    }

    /// The shortest path from the entry to the exit, or `None` when the exit
    /// cannot be reached. Among several shortest paths the one that the
    /// search discovered first is returned: cells are expanded level by
    /// level, and the neighbours of each in the order west, east, north,
    /// south.
    pub fn solve(&self) -> (path: Option<Vec<(u32, u32)>>)
        requires
            self.wf(),
        ensures
            path is Some <==> self@.solvable(),
            path matches Some(p) ==> {
                &&& self@.joins(p@, self@.entry(), self@.exit())
                &&& forall|q: Seq<(u32, u32)>| #[trigger]
                    self@.joins(q, self@.entry(), self@.exit()) ==> p@.len() <= q.len()
                &&& p@ == self@.first_route()
            },
    {
        let ex = self.width() - 1;
        let ey = self.height() - 1;
        let ghost g = self@;
        let ghost src = (0u32, 0u32);
        let ghost dst = (ex, ey);
        let found = self.flood(0, 0);
        if !found.reaches(ex, ey) {
            return None;
        }
        assert(found.settled(g, src, dst));
        let ghost total = found.distance(dst);
        let mut trail: Vec<(u32, u32)> = Vec::new();
        let mut cur: (u32, u32) = (ex, ey);
        trail.push(cur);
        while found.steps_to(cur.0, cur.1) > 0
            invariant
                found.charts(g, src),
                found.reached(cur),
                g.in_bounds(cur),
                trail@.len() >= 1,
                trail@[0] == dst,
                trail@[trail@.len() - 1] == cur,
                forall|i: int|
                    0 <= i < trail@.len() - 1 ==> g.open_between(trail@[i + 1], #[trigger] trail@[i]),
                trail@.len() + found.distance(cur) == total + 1,
                found.first_come(g, src),
                forall|k: int|
                    0 <= k < trail@.len() ==> found.reached(#[trigger] trail@[k]) && found.distance(
                        trail@[k],
                    ) + k == total,
                forall|k: int|
                    0 <= k < trail@.len() - 1 ==> trail@[k + 1] == entered_from(
                        g,
                        src,
                        #[trigger] trail@[k],
                        (total - k) as nat,
                    ),
            decreases found.distance(cur),
        {
            proof {
                found.lemma_previous(g, src, cur);
            }
            assert(found.settled(g, src, cur));
            let prev = found.before(cur.0, cur.1);
            assert(found.settled(g, src, prev));
            cur = prev;
            trail.push(cur);
        }
        assert(found.settled(g, src, cur));
        let mut path: Vec<(u32, u32)> = Vec::new();
        let mut i: usize = trail.len();
        while i > 0
            invariant
                0 <= i <= trail@.len(),
                path@.len() == trail@.len() - i,
                forall|j: int| 0 <= j < path@.len() ==> #[trigger] path@[j] == trail@[trail@.len() - 1 - j],
            decreases i,
        {
            i -= 1;
            path.push(trail[i]);
        }
        proof {
            assert forall|j: int| 0 <= j < path@.len() - 1 implies g.open_between(
                #[trigger] path@[j],
                path@[j + 1],
            ) by {
                let k = trail@.len() - 2 - j;
                assert(g.open_between(trail@[k + 1], trail@[k]));
            }
            assert(g.joins(path@, src, dst));
            assert forall|q: Seq<(u32, u32)>| #[trigger] g.joins(q, src, dst) implies path@.len()
                <= q.len() by {
                lemma_path_within(g, q, src, dst);
                if q.len() < path@.len() {
                    lemma_within_mono(g, src, dst, (q.len() - 1) as nat, (total - 1) as nat);
                }
            }
            assert forall|k: int| 1 <= k <= total implies path@[k - 1] == entered_from(
                g,
                src,
                #[trigger] path@[k],
                k as nat,
            ) by {
                let at = trail@.len() - 1 - k;
                assert(trail@[at + 1] == entered_from(g, src, trail@[at], (total - at) as nat));
            }
            lemma_route(g, src, path@, total);
            assert(path@.subrange(0, total as int + 1) =~= path@);
            lemma_steps_between(g, src, dst, total);
        }
        Some(path)
    }
}

} // verus!
