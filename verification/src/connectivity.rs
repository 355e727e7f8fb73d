//! Connectivity repair: listing the cells a search reached, finding the
//! nearest pair of cells between two groups, carving a corridor between two
//! cells, and making sure the exit can be reached from the entry.

use vstd::prelude::*;
use crate::cell_grid::CellSet;
use crate::grid::{adjacent, manhattan, Grid};
use crate::maze::Maze;
use crate::reach::{
    lemma_carve, lemma_connected_grows, lemma_connected_refl, lemma_connected_step,
    lemma_connected_sym, lemma_connected_trans,
};
use crate::search::Flood;

verus! {

/// `a` comes before `b` when the grid is read row by row, each row from the
/// west.
pub open spec fn row_major_before(a: (u32, u32), b: (u32, u32)) -> bool {
    a.1 < b.1 || (a.1 == b.1 && a.0 < b.0)
}

/// `t` lies between `u` and `v`, ends included, whichever of the two is
/// smaller.
pub open spec fn spans(u: u32, v: u32, t: u32) -> bool {
    (u <= t <= v) || (v <= t <= u)
}

/// The step between `p` and `q` lies on row `y`, between columns `from` and
/// `to`.
pub open spec fn on_row_run(y: u32, from: u32, to: u32, p: (u32, u32), q: (u32, u32)) -> bool {
    &&& adjacent(p, q)
    &&& p.1 == y
    &&& q.1 == y
    &&& spans(from, to, p.0)
    &&& spans(from, to, q.0)
}

/// The step between `p` and `q` lies on column `x`, between rows `from` and
/// `to`.
pub open spec fn on_column_run(x: u32, from: u32, to: u32, p: (u32, u32), q: (u32, u32)) -> bool {
    &&& adjacent(p, q)
    &&& p.0 == x
    &&& q.0 == x
    &&& spans(from, to, p.1)
    &&& spans(from, to, q.1)
}

/// The step between `p` and `q` lies on the corridor from `a` to `b`: along
/// the row of `a` to the column of `b`, then along that column to `b`.
pub open spec fn on_corridor(a: (u32, u32), b: (u32, u32), p: (u32, u32), q: (u32, u32)) -> bool {
    on_row_run(a.1, a.0, b.0, p, q) || on_column_run(b.0, a.1, b.1, p, q)
}

/// `h` is `g` with the corridor from `a` to `b` carved and nothing else
/// changed.
pub open spec fn corridor_carved(g: Grid, h: Grid, a: (u32, u32), b: (u32, u32)) -> bool {
    &&& h.wf()
    &&& h.width == g.width
    &&& h.height == g.height
    &&& forall|p: (u32, u32), q: (u32, u32)| #[trigger]
        h.open_between(p, q) <==> g.open_between(p, q) || on_corridor(a, b, p, q)
}

/// The pair of positions `(i, j)` comes before `(bi, bj)` when pairs are
/// read with the first position outermost.
pub open spec fn pair_before(i: int, j: int, bi: int, bj: int) -> bool {
    i < bi || (i == bi && j < bj)
}

/// Among the pairs of one cell of `near` and one of `far`, the pair at
/// positions `(bi, bj)` has the least Manhattan distance, and it is the
/// first such pair.
pub open spec fn nearest_at(
    near: Seq<(u32, u32)>,
    far: Seq<(u32, u32)>,
    bi: int,
    bj: int,
) -> bool {
    &&& 0 <= bi < near.len()
    &&& 0 <= bj < far.len()
    &&& forall|i: int, j: int|
        #![trigger near[i], far[j]]
        0 <= i < near.len() && 0 <= j < far.len() ==> {
            &&& manhattan(near[bi], far[bj]) <= manhattan(near[i], far[j])
            &&& pair_before(i, j, bi, bj) ==> manhattan(near[bi], far[bj]) < manhattan(
                near[i],
                far[j],
            )
        }
}

spec fn nearest_so_far(
    near: Seq<(u32, u32)>,
    far: Seq<(u32, u32)>,
    bi: int,
    bj: int,
    ci: int,
    cj: int,
) -> bool {
    &&& 0 <= bi < near.len()
    &&& 0 <= bj < far.len()
    &&& pair_before(bi, bj, ci, cj)
    &&& forall|i: int, j: int|
        #![trigger near[i], far[j]]
        0 <= i < near.len() && 0 <= j < far.len() && pair_before(i, j, ci, cj) ==> {
            &&& manhattan(near[bi], far[bj]) <= manhattan(near[i], far[j])
            &&& pair_before(i, j, bi, bj) ==> manhattan(near[bi], far[bj]) < manhattan(
                near[i],
                far[j],
            )
        }
}

/// The Manhattan distance between two cells.
pub fn cell_distance(a: (u32, u32), b: (u32, u32)) -> (d: u64)
    ensures
        d == manhattan(a, b),
{
    let dx: u64 = if a.0 <= b.0 {
        (b.0 - a.0) as u64
    } else {
        (a.0 - b.0) as u64
    };
    let dy: u64 = if a.1 <= b.1 {
        (b.1 - a.1) as u64
    } else {
        (a.1 - b.1) as u64
    };
    dx + dy
}

/// The positions of the nearest pair of one cell of `near` and one of
/// `far` by Manhattan distance; on a tie, the pair met first when `near` is
/// walked outermost. `None` when either list is empty.
pub fn nearest_pair(near: &Vec<(u32, u32)>, far: &Vec<(u32, u32)>) -> (best: Option<
    (usize, usize),
>)
    ensures
        best is None <==> near@.len() == 0 || far@.len() == 0,
        best matches Some(at) ==> nearest_at(near@, far@, at.0 as int, at.1 as int),
{
    let mut best: Option<(usize, usize)> = None;
    let mut least: u64 = 0;
    let mut i: usize = 0;
    while i < near.len()
        invariant
            0 <= i <= near@.len(),
            best is None <==> i == 0 || far@.len() == 0,
            best matches Some(at) ==> nearest_so_far(near@, far@, at.0 as int, at.1 as int, i as int, 0)
                && least == manhattan(near@[at.0 as int], far@[at.1 as int]),
        decreases near@.len() - i,
    {
        let mut j: usize = 0;
        while j < far.len()
            invariant
                0 <= i < near@.len(),
                0 <= j <= far@.len(),
                best is None <==> (i == 0 && j == 0) || far@.len() == 0,
                best matches Some(at) ==> nearest_so_far(
                    near@,
                    far@,
                    at.0 as int,
                    at.1 as int,
                    i as int,
                    j as int,
                ) && least == manhattan(near@[at.0 as int], far@[at.1 as int]),
            decreases far@.len() - j,
        {
            let d = cell_distance(near[i], far[j]);
            let better = match best {
                None => true,
                Some(_) => d < least,
            };
            if better {
                best = Some((i, j));
                least = d;
            }
            j += 1;
        }
        i += 1;
    }
    best
}

impl Flood {
    /// The cells the search reached, row by row, each row from the west.
    pub fn cells(&self) -> (list: Vec<(u32, u32)>)
        requires
            self.wf(),
        ensures
            forall|c: (u32, u32)|
                #![trigger list@.contains(c)]
                #![trigger self.reached(c)]
                list@.contains(c) <==> self.reached(c),
            forall|i: int, j: int|
                0 <= i < j < list@.len() ==> row_major_before(list@[i], list@[j]),
    {
        let width = self.width();
        let height = self.height();
        let mut list: Vec<(u32, u32)> = Vec::new();
        let mut y: u32 = 0;
        while y < height
            invariant
                self.wf(),
                width == self.cols(),
                height == self.lines(),
                0 <= y <= height,
                forall|c: (u32, u32)|
                    #![trigger list@.contains(c)]
                    #![trigger self.reached(c)]
                    list@.contains(c) <==> self.reached(c) && c.1 < y,
                forall|i: int, j: int|
                    0 <= i < j < list@.len() ==> row_major_before(list@[i], list@[j]),
            decreases height - y,
        {
            let mut x: u32 = 0;
            while x < width
                invariant
                    self.wf(),
                    width == self.cols(),
                    height == self.lines(),
                    0 <= y < height,
                    0 <= x <= width,
                    forall|c: (u32, u32)|
                        #![trigger list@.contains(c)]
                        #![trigger self.reached(c)]
                        list@.contains(c) <==> self.reached(c) && row_major_before(c, (x, y)),
                    forall|i: int, j: int|
                        0 <= i < j < list@.len() ==> row_major_before(list@[i], list@[j]),
                decreases width - x,
            {
                if self.reaches(x, y) {
                    let ghost before = list@;
                    list.push((x, y));
                    proof {
                        crate::seqs::lemma_push_contains(before, (x, y));
                        assert forall|i: int, j: int| 0 <= i < j < list@.len() implies row_major_before(
                            list@[i],
                            list@[j],
                        ) by {
                            if j == before.len() {
                                assert(before.contains(before[i]));
                            }
                        }
                    }
                }
                x += 1;
            }
            proof {
                self.lemma_reached_bounds();
            }
            y += 1;
        }
        proof {
            self.lemma_reached_bounds();
        }
        list
    }
}

impl Maze {
    /// Carves the corridor from `(x1, y1)` to `(x2, y2)`: along the row of
    /// the first cell to the column of the second, then along that column,
    /// removing every wall crossed.
    pub fn carve_corridor(&mut self, x1: u32, y1: u32, x2: u32, y2: u32)
        requires
            old(self).wf(),
            old(self)@.in_bounds((x1, y1)),
            old(self)@.in_bounds((x2, y2)),
        ensures
            corridor_carved(old(self)@, final(self)@, (x1, y1), (x2, y2)),
            final(self)@.connected((x1, y1), (x2, y2)),
    {
        let ghost g0 = self@;
        let ghost a = (x1, y1);
        let ghost b = (x2, y2);
        let mut cx = x1;
        proof {
            lemma_connected_refl(g0, a);
        }
        while cx != x2
            invariant
                self.wf(),
                g0.wf(),
                self@.width == g0.width,
                self@.height == g0.height,
                g0.in_bounds(a),
                g0.in_bounds(b),
                a == (x1, y1),
                b == (x2, y2),
                spans(x1, x2, cx),
                self@.connected(a, (cx, y1)),
                forall|p: (u32, u32), q: (u32, u32)| #[trigger]
                    self@.open_between(p, q) <==> g0.open_between(p, q) || on_row_run(
                        y1,
                        x1,
                        cx,
                        p,
                        q,
                    ),
            decreases (if cx <= x2 { x2 - cx } else { cx - x2 }),
        {
            let nx = if cx < x2 {
                cx + 1
            } else {
                cx - 1
            };
            let ghost before = self@;
            proof {
                lemma_carve(before, (cx, y1), (nx, y1));
            }
            self.remove_wall(cx, y1, nx, y1);
            proof {
                lemma_connected_grows(before, self@, a, (cx, y1));
                assert(self@.open_between((cx, y1), (nx, y1)));
                lemma_connected_step(self@, a, (cx, y1), (nx, y1));
                assert forall|p: (u32, u32), q: (u32, u32)| #[trigger]
                    self@.open_between(p, q) <==> g0.open_between(p, q) || on_row_run(
                        y1,
                        x1,
                        nx,
                        p,
                        q,
                    ) by {
                    assert(before.open_between(p, q) <==> g0.open_between(p, q) || on_row_run(
                        y1,
                        x1,
                        cx,
                        p,
                        q,
                    ));
                }
            }
            cx = nx;
        }
        let mut cy = y1;
        while cy != y2
            invariant
                self.wf(),
                g0.wf(),
                self@.width == g0.width,
                self@.height == g0.height,
                g0.in_bounds(a),
                g0.in_bounds(b),
                a == (x1, y1),
                b == (x2, y2),
                spans(y1, y2, cy),
                self@.connected(a, (x2, cy)),
                forall|p: (u32, u32), q: (u32, u32)| #[trigger]
                    self@.open_between(p, q) <==> g0.open_between(p, q) || on_row_run(
                        y1,
                        x1,
                        x2,
                        p,
                        q,
                    ) || on_column_run(x2, y1, cy, p, q),
            decreases (if cy <= y2 { y2 - cy } else { cy - y2 }),
        {
            let ny = if cy < y2 {
                cy + 1
            } else {
                cy - 1
            };
            let ghost before = self@;
            proof {
                lemma_carve(before, (x2, cy), (x2, ny));
            }
            self.remove_wall(x2, cy, x2, ny);
            proof {
                lemma_connected_grows(before, self@, a, (x2, cy));
                assert(self@.open_between((x2, cy), (x2, ny)));
                lemma_connected_step(self@, a, (x2, cy), (x2, ny));
                assert forall|p: (u32, u32), q: (u32, u32)| #[trigger]
                    self@.open_between(p, q) <==> g0.open_between(p, q) || on_row_run(
                        y1,
                        x1,
                        x2,
                        p,
                        q,
                    ) || on_column_run(x2, y1, ny, p, q) by {
                    assert(before.open_between(p, q) <==> g0.open_between(p, q) || on_row_run(
                        y1,
                        x1,
                        x2,
                        p,
                        q,
                    ) || on_column_run(x2, y1, cy, p, q));
                }
            }
            cy = ny;
        }
    }

    /// Joins two groups of cells by the corridor between their nearest
    /// pair (see `nearest_pair`), and returns that pair. Does nothing and
    /// returns `None` when either group is empty.
    pub fn connect_nearest(&mut self, near: &Vec<(u32, u32)>, far: &Vec<(u32, u32)>) -> (joined:
        Option<((u32, u32), (u32, u32))>)
        requires
            old(self).wf(),
            forall|i: int| 0 <= i < near@.len() ==> old(self)@.in_bounds(#[trigger] near@[i]),
            forall|j: int| 0 <= j < far@.len() ==> old(self)@.in_bounds(#[trigger] far@[j]),
        ensures
            final(self).wf(),
            final(self)@.width == old(self)@.width,
            final(self)@.height == old(self)@.height,
            old(self)@.passages_within(final(self)@),
            joined is None <==> near@.len() == 0 || far@.len() == 0,
            joined is None ==> final(self)@ == old(self)@,
            joined matches Some(ends) ==> {
                &&& exists|i: int, j: int|
                    nearest_at(near@, far@, i, j) && near@[i] == ends.0 && far@[j] == ends.1
                &&& corridor_carved(old(self)@, final(self)@, ends.0, ends.1)
                &&& final(self)@.connected(ends.0, ends.1)
            },
    {
        match nearest_pair(near, far) {
            None => None,
            Some((i, j)) => {
                let a = near[i];
                let b = far[j];
                self.carve_corridor(a.0, a.1, b.0, b.1);
                assert(nearest_at(near@, far@, i as int, j as int) && near@[i as int] == a
                    && far@[j as int] == b);
                Some((a, b))
            },
        }
    }

    /// Makes sure the exit can be reached from the entry. A maze that is
    /// already solvable is left as it is. Otherwise the cells reachable from
    /// the entry and those reachable from the exit are joined by the
    /// corridor between their nearest pair; on a tie the pair whose entry
    /// side cell comes first row by row is taken, and among those the one
    /// whose exit side cell comes first.
    pub fn ensure_connectivity(&mut self)
        requires
            old(self).wf(),
        ensures
            final(self).wf(),
            final(self)@.width == old(self)@.width,
            final(self)@.height == old(self)@.height,
            final(self)@.solvable(),
            old(self)@.passages_within(final(self)@),
            old(self)@.solvable() ==> final(self)@ == old(self)@,
            !old(self)@.solvable() ==> exists|a: (u32, u32), b: (u32, u32)|
                repaired_by(old(self)@, final(self)@, a, b),
            mended(old(self)@, final(self)@),
    {
        let ex = self.width() - 1;
        let ey = self.height() - 1;
        let ghost g = self@;
        let ghost entry = (0u32, 0u32);
        let ghost exit = (ex, ey);
        let from_entry = self.flood(0, 0);
        if from_entry.reaches(ex, ey) {
            return ;
        }
        let from_exit = self.flood(ex, ey);
        let near = from_entry.cells();
        let far = from_exit.cells();
        proof {
            lemma_connected_refl(g, entry);
            lemma_connected_refl(g, exit);
            assert(near@.contains(entry));
            assert(far@.contains(exit));
            from_entry.lemma_reached_bounds();
            from_exit.lemma_reached_bounds();
            assert forall|i: int| 0 <= i < near@.len() implies g.in_bounds(#[trigger] near@[i]) by {
                assert(near@.contains(near@[i]));
            }
            assert forall|j: int| 0 <= j < far@.len() implies g.in_bounds(#[trigger] far@[j]) by {
                assert(far@.contains(far@[j]));
            }
        }
        let joined = self.connect_nearest(&near, &far);
        proof {
            let ends = joined->Some_0;
            let a = ends.0;
            let b = ends.1;
            let (i, j) = choose|i: int, j: int|
                nearest_at(near@, far@, i, j) && near@[i] == a && far@[j] == b;
            assert(near@.contains(a));
            assert(far@.contains(b));
            assert(g.connected(entry, a));
            assert(g.connected(exit, b));
            lemma_connected_sym(g, exit, b);
            lemma_connected_grows(g, self@, entry, a);
            lemma_connected_grows(g, self@, b, exit);
            lemma_connected_trans(self@, entry, a, b);
            lemma_connected_trans(self@, entry, b, exit);
            assert forall|a2: (u32, u32), b2: (u32, u32)|
                g.connected(entry, a2) && g.connected(exit, b2) implies {
                &&& manhattan(a, b) <= manhattan(a2, b2)
                &&& (row_major_before(a2, a) || (a2 == a && row_major_before(b2, b)))
                    ==> manhattan(a, b) < manhattan(a2, b2)
            } by {
                assert(near@.contains(a2));
                assert(far@.contains(b2));
                let i2 = choose|i2: int| 0 <= i2 < near@.len() && near@[i2] == a2;
                let j2 = choose|j2: int| 0 <= j2 < far@.len() && far@[j2] == b2;
                assert(manhattan(near@[i], far@[j]) <= manhattan(near@[i2], far@[j2]));
                if row_major_before(a2, a) {
                    if i2 >= i {
                        if i2 > i {
                            assert(row_major_before(near@[i], near@[i2]));
                        }
                    }
                    assert(pair_before(i2, j2, i, j));
                } else if a2 == a && row_major_before(b2, b) {
                    if i2 != i {
                        if i2 < i {
                            assert(row_major_before(near@[i2], near@[i]));
                        } else {
                            assert(row_major_before(near@[i], near@[i2]));
                        }
                    }
                    if j2 >= j {
                        if j2 > j {
                            assert(row_major_before(far@[j], far@[j2]));
                        }
                    }
                    assert(pair_before(i2, j2, i, j));
                }
            }
            assert(repaired_by(g, self@, a, b));
        }
    }
}

/// `h` is the repair of the unsolvable grid `g` through `a` and `b`: `a` is
/// connected to the entry and `b` to the exit, no such pair is nearer, of
/// the nearest pairs this one comes first row by row, and `h` is `g` with
/// the corridor from `a` to `b` carved.
pub open spec fn repaired_by(g: Grid, h: Grid, a: (u32, u32), b: (u32, u32)) -> bool {
    &&& g.connected(g.entry(), a)
    &&& g.connected(g.exit(), b)
    &&& forall|a2: (u32, u32), b2: (u32, u32)|
        #![trigger g.connected(g.entry(), a2), g.connected(g.exit(), b2)]
        g.connected(g.entry(), a2) && g.connected(g.exit(), b2) ==> {
            &&& manhattan(a, b) <= manhattan(a2, b2)
            &&& (row_major_before(a2, a) || (a2 == a && row_major_before(b2, b))) ==> manhattan(
                a,
                b,
            ) < manhattan(a2, b2)
        }
    &&& corridor_carved(g, h, a, b)
}

/// Every cell of every group lies inside a `width` by `height` rectangle.
pub open spec fn groups_inside(groups: Seq<Vec<(u32, u32)>>, width: nat, height: nat) -> bool {
    forall|i: int, k: int|
        0 <= i < groups.len() && 0 <= k < groups[i]@.len() ==> (#[trigger] groups[i]@[k]).0 < width
            && groups[i]@[k].1 < height
}

/// The step between `p` and `q` lies on the corridor between the nearest
/// pair of group `i` and the group after it.
pub open spec fn on_stitch(
    groups: Seq<Vec<(u32, u32)>>,
    i: int,
    p: (u32, u32),
    q: (u32, u32),
) -> bool {
    0 <= i && i + 1 < groups.len() && exists|bi: int, bj: int|
        #![trigger groups[i]@[bi], groups[i + 1]@[bj]]
        nearest_at(groups[i]@, groups[i + 1]@, bi, bj) && on_corridor(
            groups[i]@[bi],
            groups[i + 1]@[bj],
            p,
            q,
        )
}

/// The step between `p` and `q` lies on one of the corridors that join
/// the first `upto` groups each to the next.
pub open spec fn stitched(
    groups: Seq<Vec<(u32, u32)>>,
    upto: int,
    p: (u32, u32),
    q: (u32, u32),
) -> bool {
    exists|i: int| i < upto && #[trigger] on_stitch(groups, i, p, q)
}

/// Two groups have one nearest pair.
pub proof fn lemma_nearest_unique(
    near: Seq<(u32, u32)>,
    far: Seq<(u32, u32)>,
    bi: int,
    bj: int,
    ci: int,
    cj: int,
)
    requires
        nearest_at(near, far, bi, bj),
        nearest_at(near, far, ci, cj),
    ensures
        bi == ci,
        bj == cj,
{
    let _ = (near[bi], far[bj]);
    let _ = (near[ci], far[cj]);
    if pair_before(ci, cj, bi, bj) {
        assert(manhattan(near[bi], far[bj]) < manhattan(near[ci], far[cj]));
    }
    if pair_before(bi, bj, ci, cj) {
        assert(manhattan(near[ci], far[cj]) < manhattan(near[bi], far[bj]));
    }
}

/// The corridor that joins group `i` to the next is the one between
/// their nearest pair.
proof fn lemma_stitch_at(
    groups: Seq<Vec<(u32, u32)>>,
    i: int,
    bi: int,
    bj: int,
    p: (u32, u32),
    q: (u32, u32),
)
    requires
        0 <= i,
        i + 1 < groups.len(),
        nearest_at(groups[i]@, groups[i + 1]@, bi, bj),
    ensures
        on_stitch(groups, i, p, q) <==> on_corridor(groups[i]@[bi], groups[i + 1]@[bj], p, q),
{
    let near = groups[i]@;
    let far = groups[i + 1]@;
    if on_stitch(groups, i, p, q) {
        let (ci, cj) = choose|ci: int, cj: int|
            #![trigger near[ci], far[cj]]
            nearest_at(near, far, ci, cj) && on_corridor(near[ci], far[cj], p, q);
        lemma_nearest_unique(near, far, bi, bj, ci, cj);
    }
    if on_corridor(near[bi], far[bj], p, q) {
        let _ = (near[bi], far[bj]);
        assert(on_stitch(groups, i, p, q));
    }
}

/// Joining group `i` to the next adds the steps of their corridor to the
/// passages, or nothing where one of the two is empty.
proof fn lemma_stitch_step(
    groups: Seq<Vec<(u32, u32)>>,
    i: int,
    base: Grid,
    before: Grid,
    after: Grid,
    joined: Option<((u32, u32), (u32, u32))>,
)
    requires
        0 <= i,
        i + 1 < groups.len(),
        forall|p: (u32, u32), q: (u32, u32)| #[trigger]
            before.open_between(p, q) <==> base.open_between(p, q) || stitched(groups, i, p, q),
        joined is None <==> groups[i]@.len() == 0 || groups[i + 1]@.len() == 0,
        joined is None ==> after == before,
        joined matches Some(ends) ==> {
            &&& exists|bi: int, bj: int| #[trigger]
                nearest_at(groups[i]@, groups[i + 1]@, bi, bj) && groups[i]@[bi] == ends.0
                    && groups[i + 1]@[bj] == ends.1
            &&& corridor_carved(before, after, ends.0, ends.1)
        },
    ensures
        forall|p: (u32, u32), q: (u32, u32)| #[trigger]
            after.open_between(p, q) <==> base.open_between(p, q) || stitched(groups, i + 1, p, q),
{
    let near = groups[i]@;
    let far = groups[i + 1]@;
    assert forall|p: (u32, u32), q: (u32, u32)| #[trigger]
        after.open_between(p, q) <==> base.open_between(p, q) || stitched(
            groups,
            i + 1,
            p,
            q,
        ) by {
        assert(before.open_between(p, q) <==> base.open_between(p, q) || stitched(groups, i, p, q));
        let here = on_stitch(groups, i, p, q);
        assert(stitched(groups, i + 1, p, q) <==> stitched(groups, i, p, q) || here) by {
            if stitched(groups, i, p, q) {
                let k = choose|k: int| k < i && #[trigger] on_stitch(groups, k, p, q);
                assert(on_stitch(groups, k, p, q));
            }
            if stitched(groups, i + 1, p, q) {
                let k = choose|k: int| k < i + 1 && #[trigger] on_stitch(groups, k, p, q);
                if k < i {
                    assert(stitched(groups, i, p, q));
                }
            }
        }
        match joined {
            None => {
                if here {
                    let (ci, cj) = choose|ci: int, cj: int|
                        #![trigger near[ci], far[cj]]
                        nearest_at(near, far, ci, cj) && on_corridor(near[ci], far[cj], p, q);
                }
            },
            Some(ends) => {
                let (bi, bj) = choose|bi: int, bj: int|
                    nearest_at(near, far, bi, bj) && near[bi] == ends.0 && far[bj] == ends.1;
                lemma_stitch_at(groups, i, bi, bj, p, q);
                assert(after.open_between(p, q) <==> before.open_between(p, q) || on_corridor(
                    ends.0,
                    ends.1,
                    p,
                    q,
                ));
            },
        }
    }
}

/// Some cell of `a` is connected to some cell of `b`.
pub open spec fn linked(g: Grid, a: Seq<(u32, u32)>, b: Seq<(u32, u32)>) -> bool {
    exists|p: (u32, u32), q: (u32, u32)| a.contains(p) && b.contains(q) && g.connected(p, q)
}

/// The cells among `eligible` that can be reached from `(x, y)` through
/// passages without leaving `eligible`, in the order a breadth-first
/// search meets them. Every cell met is added to `visited`, and cells
/// already there are not entered.
pub fn flood_region(maze: &Maze, eligible: &CellSet, visited: &mut CellSet, x: u32, y: u32) -> (region:
    Vec<(u32, u32)>)
    requires
        maze.wf(),
        maze@.in_bounds((x, y)),
        eligible.wf(),
        eligible.cols() == maze@.width,
        eligible.lines() == maze@.height,
        old(visited).wf(),
        old(visited).cols() == maze@.width,
        old(visited).lines() == maze@.height,
    ensures
        final(visited).wf(),
        final(visited).cols() == maze@.width,
        final(visited).lines() == maze@.height,
        region@.len() >= 1,
        region@[0] == (x, y),
        forall|k: int| 0 <= k < region@.len() ==> maze@.in_bounds(#[trigger] region@[k]),
        forall|k: int| 0 <= k < region@.len() ==> final(visited)@.contains(#[trigger] region@[k]),
        forall|k: int| 0 <= k < region@.len() ==> maze@.connected((x, y), #[trigger] region@[k]),
        forall|k: int| 1 <= k < region@.len() ==> eligible@.contains(#[trigger] region@[k]),
        forall|k: int| 1 <= k < region@.len() ==> !old(visited)@.contains(#[trigger] region@[k]),
        forall|c: (u32, u32)|
            #![trigger final(visited)@.contains(c)]
            #![trigger old(visited)@.contains(c)]
            #![trigger region@.contains(c)]
            final(visited)@.contains(c) <==> old(visited)@.contains(c) || region@.contains(c),
        forall|k: int, n: (u32, u32)|
            0 <= k < region@.len() && eligible@.contains(n) && #[trigger] maze@.open_between(
                region@[k],
                n,
            ) ==> final(visited)@.contains(n),
        !old(visited)@.contains((x, y)) ==> region@.no_duplicates(),
{
    let mut queue: Vec<(u32, u32)> = Vec::new();
    queue.push((x, y));
    visited.insert(x, y);
    let mut head: usize = 0;
    proof {
        lemma_connected_refl(maze@, (x, y));
        assert(queue@[0] == (x, y));
        assert forall|c: (u32, u32)|
            #![trigger visited@.contains(c)]
            #![trigger old(visited)@.contains(c)]
            #![trigger queue@.contains(c)]
            visited@.contains(c) <==> old(visited)@.contains(c) || queue@.contains(c) by {
            if queue@.contains(c) {
                let k = choose|k: int| 0 <= k < queue@.len() && queue@[k] == c;
            }
        }
    }
    while head < queue.len()
        invariant
            maze.wf(),
            eligible.wf(),
            visited.wf(),
            visited.cols() == maze@.width,
            visited.lines() == maze@.height,
            0 <= head <= queue@.len(),
            queue@.len() >= 1,
            queue@[0] == (x, y),
            forall|k: int| 0 <= k < queue@.len() ==> maze@.in_bounds(#[trigger] queue@[k]),
            forall|k: int| 0 <= k < queue@.len() ==> visited@.contains(#[trigger] queue@[k]),
            forall|k: int| 0 <= k < queue@.len() ==> maze@.connected((x, y), #[trigger] queue@[k]),
            forall|k: int| 1 <= k < queue@.len() ==> eligible@.contains(#[trigger] queue@[k]),
            forall|k: int| 1 <= k < queue@.len() ==> !old(visited)@.contains(#[trigger] queue@[k]),
            forall|c: (u32, u32)|
                #![trigger visited@.contains(c)]
                #![trigger old(visited)@.contains(c)]
                #![trigger queue@.contains(c)]
                visited@.contains(c) <==> old(visited)@.contains(c) || queue@.contains(c),
            forall|k: int, n: (u32, u32)|
                0 <= k < head && eligible@.contains(n) && #[trigger] maze@.open_between(
                    queue@[k],
                    n,
                ) ==> visited@.contains(n),
            !old(visited)@.contains((x, y)) ==> queue@.no_duplicates(),
        decreases visited.room() + queue@.len() - head,
    {
        let (cx, cy) = queue[head];
        assert(maze@.connected((x, y), queue@[head as int]));
        head += 1;
        let around = maze.get_accessible_neighbors(cx, cy);
        let ghost base = visited.room() + queue@.len();
        let mut t: usize = 0;
        while t < around.len()
            invariant
                maze.wf(),
                eligible.wf(),
                visited.wf(),
                visited.cols() == maze@.width,
                visited.lines() == maze@.height,
                0 <= head <= queue@.len(),
                queue@.len() >= 1,
                queue@[0] == (x, y),
                0 <= t <= around@.len(),
                forall|u: int|
                    0 <= u < around@.len() ==> maze@.open_between((cx, cy), #[trigger] around@[u]),
                forall|k: int| 0 <= k < queue@.len() ==> maze@.in_bounds(#[trigger] queue@[k]),
                forall|k: int| 0 <= k < queue@.len() ==> visited@.contains(#[trigger] queue@[k]),
                forall|k: int|
                    0 <= k < queue@.len() ==> maze@.connected((x, y), #[trigger] queue@[k]),
                forall|k: int| 1 <= k < queue@.len() ==> eligible@.contains(#[trigger] queue@[k]),
                forall|k: int|
                    1 <= k < queue@.len() ==> !old(visited)@.contains(#[trigger] queue@[k]),
                forall|c: (u32, u32)|
                    #![trigger visited@.contains(c)]
                    #![trigger old(visited)@.contains(c)]
                    #![trigger queue@.contains(c)]
                    visited@.contains(c) <==> old(visited)@.contains(c) || queue@.contains(c),
                maze@.connected((x, y), (cx, cy)),
                visited.room() + queue@.len() == base,
                head >= 1,
                queue@[head - 1] == (cx, cy),
                forall|k: int, n: (u32, u32)|
                    0 <= k < head - 1 && eligible@.contains(n) && #[trigger] maze@.open_between(
                        queue@[k],
                        n,
                    ) ==> visited@.contains(n),
                forall|u: int|
                    0 <= u < t && eligible@.contains(#[trigger] around@[u]) ==> visited@.contains(
                        around@[u],
                    ),
                !old(visited)@.contains((x, y)) ==> queue@.no_duplicates(),
            decreases around@.len() - t,
        {
            let (nx, ny) = around[t];
            assert(maze@.open_between((cx, cy), around@[t as int]));
            if eligible.contains(nx, ny) && !visited.contains(nx, ny) {
                let ghost listed = queue@;
                visited.insert(nx, ny);
                queue.push((nx, ny));
                proof {
                    lemma_connected_step(maze@, (x, y), (cx, cy), (nx, ny));
                    crate::seqs::lemma_push_contains(listed, (nx, ny));
                    assert(!listed.contains((nx, ny)));
                }
            }
            t += 1;
        }
        proof {
            assert forall|k: int, n: (u32, u32)|
                0 <= k < head && eligible@.contains(n) && #[trigger] maze@.open_between(
                    queue@[k],
                    n,
                ) implies visited@.contains(n) by {
                if k == head - 1 {
                    assert(around@.contains(n));
                    let u = choose|u: int| 0 <= u < around@.len() && around@[u] == n;
                    assert(eligible@.contains(around@[u]));
                }
            }
        }
    }
    queue
}

/// Some group holds the cell `c`.
pub open spec fn listed_in(groups: Seq<Vec<(u32, u32)>>, c: (u32, u32)) -> bool {
    exists|k: int, j: int|
        0 <= k < groups.len() && 0 <= j < groups[k]@.len() && #[trigger] groups[k]@[j] == c
}

/// No cell stands twice in the groups, neither in one group nor in two.
pub open spec fn groups_apart(groups: Seq<Vec<(u32, u32)>>) -> bool {
    forall|i: int, k: int, j: int, l: int|
        0 <= i < groups.len() && 0 <= k < groups[i]@.len() && 0 <= j < groups.len() && 0 <= l
            < groups[j]@.len() && (i != j || k != l) ==> #[trigger] groups[i]@[k]
            != #[trigger] groups[j]@[l]
}

/// Whatever cell of `eligible` a passage leads to from a cell of a group
/// is in that group too.
pub open spec fn groups_closed(g: Grid, eligible: Set<(u32, u32)>, groups: Seq<Vec<(u32, u32)>>) -> bool {
    forall|i: int, k: int, n: (u32, u32)|
        0 <= i < groups.len() && 0 <= k < groups[i]@.len() && eligible.contains(n)
            && #[trigger] g.open_between(groups[i]@[k], n) ==> groups[i]@.contains(n)
}

/// The first cells of the groups follow each other as the grid is read
/// row by row.
pub open spec fn groups_ordered(groups: Seq<Vec<(u32, u32)>>) -> bool {
    forall|i: int, j: int|
        0 <= i < j < groups.len() ==> row_major_before(
            (#[trigger] groups[i])@[0],
            (#[trigger] groups[j])@[0],
        )
}

/// What a new group keeps: a group that holds the cells newly visited from
/// an unvisited cell of `eligible`, closed under passages inside
/// `eligible`, joins the groups without breaking their partition.
proof fn lemma_region_joins(
    g: Grid,
    eligible: Set<(u32, u32)>,
    before: Seq<Vec<(u32, u32)>>,
    after: Seq<Vec<(u32, u32)>>,
    seen: Set<(u32, u32)>,
    visited: Set<(u32, u32)>,
    start: (u32, u32),
)
    requires
        g.wf(),
        after.len() == before.len() + 1,
        forall|i: int| 0 <= i < before.len() ==> #[trigger] after[i] == before[i],
        forall|i: int| 0 <= i < before.len() ==> (#[trigger] before[i])@.len() >= 1,
        forall|i: int, k: int|
            0 <= i < before.len() && 0 <= k < before[i]@.len() ==> eligible.contains(
                #[trigger] before[i]@[k],
            ),
        forall|c: (u32, u32)| seen.contains(c) <==> listed_in(before, c),
        groups_apart(before),
        groups_closed(g, eligible, before),
        groups_ordered(before),
        forall|i: int| 0 <= i < before.len() ==> row_major_before((#[trigger] before[i])@[0], start),
        !seen.contains(start),
        eligible.contains(start),
        after[before.len() as int]@.len() >= 1,
        after[before.len() as int]@[0] == start,
        after[before.len() as int]@.no_duplicates(),
        forall|k: int|
            0 <= k < after[before.len() as int]@.len() ==> g.in_bounds(
                #[trigger] after[before.len() as int]@[k],
            ),
        forall|k: int|
            1 <= k < after[before.len() as int]@.len() ==> eligible.contains(
                #[trigger] after[before.len() as int]@[k],
            ) && !seen.contains(after[before.len() as int]@[k]),
        forall|c: (u32, u32)|
            #![trigger visited.contains(c)]
            visited.contains(c) <==> seen.contains(c) || after[before.len() as int]@.contains(c),
        forall|k: int, n: (u32, u32)|
            0 <= k < after[before.len() as int]@.len() && eligible.contains(n)
                && #[trigger] g.open_between(after[before.len() as int]@[k], n)
                ==> visited.contains(n),
    ensures
        forall|c: (u32, u32)| visited.contains(c) <==> listed_in(after, c),
        groups_apart(after),
        groups_closed(g, eligible, after),
        groups_ordered(after),
{
    let at = before.len() as int;
    let region = after[at]@;
    assert forall|k: int| 0 <= k < region.len() implies !seen.contains(#[trigger] region[k]) by {}
    assert forall|c: (u32, u32)| visited.contains(c) <==> listed_in(after, c) by {
        if listed_in(after, c) {
            let (i, k) = choose|i: int, k: int|
                0 <= i < after.len() && 0 <= k < after[i]@.len() && #[trigger] after[i]@[k] == c;
            if i < at {
                assert(before[i]@[k] == c);
                assert(listed_in(before, c));
            } else {
                assert(region.contains(c));
            }
        }
        if visited.contains(c) {
            if seen.contains(c) {
                assert(listed_in(before, c));
                let (i, k) = choose|i: int, k: int|
                    0 <= i < before.len() && 0 <= k < before[i]@.len() && #[trigger] before[i]@[k]
                        == c;
                assert(after[i]@[k] == c);
            } else {
                assert(region.contains(c));
                let k = choose|k: int| 0 <= k < region.len() && region[k] == c;
                assert(after[at]@[k] == c);
            }
        }
    }
    assert forall|i: int, k: int, j: int, l: int|
        0 <= i < after.len() && 0 <= k < after[i]@.len() && 0 <= j < after.len() && 0 <= l
            < after[j]@.len() && (i != j || k != l) implies #[trigger] after[i]@[k]
        != #[trigger] after[j]@[l] by {
        if i < at && j < at {
            assert(before[i]@[k] != before[j]@[l]);
        } else if i < at {
            assert(listed_in(before, before[i]@[k]));
            assert(!seen.contains(region[l]));
        } else if j < at {
            assert(listed_in(before, before[j]@[l]));
            assert(!seen.contains(region[k]));
        }
    }
    assert forall|i: int, k: int, n: (u32, u32)|
        0 <= i < after.len() && 0 <= k < after[i]@.len() && eligible.contains(n)
            && #[trigger] g.open_between(after[i]@[k], n) implies after[i]@.contains(n) by {
        if i < at {
            assert(g.open_between(before[i]@[k], n));
            assert(before[i]@.contains(n));
        } else {
            let a = region[k];
            assert(visited.contains(n));
            if seen.contains(n) {
                assert(listed_in(before, n));
                let (j, l) = choose|j: int, l: int|
                    0 <= j < before.len() && 0 <= l < before[j]@.len() && #[trigger] before[j]@[l]
                        == n;
                crate::grid::lemma_walls_symmetric(g, a, n);
                assert(g.open_between(before[j]@[l], a));
                assert(before[j]@.contains(a));
                let m = choose|m: int| 0 <= m < before[j]@.len() && before[j]@[m] == a;
                assert(listed_in(before, before[j]@[m]));
                assert(seen.contains(a));
            }
        }
    }
    assert forall|i: int, j: int| 0 <= i < j < after.len() implies row_major_before(
        (#[trigger] after[i])@[0],
        (#[trigger] after[j])@[0],
    ) by {
        if j < at {
            assert(row_major_before(before[i]@[0], before[j]@[0]));
        } else {
            assert(row_major_before(before[i]@[0], start));
        }
    }
}

/// The groups are the regions of `eligible` in `g`: every cell of
/// `eligible` is in exactly one group, the cells of a group are connected,
/// no passage leads from a group to a cell of `eligible` outside it, and
/// the groups stand in the order of their first cells, row by row.
pub open spec fn regions_of(
    g: Grid,
    eligible: Set<(u32, u32)>,
    groups: Seq<Vec<(u32, u32)>>,
) -> bool {
    &&& groups_inside(groups, g.width, g.height)
    &&& forall|i: int| 0 <= i < groups.len() ==> (#[trigger] groups[i])@.len() >= 1
    &&& forall|i: int, k: int|
        0 <= i < groups.len() && 0 <= k < groups[i]@.len() ==> eligible.contains(
            #[trigger] groups[i]@[k],
        ) && g.connected(groups[i]@[0], groups[i]@[k])
    &&& forall|c: (u32, u32)| #[trigger] eligible.contains(c) ==> listed_in(groups, c)
    &&& groups_apart(groups)
    &&& groups_closed(g, eligible, groups)
    &&& groups_ordered(groups)
}

/// `h` is `g` with every group of `groups` joined to the next by the
/// corridor between their nearest pair, and nothing else changed.
pub open spec fn stitched_from(g: Grid, h: Grid, groups: Seq<Vec<(u32, u32)>>) -> bool {
    &&& h.wf()
    &&& h.width == g.width
    &&& h.height == g.height
    &&& forall|p: (u32, u32), q: (u32, u32)| #[trigger]
        h.open_between(p, q) <==> g.open_between(p, q) || stitched(groups, groups.len() - 1, p, q)
}

/// `h` is what connectivity repair makes of `g`: `g` itself where the exit
/// can be reached, and else `g` with the corridor between the nearest pair
/// of a cell on the entry's side and a cell on the exit's side.
pub open spec fn mended(g: Grid, h: Grid) -> bool {
    &&& g.solvable() ==> h == g
    &&& !g.solvable() ==> exists|a: (u32, u32), b: (u32, u32)| repaired_by(g, h, a, b)
}

/// `h` is `g` with its regions of `eligible` stitched together and the
/// result repaired.
pub open spec fn finished(g: Grid, eligible: Set<(u32, u32)>, h: Grid) -> bool {
    exists|groups: Seq<Vec<(u32, u32)>>, mid: Grid|
        regions_of(g, eligible, groups) && #[trigger] stitched_from(g, mid, groups) && mended(
            mid,
            h,
        )
}

/// The groups of cells of `eligible` that hang together through passages
/// inside `eligible`, in the order in which their first cell stands when
/// the grid is read row by row. Every cell of `eligible` is in exactly one
/// group; the cells of a group are connected, and no passage leads from a
/// group to a cell of `eligible` outside it.
pub fn regions(maze: &Maze, eligible: &CellSet) -> (groups: Vec<Vec<(u32, u32)>>)
    requires
        maze.wf(),
        eligible.wf(),
        eligible.cols() == maze@.width,
        eligible.lines() == maze@.height,
    ensures
        groups_inside(groups@, maze@.width, maze@.height),
        forall|i: int| 0 <= i < groups@.len() ==> (#[trigger] groups@[i])@.len() >= 1,
        forall|i: int, k: int|
            0 <= i < groups@.len() && 0 <= k < groups@[i]@.len() ==> eligible@.contains(
                #[trigger] groups@[i]@[k],
            ) && maze@.connected(groups@[i]@[0], groups@[i]@[k]),
        forall|c: (u32, u32)| #[trigger] eligible@.contains(c) ==> listed_in(groups@, c),
        groups_apart(groups@),
        groups_closed(maze@, eligible@, groups@),
        groups_ordered(groups@),
        regions_of(maze@, eligible@, groups@),
{
    let width = maze.width();
    let height = maze.height();
    let mut visited = CellSet::new(width, height);
    let mut groups: Vec<Vec<(u32, u32)>> = Vec::new();
    let mut y: u32 = 0;
    while y < height
        invariant
            maze.wf(),
            width == maze@.width,
            height == maze@.height,
            eligible.wf(),
            eligible.cols() == maze@.width,
            eligible.lines() == maze@.height,
            visited.wf(),
            visited.cols() == maze@.width,
            visited.lines() == maze@.height,
            0 <= y <= height,
            groups_inside(groups@, maze@.width, maze@.height),
            forall|i: int| 0 <= i < groups@.len() ==> (#[trigger] groups@[i])@.len() >= 1,
            forall|i: int, k: int|
                0 <= i < groups@.len() && 0 <= k < groups@[i]@.len() ==> eligible@.contains(
                    #[trigger] groups@[i]@[k],
                ) && maze@.connected(groups@[i]@[0], groups@[i]@[k]),
            forall|c: (u32, u32)| visited@.contains(c) <==> listed_in(groups@, c),
            forall|c: (u32, u32)| #[trigger] eligible@.contains(c) && c.1 < y ==> visited@.contains(c),
            groups_apart(groups@),
            groups_closed(maze@, eligible@, groups@),
            groups_ordered(groups@),
            forall|i: int| 0 <= i < groups@.len() ==> (#[trigger] groups@[i])@[0].1 < y,
        decreases height - y,
    {
        let mut x: u32 = 0;
        while x < width
            invariant
                maze.wf(),
                width == maze@.width,
                height == maze@.height,
                eligible.wf(),
                eligible.cols() == maze@.width,
                eligible.lines() == maze@.height,
                visited.wf(),
                visited.cols() == maze@.width,
                visited.lines() == maze@.height,
                0 <= y < height,
                0 <= x <= width,
                groups_inside(groups@, maze@.width, maze@.height),
                forall|i: int| 0 <= i < groups@.len() ==> (#[trigger] groups@[i])@.len() >= 1,
                forall|i: int, k: int|
                    0 <= i < groups@.len() && 0 <= k < groups@[i]@.len() ==> eligible@.contains(
                        #[trigger] groups@[i]@[k],
                    ) && maze@.connected(groups@[i]@[0], groups@[i]@[k]),
                forall|c: (u32, u32)| visited@.contains(c) <==> listed_in(groups@, c),
                forall|c: (u32, u32)|
                    #[trigger] eligible@.contains(c) && row_major_before(c, (x, y))
                        ==> visited@.contains(c),
                groups_apart(groups@),
                groups_closed(maze@, eligible@, groups@),
                groups_ordered(groups@),
                forall|i: int|
                    0 <= i < groups@.len() ==> row_major_before((#[trigger] groups@[i])@[0], (x, y)),
            decreases width - x,
        {
            if eligible.contains(x, y) && !visited.contains(x, y) {
                let ghost seen = visited@;
                let region = flood_region(maze, eligible, &mut visited, x, y);
                let ghost before = groups@;
                groups.push(region);
                proof {
                    let at = before.len() as int;
                    assert(groups@[at] == region);
                    assert forall|i: int| 0 <= i < before.len() implies #[trigger] groups@[i]
                        == before[i] by {}
                    lemma_region_joins(maze@, eligible@, before, groups@, seen, visited@, (x, y));
                    assert forall|i: int, k: int|
                        0 <= i < groups@.len() && 0 <= k < groups@[i]@.len() implies (
                    #[trigger] groups@[i]@[k]).0 < maze@.width && groups@[i]@[k].1
                        < maze@.height && eligible@.contains(groups@[i]@[k]) && maze@.connected(
                        groups@[i]@[0],
                        groups@[i]@[k],
                    ) by {
                        if i < before.len() {
                            assert(groups@[i] == before[i]);
                            assert(before[i]@[k].0 < maze@.width);
                            assert(eligible@.contains(before[i]@[k]));
                        } else {
                            assert(maze@.in_bounds(region@[k]));
                            assert(maze@.connected((x, y), region@[k]));
                            if k >= 1 {
                                assert(eligible@.contains(region@[k]));
                            }
                        }
                    }
                }
            }
            x += 1;
        }
        proof {
            eligible.lemma_bounds();
        }
        y += 1;
    }
    proof {
        eligible.lemma_bounds();
    }
    groups
}

impl Maze {
    /// Joins each group to the next by the corridor between their nearest
    /// pair of cells (see `connect_nearest`); an empty group is passed
    /// over. The passages afterwards are those from before and the steps
    /// of these corridors, and nothing else.
    pub fn stitch_components(&mut self, groups: &Vec<Vec<(u32, u32)>>)
        requires
            old(self).wf(),
            groups_inside(groups@, old(self)@.width, old(self)@.height),
        ensures
            final(self).wf(),
            final(self)@.width == old(self)@.width,
            final(self)@.height == old(self)@.height,
            old(self)@.passages_within(final(self)@),
            forall|i: int|
                0 <= i < groups@.len() - 1 && groups@[i]@.len() > 0 && groups@[i + 1]@.len() > 0
                    ==> linked(final(self)@, (#[trigger] groups@[i])@, groups@[i + 1]@),
            forall|p: (u32, u32), q: (u32, u32)| #[trigger]
                final(self)@.open_between(p, q) <==> old(self)@.open_between(p, q) || stitched(
                    groups@,
                    groups@.len() - 1,
                    p,
                    q,
                ),
            stitched_from(old(self)@, final(self)@, groups@),
    {
        proof {
            assert forall|p: (u32, u32), q: (u32, u32)| !#[trigger] stitched(groups@, 0, p, q) by {
                if stitched(groups@, 0, p, q) {
                    let k = choose|k: int| k < 0 && #[trigger] on_stitch(groups@, k, p, q);
                }
            }
        }
        if groups.len() < 2 {
            proof {
                let top = groups@.len() - 1;
                assert forall|p: (u32, u32), q: (u32, u32)| !#[trigger] stitched(
                    groups@,
                    top,
                    p,
                    q,
                ) by {
                    if stitched(groups@, top, p, q) {
                        let k = choose|k: int| k < top && #[trigger] on_stitch(groups@, k, p, q);
                    }
                }
            }
            return ;
        }
        let mut i: usize = 0;
        while i < groups.len() - 1
            invariant
                self.wf(),
                self@.width == old(self)@.width,
                self@.height == old(self)@.height,
                old(self)@.passages_within(self@),
                groups_inside(groups@, old(self)@.width, old(self)@.height),
                groups@.len() >= 2,
                0 <= i <= groups@.len() - 1,
                forall|j: int|
                    0 <= j < i && groups@[j]@.len() > 0 && groups@[j + 1]@.len() > 0 ==> linked(
                        self@,
                        (#[trigger] groups@[j])@,
                        groups@[j + 1]@,
                    ),
                forall|p: (u32, u32), q: (u32, u32)| #[trigger]
                    self@.open_between(p, q) <==> old(self)@.open_between(p, q) || stitched(
                        groups@,
                        i as int,
                        p,
                        q,
                    ),
            decreases groups@.len() - i,
        {
            let ghost before = self@;
            proof {
                assert forall|k: int| 0 <= k < groups@[i as int]@.len() implies self@.in_bounds(
                    #[trigger] groups@[i as int]@[k],
                ) by {}
                assert forall|k: int| 0 <= k < groups@[i + 1]@.len() implies self@.in_bounds(
                    #[trigger] groups@[i + 1]@[k],
                ) by {}
            }
            let joined = self.connect_nearest(&groups[i], &groups[i + 1]);
            proof {
                assert forall|j: int|
                    0 <= j < i + 1 && groups@[j]@.len() > 0 && groups@[j + 1]@.len() > 0 implies linked(
                    self@,
                    (#[trigger] groups@[j])@,
                    groups@[j + 1]@,
                ) by {
                    if j < i {
                        assert(linked(before, groups@[j]@, groups@[j + 1]@));
                        let (p, q) = choose|p: (u32, u32), q: (u32, u32)|
                            groups@[j]@.contains(p) && groups@[j + 1]@.contains(q)
                                && before.connected(p, q);
                        lemma_connected_grows(before, self@, p, q);
                    } else {
                        let ends = joined->Some_0;
                        let near = groups@[j]@;
                        let far = groups@[j + 1]@;
                        let (bi, bj) = choose|bi: int, bj: int|
                            nearest_at(near, far, bi, bj) && near[bi] == ends.0 && far[bj]
                                == ends.1;
                        assert(near.contains(ends.0));
                        assert(far.contains(ends.1));
                    }
                }
                lemma_stitch_step(groups@, i as int, old(self)@, before, self@, joined);
            }
            i += 1;
        }
    }
}

} // verus!
