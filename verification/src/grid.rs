//! The mathematical model of a maze: a rectangle of cells, the passages
//! between them, and paths through those passages.

use vstd::prelude::*;
use vstd::set_lib::lemma_len_subset;

verus! {

/// One grid unit. Each flag is `true` while the wall on that side stands.
#[derive(Clone, Copy, Debug, PartialEq, Eq, Structural)]
pub struct Cell {
    pub north: bool,
    pub south: bool,
    pub east: bool,
    pub west: bool,
}

/// A maze as a mathematical value: `cells[y][x]` is the cell in column `x`
/// of row `y`.
pub struct Grid {
    pub width: nat,
    pub height: nat,
    pub cells: Seq<Seq<Cell>>,
}

/// Two coordinates that differ by one step along exactly one axis.
pub open spec fn adjacent(a: (u32, u32), b: (u32, u32)) -> bool {
    ||| (a.1 == b.1 && (a.0 + 1 == b.0 || b.0 + 1 == a.0))
    ||| (a.0 == b.0 && (a.1 + 1 == b.1 || b.1 + 1 == a.1))
}

/// The edge leads from a cell to its eastern or southern neighbour.
pub open spec fn forward(e: (u32, u32, u32, u32)) -> bool {
    (e.2 == e.0 + 1 && e.3 == e.1) || (e.2 == e.0 && e.3 == e.1 + 1)
}

/// The edge between the adjacent cells `a` and `b`, named from the
/// western or northern of the two.
pub open spec fn edge_between(a: (u32, u32), b: (u32, u32)) -> (u32, u32, u32, u32) {
    if a.0 + 1 == b.0 || a.1 + 1 == b.1 {
        (a.0, a.1, b.0, b.1)
    } else {
        (b.0, b.1, a.0, a.1)
    }
}

/// The step between `p` and `q` is the step between `a` and `b`, taken
/// either way.
pub open spec fn same_step(p: (u32, u32), q: (u32, u32), a: (u32, u32), b: (u32, u32)) -> bool {
    (p == a && q == b) || (p == b && q == a)
}

/// Every cell outside `set` has all its walls.
pub open spec fn lonely(g: Grid, set: Set<(u32, u32)>) -> bool {
    forall|c: (u32, u32)| g.in_bounds(c) && !set.contains(c) ==> (#[trigger] g.at(c)).wall_count() == 4
}

/// The Manhattan distance between two coordinates.
pub open spec fn manhattan(a: (u32, u32), b: (u32, u32)) -> int {
    (if a.0 <= b.0 { b.0 - a.0 } else { a.0 - b.0 })
        + (if a.1 <= b.1 { b.1 - a.1 } else { a.1 - b.1 })
}

impl Cell {
    /// The number of walls that stand around the cell.
    pub open spec fn wall_count(self) -> int {
        (if self.north { 1int } else { 0 }) + (if self.south { 1int } else { 0 })
            + (if self.east { 1int } else { 0 }) + (if self.west { 1int } else { 0 })
    }

    /// A cell with exactly three of its four walls standing.
    pub open spec fn is_dead_end(self) -> bool {
        self.wall_count() == 3
    }
}

impl Grid {
    /// The coordinate names a cell of the grid.
    pub open spec fn in_bounds(self, c: (u32, u32)) -> bool {
        c.0 < self.width && c.1 < self.height
    }

    /// The cell at `c`.
    pub open spec fn at(self, c: (u32, u32)) -> Cell {
        self.cells[c.1 as int][c.0 as int]
    }

    /// The entry cell, top-left.
    pub open spec fn entry(self) -> (u32, u32) {
        (0u32, 0u32)
    }

    /// The exit cell, bottom-right.
    pub open spec fn exit(self) -> (u32, u32) {
        ((self.width - 1) as u32, (self.height - 1) as u32)
    }

    /// The cells form a rectangle of the grid's size, which may be empty.
    pub open spec fn laid_out(self) -> bool {
        &&& self.width <= u32::MAX
        &&& self.height <= u32::MAX
        &&& self.cells.len() == self.height
        &&& forall|y: int| 0 <= y < self.height ==> (#[trigger] self.cells[y]).len() == self.width
    }

    /// The grid is a non-empty rectangle whose sides fit the coordinate type.
    pub open spec fn shaped(self) -> bool {
        &&& 1 <= self.width <= u32::MAX
        &&& 1 <= self.height <= u32::MAX
        &&& self.cells.len() == self.height
        &&& forall|y: int| 0 <= y < self.height ==> (#[trigger] self.cells[y]).len() == self.width
    }

    /// The walls of the cell at `c` agree with those of its eastern and
    /// southern neighbours, and stand wherever `c` lies on the border.
    pub open spec fn cell_ok(self, c: (u32, u32)) -> bool {
        let cell = self.at(c);
        &&& (c.0 == 0 ==> cell.west)
        &&& (c.1 == 0 ==> cell.north)
        &&& (c.0 + 1 == self.width ==> cell.east)
        &&& (c.1 + 1 == self.height ==> cell.south)
        &&& (c.0 + 1 < self.width ==> cell.east == self.at(((c.0 + 1) as u32, c.1)).west)
        &&& (c.1 + 1 < self.height ==> cell.south == self.at((c.0, (c.1 + 1) as u32)).north)
    }

    /// Well-formedness: a rectangle in which every wall between two cells is
    /// recorded identically on both sides and the outer border is closed.
    pub open spec fn wf(self) -> bool {
        &&& self.shaped()
        &&& forall|c: (u32, u32)| self.in_bounds(c) ==> #[trigger] self.cell_ok(c)
    }

    /// The flag of the wall of `a` that faces `b`, chosen by the offset from
    /// `a` to `b`: one column east or west first, else one row south or
    /// north. Any other offset counts as walled.
    pub open spec fn facing(self, a: (u32, u32), b: (u32, u32)) -> bool {
        if b.0 == a.0 + 1 {
            self.at(a).east
        } else if a.0 == b.0 + 1 {
            self.at(a).west
        } else if b.1 == a.1 + 1 {
            self.at(a).south
        } else if a.1 == b.1 + 1 {
            self.at(a).north
        } else {
            true
        }
    }

    /// There is a passage from `a` to `b`: both lie in the grid, they are
    /// adjacent, and `a` has no wall facing `b`.
    pub open spec fn open_between(self, a: (u32, u32), b: (u32, u32)) -> bool {
        &&& self.in_bounds(a)
        &&& self.in_bounds(b)
        &&& adjacent(a, b)
        &&& !self.facing(a, b)
    }

    /// A non-empty walk that starts inside the grid and moves only through
    /// passages.
    pub open spec fn is_path(self, p: Seq<(u32, u32)>) -> bool {
        &&& p.len() >= 1
        &&& self.in_bounds(p[0])
        &&& forall|i: int| 0 <= i < p.len() - 1 ==> self.open_between(#[trigger] p[i], p[i + 1])
    }

    /// `p` is a path from `a` to `b`.
    pub open spec fn joins(self, p: Seq<(u32, u32)>, a: (u32, u32), b: (u32, u32)) -> bool {
        &&& self.is_path(p)
        &&& p[0] == a
        &&& p[p.len() - 1] == b
    }

    /// Some path leads from `a` to `b`.
    pub open spec fn connected(self, a: (u32, u32), b: (u32, u32)) -> bool {
        exists|p: Seq<(u32, u32)>| self.joins(p, a, b)
    }

    /// The exit can be reached from the entry.
    pub open spec fn solvable(self) -> bool {
        self.connected(self.entry(), self.exit())
    }

    /// Every passage of `self` is also a passage of `other`.
    pub open spec fn passages_within(self, other: Grid) -> bool {
        forall|a: (u32, u32), b: (u32, u32)| #[trigger]
            self.open_between(a, b) ==> other.open_between(a, b)
    }

    /// The cells of the grid.
    pub open spec fn cells(self) -> Set<(u32, u32)> {
        Set::new(|c: (u32, u32)| self.in_bounds(c))
    }

    /// The cells of the grid with exactly three walls standing.
    pub open spec fn dead_ends(self) -> Set<(u32, u32)> {
        Set::new(|c: (u32, u32)| self.in_bounds(c) && self.at(c).is_dead_end())
    }

    /// The passages of the grid, each named once, from a cell to its
    /// eastern or southern neighbour.
    pub open spec fn passages(self) -> Set<(u32, u32, u32, u32)> {
        Set::new(
            |e: (u32, u32, u32, u32)| forward(e) && self.open_between((e.0, e.1), (e.2, e.3)),
        )
    }

    /// The grid has one passage less than it has cells, as a tree has.
    pub open spec fn tree_sized(self) -> bool {
        self.passages().len() + 1 == self.width * self.height
    }

    /// The coordinates next to `c` on the grid, walls or not: west, east,
    /// north, south, each only where the grid goes on.
    pub open spec fn neighbors(self, c: (u32, u32)) -> Seq<(u32, u32)> {
        (if c.0 > 0 {
            seq![((c.0 - 1) as u32, c.1)]
        } else {
            Seq::empty()
        }) + (if c.0 + 1 < self.width {
            seq![((c.0 + 1) as u32, c.1)]
        } else {
            Seq::empty()
        }) + (if c.1 > 0 {
            seq![(c.0, (c.1 - 1) as u32)]
        } else {
            Seq::empty()
        }) + (if c.1 + 1 < self.height {
            seq![(c.0, (c.1 + 1) as u32)]
        } else {
            Seq::empty()
        })
    }

    /// The neighbours of `c` that no wall of `c` blocks, in the order west,
    /// east, north, south. Empty when `c` lies outside the grid.
    pub open spec fn accessible_neighbors(self, c: (u32, u32)) -> Seq<(u32, u32)> {
        if !self.in_bounds(c) {
            Seq::empty()
        } else {
            (if c.0 > 0 && !self.at(c).west {
                seq![((c.0 - 1) as u32, c.1)]
            } else {
                Seq::empty()
            }) + (if c.0 + 1 < self.width && !self.at(c).east {
                seq![((c.0 + 1) as u32, c.1)]
            } else {
                Seq::empty()
            }) + (if c.1 > 0 && !self.at(c).north {
                seq![(c.0, (c.1 - 1) as u32)]
            } else {
                Seq::empty()
            }) + (if c.1 + 1 < self.height && !self.at(c).south {
                seq![(c.0, (c.1 + 1) as u32)]
            } else {
                Seq::empty()
            })
        }
    }

    /// The cell at column `x` of row `y` once the wall between `a` and `b`
    /// is set to `present`.
    pub open spec fn rewalled(
        self,
        a: (u32, u32),
        b: (u32, u32),
        present: bool,
        x: int,
        y: int,
    ) -> Cell {
        let cell = self.cells[y][x];
        if x == a.0 && y == a.1 {
            toward(cell, a, b, present)
        } else if x == b.0 && y == b.1 {
            toward(cell, b, a, present)
        } else {
            cell
        }
    }

    /// The grid with the wall between the adjacent cells `a` and `b` set to
    /// `present` on both sides.
    pub open spec fn with_wall(self, a: (u32, u32), b: (u32, u32), present: bool) -> Grid {
        Grid {
            width: self.width,
            height: self.height,
            cells: Seq::new(
                self.height,
                |y: int| Seq::new(self.width, |x: int| self.rewalled(a, b, present, x, y)),
            ),
        }
    }

    /// What removing the wall between `a` and `b` yields: the wall pair is
    /// cleared when both cells lie in the grid and are adjacent, and nothing
    /// changes otherwise.
    pub open spec fn carve(self, a: (u32, u32), b: (u32, u32)) -> Grid {
        if self.in_bounds(a) && self.in_bounds(b) && adjacent(a, b) {
            self.with_wall(a, b, false)
        } else {
            self
        }
    }

    /// What raising the wall between `a` and `b` yields: the wall pair is set
    /// when both cells lie in the grid and are adjacent, and nothing changes
    /// otherwise.
    pub open spec fn wall_up(self, a: (u32, u32), b: (u32, u32)) -> Grid {
        if self.in_bounds(a) && self.in_bounds(b) && adjacent(a, b) {
            self.with_wall(a, b, true)
        } else {
            self
        }
    }
}

/// The cell `cell` at `a` with its wall toward the adjacent `b` set to
/// `present`.
pub open spec fn toward(cell: Cell, a: (u32, u32), b: (u32, u32), present: bool) -> Cell {
    if b.0 == a.0 + 1 {
        Cell { east: present, ..cell }
    } else if a.0 == b.0 + 1 {
        Cell { west: present, ..cell }
    } else if b.1 == a.1 + 1 {
        Cell { south: present, ..cell }
    } else if a.1 == b.1 + 1 {
        Cell { north: present, ..cell }
    } else {
        cell
    }
}

/// In a well-formed grid a wall between two adjacent cells is seen
/// identically from both sides.
pub proof fn lemma_walls_symmetric(g: Grid, a: (u32, u32), b: (u32, u32))
    requires
        g.wf(),
        g.in_bounds(a),
        g.in_bounds(b),
        adjacent(a, b),
    ensures
        g.facing(a, b) == g.facing(b, a),
        g.open_between(a, b) == g.open_between(b, a),
{
    assert(g.cell_ok(a));
    assert(g.cell_ok(b));
}

/// Setting a wall pair keeps a grid well-formed and changes exactly the
/// passage between the two cells.
pub proof fn lemma_with_wall(g: Grid, a: (u32, u32), b: (u32, u32), present: bool)
    requires
        g.wf(),
        g.in_bounds(a),
        g.in_bounds(b),
        adjacent(a, b),
    ensures
        g.with_wall(a, b, present).wf(),
        g.with_wall(a, b, present).width == g.width,
        g.with_wall(a, b, present).height == g.height,
        forall|p: (u32, u32), q: (u32, u32)| #[trigger]
            g.with_wall(a, b, present).open_between(p, q) <==> (if (p == a && q == b) || (p == b
                && q == a) {
                !present
            } else {
                g.open_between(p, q)
            }),
{
    let h = g.with_wall(a, b, present);
    assert(h.shaped());
    assert forall|c: (u32, u32)| h.in_bounds(c) implies #[trigger] h.cell_ok(c) by {
        lemma_with_wall_cell(g, a, b, present, c);
    }
    assert forall|p: (u32, u32), q: (u32, u32)| #[trigger]
        h.open_between(p, q) <==> (if (p == a && q == b) || (p == b && q == a) {
            !present
        } else {
            g.open_between(p, q)
        }) by {
        if g.in_bounds(p) && g.in_bounds(q) && adjacent(p, q) {
            assert(h.at(p) == g.rewalled(a, b, present, p.0 as int, p.1 as int));
            assert(g.cell_ok(p));
            assert(g.cell_ok(q));
        }
    }
}

proof fn lemma_with_wall_cell(g: Grid, a: (u32, u32), b: (u32, u32), present: bool, c: (u32, u32))
    requires
        g.wf(),
        g.in_bounds(a),
        g.in_bounds(b),
        adjacent(a, b),
        g.in_bounds(c),
    ensures
        g.with_wall(a, b, present).cell_ok(c),
{
    let h = g.with_wall(a, b, present);
    let e = ((c.0 + 1) as u32, c.1);
    let s = (c.0, (c.1 + 1) as u32);
    assert(g.cell_ok(c));
    assert(g.cell_ok(a));
    assert(g.cell_ok(b));
    assert(h.at(c) == g.rewalled(a, b, present, c.0 as int, c.1 as int));
    if c.0 + 1 < g.width {
        assert(g.in_bounds(e));
        assert(h.at(e) == g.rewalled(a, b, present, e.0 as int, e.1 as int));
    }
    if c.1 + 1 < g.height {
        assert(g.in_bounds(s));
        assert(h.at(s) == g.rewalled(a, b, present, s.0 as int, s.1 as int));
    }
}

/// The neighbours of a cell of the grid are exactly the cells of the grid
/// adjacent to it.
pub proof fn lemma_neighbors(g: Grid, c: (u32, u32))
    requires
        g.shaped(),
        g.in_bounds(c),
    ensures
        g.neighbors(c).len() <= 4,
        forall|n: (u32, u32)|
            g.neighbors(c).contains(n) <==> g.in_bounds(n) && adjacent(c, n),
        forall|i: int|
            0 <= i < g.neighbors(c).len() ==> g.in_bounds(#[trigger] g.neighbors(c)[i])
                && adjacent(c, g.neighbors(c)[i]),
{
    let w: Seq<(u32, u32)> = if c.0 > 0 {
        seq![((c.0 - 1) as u32, c.1)]
    } else {
        Seq::empty()
    };
    let e: Seq<(u32, u32)> = if c.0 + 1 < g.width {
        seq![((c.0 + 1) as u32, c.1)]
    } else {
        Seq::empty()
    };
    let n: Seq<(u32, u32)> = if c.1 > 0 {
        seq![(c.0, (c.1 - 1) as u32)]
    } else {
        Seq::empty()
    };
    let s: Seq<(u32, u32)> = if c.1 + 1 < g.height {
        seq![(c.0, (c.1 + 1) as u32)]
    } else {
        Seq::empty()
    };
    let all = g.neighbors(c);
    assert(all =~= w + e + n + s);
    assert forall|m: (u32, u32)| g.in_bounds(m) && adjacent(c, m) implies all.contains(m) by {
        if m.1 == c.1 && m.0 + 1 == c.0 {
            assert(all[0] == m);
        } else if m.1 == c.1 && c.0 + 1 == m.0 {
            assert(all[w.len() as int] == m);
        } else if m.1 + 1 == c.1 {
            assert(all[(w.len() + e.len()) as int] == m);
        } else {
            assert(all[(w.len() + e.len() + n.len()) as int] == m);
        }
    }
}

/// The accessible neighbours of a cell are exactly the cells a passage
/// leads to from it.
pub proof fn lemma_accessible_neighbors(g: Grid, c: (u32, u32))
    requires
        g.wf(),
        g.in_bounds(c),
    ensures
        g.accessible_neighbors(c).len() <= 4,
        forall|n: (u32, u32)| g.accessible_neighbors(c).contains(n) <==> g.open_between(c, n),
        forall|i: int|
            0 <= i < g.accessible_neighbors(c).len() ==> g.open_between(
                c,
                #[trigger] g.accessible_neighbors(c)[i],
            ),
{
    let cell = g.at(c);
    let w: Seq<(u32, u32)> = if c.0 > 0 && !cell.west {
        seq![((c.0 - 1) as u32, c.1)]
    } else {
        Seq::empty()
    };
    let e: Seq<(u32, u32)> = if c.0 + 1 < g.width && !cell.east {
        seq![((c.0 + 1) as u32, c.1)]
    } else {
        Seq::empty()
    };
    let n: Seq<(u32, u32)> = if c.1 > 0 && !cell.north {
        seq![(c.0, (c.1 - 1) as u32)]
    } else {
        Seq::empty()
    };
    let s: Seq<(u32, u32)> = if c.1 + 1 < g.height && !cell.south {
        seq![(c.0, (c.1 + 1) as u32)]
    } else {
        Seq::empty()
    };
    let all = g.accessible_neighbors(c);
    assert(all =~= w + e + n + s);
    assert(g.cell_ok(c));
    assert forall|m: (u32, u32)| g.open_between(c, m) implies all.contains(m) by {
        if m.1 == c.1 && m.0 + 1 == c.0 {
            assert(all[0] == m);
        } else if m.1 == c.1 && c.0 + 1 == m.0 {
            assert(all[w.len() as int] == m);
        } else if m.1 + 1 == c.1 {
            assert(all[(w.len() + e.len()) as int] == m);
        } else {
            assert(all[(w.len() + e.len() + n.len()) as int] == m);
        }
    }
}

/// The passages of a well-formed grid fix all its walls: two well-formed
/// grids of one size with the same passages are the same grid.
pub proof fn lemma_passages_fix_grid(g: Grid, h: Grid)
    requires
        g.wf(),
        h.wf(),
        g.width == h.width,
        g.height == h.height,
        forall|a: (u32, u32), b: (u32, u32)| #[trigger]
            g.open_between(a, b) <==> h.open_between(a, b),
    ensures
        g == h,
{
    assert forall|y: int, x: int| 0 <= y < g.height && 0 <= x < g.width implies g.cells[y][x]
        == h.cells[y][x] by {
        let c = (x as u32, y as u32);
        assert(g.cell_ok(c));
        assert(h.cell_ok(c));
        assert(g.at(c) == g.cells[y][x]);
        assert(h.at(c) == h.cells[y][x]);
        if x + 1 < g.width {
            let e = ((x + 1) as u32, y as u32);
            assert(g.open_between(c, e) <==> h.open_between(c, e));
        }
        if y + 1 < g.height {
            let s = (x as u32, (y + 1) as u32);
            assert(g.open_between(c, s) <==> h.open_between(c, s));
        }
        if x > 0 {
            let w = ((x - 1) as u32, y as u32);
            assert(g.cell_ok(w));
            assert(h.cell_ok(w));
            assert(g.open_between(w, c) <==> h.open_between(w, c));
        }
        if y > 0 {
            let n = (x as u32, (y - 1) as u32);
            assert(g.cell_ok(n));
            assert(h.cell_ok(n));
            assert(g.open_between(n, c) <==> h.open_between(n, c));
        }
    }
    assert(g.cells =~~= h.cells);
}

spec fn strip(width: nat, y: u32) -> Set<(u32, u32)> {
    Set::new(|c: (u32, u32)| c.0 < width && c.1 == y)
}

spec fn block(width: nat, height: nat) -> Set<(u32, u32)> {
    Set::new(|c: (u32, u32)| c.0 < width && c.1 < height)
}

proof fn lemma_strip_finite(width: nat, y: u32)
    requires
        width <= u32::MAX,
    ensures
        strip(width, y).finite(),
    decreases width,
{
    broadcast use vstd::set::group_set_axioms;

    if width == 0 {
        assert(strip(width, y) =~= Set::empty());
    } else {
        lemma_strip_finite((width - 1) as nat, y);
        assert(strip(width, y) =~= strip((width - 1) as nat, y).insert(((width - 1) as u32, y)));
    }
}

proof fn lemma_block_finite(width: nat, height: nat)
    requires
        width <= u32::MAX,
        height <= u32::MAX,
    ensures
        block(width, height).finite(),
    decreases height,
{
    broadcast use vstd::set::group_set_axioms;

    if height == 0 {
        assert(block(width, height) =~= Set::empty());
    } else {
        lemma_block_finite(width, (height - 1) as nat);
        lemma_strip_finite(width, (height - 1) as u32);
        assert(block(width, height) =~= block(width, (height - 1) as nat).union(
            strip(width, (height - 1) as u32),
        ));
    }
}

/// A grid has finitely many cells, and so finitely many dead ends.
pub proof fn lemma_cells_finite(g: Grid)
    requires
        g.shaped(),
    ensures
        g.cells().finite(),
        g.dead_ends().finite(),
        g.dead_ends().subset_of(g.cells()),
{
    lemma_block_finite(g.width, g.height);
    assert(g.cells() =~= block(g.width, g.height));
    lemma_len_subset(g.dead_ends(), g.cells());
}

/// Removing the wall between two adjacent cells takes that wall, where it
/// stood, from the count of both and leaves every other cell as it was.
pub proof fn lemma_carve_cells(g: Grid, a: (u32, u32), b: (u32, u32))
    requires
        g.wf(),
        g.in_bounds(a),
        g.in_bounds(b),
        adjacent(a, b),
    ensures
        g.facing(a, b) == g.facing(b, a),
        g.carve(a, b).at(a).wall_count() == g.at(a).wall_count() - (if g.facing(a, b) {
            1int
        } else {
            0int
        }),
        g.carve(a, b).at(b).wall_count() == g.at(b).wall_count() - (if g.facing(a, b) {
            1int
        } else {
            0int
        }),
        forall|c: (u32, u32)|
            g.in_bounds(c) && c != a && c != b ==> #[trigger] g.carve(a, b).at(c) == g.at(c),
{
    lemma_walls_symmetric(g, a, b);
    let h = g.carve(a, b);
    assert(h.at(a) == g.rewalled(a, b, false, a.0 as int, a.1 as int));
    assert(h.at(b) == g.rewalled(a, b, false, b.0 as int, b.1 as int));
    assert forall|c: (u32, u32)| g.in_bounds(c) && c != a && c != b implies #[trigger] h.at(c)
        == g.at(c) by {
        assert(h.at(c) == g.rewalled(a, b, false, c.0 as int, c.1 as int));
    }
}

/// A grid has finitely many passages.
pub proof fn lemma_passages_finite(g: Grid)
    requires
        g.shaped(),
    ensures
        g.passages().finite(),
{
    lemma_cells_finite(g);
    let east = |c: (u32, u32)| (c.0, c.1, (c.0 + 1) as u32, c.1);
    let south = |c: (u32, u32)| (c.0, c.1, c.0, (c.1 + 1) as u32);
    g.cells().lemma_map_finite(east);
    g.cells().lemma_map_finite(south);
    let all = g.cells().map(east).union(g.cells().map(south));
    assert forall|e: (u32, u32, u32, u32)| g.passages().contains(e) implies all.contains(e) by {
        let c = (e.0, e.1);
        assert(g.cells().contains(c));
        if e.2 == e.0 + 1 {
            assert(east(c) == e);
            assert(g.cells().map(east).contains(e));
        } else {
            assert(south(c) == e);
            assert(g.cells().map(south).contains(e));
        }
    }
    assert(g.passages().subset_of(all));
    lemma_len_subset(g.passages(), all);
}

/// Removing a wall that stands between two adjacent cells adds one
/// passage.
pub proof fn lemma_carve_passages(g: Grid, a: (u32, u32), b: (u32, u32))
    requires
        g.wf(),
        g.in_bounds(a),
        g.in_bounds(b),
        adjacent(a, b),
        g.facing(a, b),
    ensures
        g.carve(a, b).passages().finite(),
        g.carve(a, b).passages().len() == g.passages().len() + 1,
{
    broadcast use vstd::set::group_set_axioms;

    let h = g.carve(a, b);
    let e = edge_between(a, b);
    lemma_with_wall(g, a, b, false);
    lemma_walls_symmetric(g, a, b);
    lemma_passages_finite(g);
    assert(h.passages() =~= g.passages().insert(e));
    assert(!g.passages().contains(e));
}

/// A grid in which every cell has all its walls has no passage.
pub proof fn lemma_walled_passages(g: Grid)
    requires
        g.wf(),
        lonely(g, Set::empty()),
    ensures
        g.passages().len() == 0,
{
    broadcast use vstd::set::group_set_axioms;

    assert forall|e: (u32, u32, u32, u32)| !g.passages().contains(e) by {
        if g.in_bounds((e.0, e.1)) {
            assert(g.at((e.0, e.1)).wall_count() == 4);
        }
    }
    assert(g.passages() =~= Set::empty());
}

/// Carving from a cell of the set to a neighbour outside it, which has all
/// its walls, adds one passage and leaves the other cells outside the set
/// with all their walls.
pub proof fn lemma_tree_grows(g: Grid, h: Grid, set: Set<(u32, u32)>, from: (u32, u32), to: (u32, u32))
    requires
        g.wf(),
        g.in_bounds(from),
        g.in_bounds(to),
        adjacent(from, to),
        set.contains(from),
        !set.contains(to),
        lonely(g, set),
        h == g.carve(from, to) || h == g.carve(to, from),
    ensures
        h.passages().finite(),
        h.passages().len() == g.passages().len() + 1,
        lonely(h, set.insert(to)),
{
    assert(g.at(to).wall_count() == 4);
    lemma_walls_symmetric(g, from, to);
    assert(g.facing(to, from));
    lemma_carve_passages(g, from, to);
    lemma_carve_passages(g, to, from);
    lemma_carve_cells(g, from, to);
    lemma_carve_cells(g, to, from);
    assert forall|c: (u32, u32)| h.in_bounds(c) && !set.insert(to).contains(c) implies (
    #[trigger] h.at(c)).wall_count() == 4 by {
        assert(g.at(c).wall_count() == 4);
        assert(h.at(c) == g.at(c));
    }
}

} // verus!
