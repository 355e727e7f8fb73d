//! The maze itself: the grid of cells that every generator carves and the
//! solver reads.

use vstd::prelude::*;
use crate::grid::{
    adjacent, lemma_accessible_neighbors, lemma_neighbors, lemma_with_wall, toward, Cell, Grid,
};
use crate::reach::{lemma_carve, lemma_wall_up};

verus! {

impl Cell {
    /// A cell with all four walls standing.
    pub fn new() -> (cell: Cell)
        ensures
            cell == (Cell { north: true, south: true, east: true, west: true }),
    {
        Cell { north: true, south: true, east: true, west: true }
    }

    /// Whether all four walls stand.
    pub fn is_isolated(&self) -> (isolated: bool)
        ensures
            isolated == (self.north && self.south && self.east && self.west),
    {
        self.north && self.south && self.east && self.west
    }
}

impl Default for Cell {
    fn default() -> (cell: Cell)
        ensures
            cell == (Cell { north: true, south: true, east: true, west: true }),
    {
        Cell::new()
    }
}

/// A rectangular maze. Its walls are only ever changed in matched pairs, so
/// the view of a maze stays well-formed through every operation.
#[derive(Debug, PartialEq, Eq)]
pub struct Maze {
    width: u32,
    height: u32,
    cells: Vec<Vec<Cell>>,
}

impl View for Maze {
    type V = Grid;

    closed spec fn view(&self) -> Grid {
        Grid {
            width: self.width as nat,
            height: self.height as nat,
            cells: Seq::new(self.cells@.len(), |y: int| self.cells@[y]@),
        }
    }
}

impl Clone for Maze {
    /// A maze with the same walls.
    fn clone(&self) -> (copy: Maze)
        ensures
            copy@ == self@,
    {
        let mut cells: Vec<Vec<Cell>> = Vec::new();
        let mut y: usize = 0;
        while y < self.cells.len()
            invariant
                0 <= y <= self.cells@.len(),
                cells@.len() == y,
                forall|j: int| 0 <= j < y ==> (#[trigger] cells@[j])@ == self.cells@[j]@,
            decreases self.cells@.len() - y,
        {
            let mut row: Vec<Cell> = Vec::new();
            let mut x: usize = 0;
            while x < self.cells[y].len()
                invariant
                    0 <= y < self.cells@.len(),
                    0 <= x <= self.cells@[y as int]@.len(),
                    row@.len() == x,
                    forall|i: int| 0 <= i < x ==> #[trigger] row@[i] == self.cells@[y as int]@[i],
                decreases self.cells@[y as int]@.len() - x,
            {
                row.push(self.cells[y][x]);
                x += 1;
            }
            assert(row@ =~= self.cells@[y as int]@);
            cells.push(row);
            y += 1;
        }
        let copy = Maze { width: self.width, height: self.height, cells };
        assert(copy@.cells =~= self@.cells);
        copy
    }
}

impl Maze {
    /// The maze's view is a well-formed grid.
    pub open spec fn wf(&self) -> bool {
        self@.wf()
    }

    /// The maze holds a rectangle of cells, and is well-formed unless it
    /// has none.
    pub open spec fn sound(&self) -> bool {
        self@.laid_out() && (self@.width >= 1 && self@.height >= 1 ==> self@.wf())
    }

    /// A maze of the given size with every wall standing. A width or
    /// height of zero gives a maze without cells: it has neither entry nor
    /// exit, so it is not well-formed: its size, its cells and its walls can
    /// be asked of it, and changing a wall has no effect.
    pub fn new(width: u32, height: u32) -> (maze: Maze)
        ensures
            maze.sound(),
            maze@.laid_out(),
            width >= 1 && height >= 1 ==> maze.wf(),
            maze@.width == width,
            maze@.height == height,
            forall|c: (u32, u32)|
                maze@.in_bounds(c) ==> #[trigger] maze@.at(c) == (Cell {
                    north: true,
                    south: true,
                    east: true,
                    west: true,
                }),
    {
        let mut cells: Vec<Vec<Cell>> = Vec::new();
        let mut y: u32 = 0;
        while y < height
            invariant
                y <= height,
                cells@.len() == y,
                forall|j: int|
                    0 <= j < y ==> (#[trigger] cells@[j])@ == Seq::new(
                        width as nat,
                        |x: int| Cell { north: true, south: true, east: true, west: true },
                    ),
            decreases height - y,
        {
            let mut row: Vec<Cell> = Vec::new();
            let mut x: u32 = 0;
            while x < width
                invariant
                    x <= width,
                    row@ == Seq::new(
                        x as nat,
                        |x: int| Cell { north: true, south: true, east: true, west: true },
                    ),
                decreases width - x,
            {
                row.push(Cell::new());
                x += 1;
                assert(row@ =~= Seq::new(
                    x as nat,
                    |x: int| Cell { north: true, south: true, east: true, west: true },
                ));
            }
            cells.push(row);
            y += 1;
        }
        let maze = Maze { width, height, cells };
        proof {
            assert(maze@.laid_out());
            assert forall|c: (u32, u32)| maze@.in_bounds(c) implies #[trigger] maze@.cell_ok(c) by {
                assert(maze@.at(c).east);
            }
        }
        maze
    }

    /// The number of columns.
    pub fn width(&self) -> (w: u32)
        ensures
            w == self@.width,
    {
        self.width
    }

    /// The number of rows.
    pub fn height(&self) -> (h: u32)
        ensures
            h == self@.height,
    {
        self.height
    }

    /// The cell at `(x, y)`, or `None` outside the grid.
    pub fn get_cell(&self, x: u32, y: u32) -> (cell: Option<&Cell>)
        requires
            self@.laid_out(),
        ensures
            self@.in_bounds((x, y)) ==> cell == Some(&self@.at((x, y))),
            !self@.in_bounds((x, y)) ==> cell is None,
    {
        if x < self.width && y < self.height {
            Some(self.cell_ref(x, y))
        } else {
            None
        }
    }

    /// Removes the wall between two adjacent cells, on both sides. Does
    /// nothing when either coordinate lies outside the grid or the two cells
    /// are not adjacent.
    pub fn remove_wall(&mut self, x1: u32, y1: u32, x2: u32, y2: u32)
        requires
            old(self).sound(),
        ensures
            final(self).sound(),
            old(self).wf() ==> final(self).wf(),
            final(self)@ == old(self)@.carve((x1, y1), (x2, y2)),
            final(self)@.width == old(self)@.width,
            final(self)@.height == old(self)@.height,
            old(self)@.passages_within(final(self)@),
            !(old(self)@.in_bounds((x1, y1)) && old(self)@.in_bounds((x2, y2)) && adjacent(
                (x1, y1),
                (x2, y2),
            )) ==> final(self)@ == old(self)@,
    {
        proof {
            if self.wf() {
                lemma_carve(self@, (x1, y1), (x2, y2));
            }
        }
        self.set_wall(x1, y1, x2, y2, false);
    }

    /// Raises the wall between two adjacent cells, on both sides. Does
    /// nothing when either coordinate lies outside the grid or the two cells
    /// are not adjacent.
    pub fn add_wall(&mut self, x1: u32, y1: u32, x2: u32, y2: u32)
        requires
            old(self).sound(),
        ensures
            final(self).sound(),
            old(self).wf() ==> final(self).wf(),
            final(self)@ == old(self)@.wall_up((x1, y1), (x2, y2)),
            final(self)@.width == old(self)@.width,
            final(self)@.height == old(self)@.height,
            final(self)@.passages_within(old(self)@),
    {
        proof {
            if self.wf() {
                lemma_wall_up(self@, (x1, y1), (x2, y2));
            }
        }
        self.set_wall(x1, y1, x2, y2, true);
    }

    /// Whether a wall stands on the side of the first cell that faces the
    /// second. The side is chosen by the offset alone, columns before rows:
    /// the east or west wall when the second cell is one column to the east
    /// or west, whatever its row; otherwise the south or north wall when it
    /// is one row below or above. A coordinate outside the grid, or any
    /// other offset, counts as walled.
    pub fn has_wall(&self, x1: u32, y1: u32, x2: u32, y2: u32) -> (wall: bool)
        requires
            self.sound(),
        ensures
            wall == (if self@.in_bounds((x1, y1)) && self@.in_bounds((x2, y2)) {
                self@.facing((x1, y1), (x2, y2))
            } else {
                true
            }),
    {
        if x1 >= self.width || y1 >= self.height || x2 >= self.width || y2 >= self.height {
            return true;
        }
        let cell = self.cell_ref(x1, y1);
        if x1 < x2 && x2 - x1 == 1 {
            cell.east
        } else if x2 < x1 && x1 - x2 == 1 {
            cell.west
        } else if y1 < y2 && y2 - y1 == 1 {
            cell.south
        } else if y2 < y1 && y1 - y2 == 1 {
            cell.north
        } else {
            true
        }
    }

    /// The coordinates next to `(x, y)` on the grid, whatever the walls:
    /// west, east, north, south, each only where the grid goes on.
    pub fn get_neighbors(&self, x: u32, y: u32) -> (neighbors: Vec<(u32, u32)>)
        requires
            self.wf(),
        ensures
            neighbors@ == self@.neighbors((x, y)),
            neighbors@.len() <= 4,
            self@.in_bounds((x, y)) ==> forall|i: int|
                0 <= i < neighbors@.len() ==> self@.in_bounds(#[trigger] neighbors@[i])
                    && adjacent((x, y), neighbors@[i]),
    {
        let mut neighbors: Vec<(u32, u32)> = Vec::new();
        if x > 0 {
            neighbors.push((x - 1, y));
        }
        if x < self.width - 1 {
            neighbors.push((x + 1, y));
        }
        if y > 0 {
            neighbors.push((x, y - 1));
        }
        if y < self.height - 1 {
            neighbors.push((x, y + 1));
        }
        proof {
            assert(neighbors@ =~= self@.neighbors((x, y)));
            if self@.in_bounds((x, y)) {
                lemma_neighbors(self@, (x, y));
            }
        }
        neighbors
    }

    /// The neighbours of `(x, y)` that can be entered from it, in the order
    /// west, east, north, south. Empty when `(x, y)` lies outside the grid.
    pub fn get_accessible_neighbors(&self, x: u32, y: u32) -> (accessible: Vec<(u32, u32)>)
        requires
            self.sound(),
        ensures
            accessible@ == self@.accessible_neighbors((x, y)),
            accessible@.len() <= 4,
            forall|i: int|
                0 <= i < accessible@.len() ==> self@.open_between((x, y), #[trigger] accessible@[i]),
            forall|n: (u32, u32)| self@.open_between((x, y), n) ==> accessible@.contains(n),
    {
        let mut accessible: Vec<(u32, u32)> = Vec::new();
        if x < self.width && y < self.height {
            let cell = *self.cell_ref(x, y);
            if x > 0 && !cell.west {
                accessible.push((x - 1, y));
            }
            if x < self.width - 1 && !cell.east {
                accessible.push((x + 1, y));
            }
            if y > 0 && !cell.north {
                accessible.push((x, y - 1));
            }
            if y < self.height - 1 && !cell.south {
                accessible.push((x, y + 1));
            }
            proof {
                assert(accessible@ =~= self@.accessible_neighbors((x, y)));
                lemma_accessible_neighbors(self@, (x, y));
            }
        }
        accessible
    }

    fn set_wall(&mut self, x1: u32, y1: u32, x2: u32, y2: u32, present: bool)
        requires
            old(self).sound(),
        ensures
            final(self).sound(),
            old(self).wf() ==> final(self).wf(),
            final(self)@ == (if old(self)@.in_bounds((x1, y1)) && old(self)@.in_bounds((x2, y2))
                && adjacent((x1, y1), (x2, y2)) {
                old(self)@.with_wall((x1, y1), (x2, y2), present)
            } else {
                old(self)@
            }),
    {
        if x1 >= self.width || y1 >= self.height || x2 >= self.width || y2 >= self.height {
            return ;
        }
        let beside = y1 == y2 && (x1 < x2 && x2 - x1 == 1 || x2 < x1 && x1 - x2 == 1);
        let above = x1 == x2 && (y1 < y2 && y2 - y1 == 1 || y2 < y1 && y1 - y2 == 1);
        if !(beside || above) {
            return ;
        }
        let ghost a = (x1, y1);
        let ghost b = (x2, y2);
        let ghost target = self@.with_wall(a, b, present);
        proof {
            lemma_with_wall(self@, a, b, present);
        }
        let first = turned(*self.cell_ref(x1, y1), x1, y1, x2, y2, present);
        self.put(x1, y1, first);
        let second = turned(*self.cell_ref(x2, y2), x2, y2, x1, y1, present);
        self.put(x2, y2, second);
        proof {
            assert forall|y: int, x: int| 0 <= y < self.height && 0 <= x < self.width implies
                self@.cells[y][x] == target.cells[y][x] by {
                let c = (x as u32, y as u32);
                assert(self@.at(c) == target.at(c));
            }
            assert(self@.cells =~~= target.cells);
        }
    }

    fn cell_ref(&self, x: u32, y: u32) -> (cell: &Cell)
        requires
            self@.laid_out(),
            self@.in_bounds((x, y)),
        ensures
            *cell == self@.at((x, y)),
    {
        assert(self@.cells[y as int].len() == self.width);
        &self.cells[y as usize][x as usize]
    }

    fn put(&mut self, x: u32, y: u32, cell: Cell)
        requires
            old(self)@.shaped(),
            old(self)@.in_bounds((x, y)),
        ensures
            final(self)@.shaped(),
            final(self)@.width == old(self)@.width,
            final(self)@.height == old(self)@.height,
            forall|c: (u32, u32)|
                old(self)@.in_bounds(c) ==> #[trigger] final(self)@.at(c) == (if c == (x, y) {
                    cell
                } else {
                    old(self)@.at(c)
                }),
    {
        assert(self@.cells[y as int].len() == self.width);
        self.cells[y as usize][x as usize] = cell;
        proof {
            assert forall|j: int| 0 <= j < self.height implies (#[trigger] self@.cells[j]).len()
                == self.width by {
                assert(old(self)@.cells[j].len() == self.width);
            }
        }
    }
}

/// The cell with its wall toward the neighbour at `(x2, y2)` set to
/// `present`; unchanged when the two coordinates are not adjacent.
fn turned(cell: Cell, x1: u32, y1: u32, x2: u32, y2: u32, present: bool) -> (out: Cell)
    ensures
        out == toward(cell, (x1, y1), (x2, y2), present),
{
    if x1 < x2 && x2 - x1 == 1 {
        Cell { east: present, ..cell }
    } else if x2 < x1 && x1 - x2 == 1 {
        Cell { west: present, ..cell }
    } else if y1 < y2 && y2 - y1 == 1 {
        Cell { south: present, ..cell }
    } else if y2 < y1 && y1 - y2 == 1 {
        Cell { north: present, ..cell }
    } else {
        cell
    }
}

} // verus!
