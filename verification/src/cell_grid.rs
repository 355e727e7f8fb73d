//! Per-cell storage laid out like a maze: one value for every coordinate of
//! a rectangle, and a set of coordinates that knows its own size.

use vstd::prelude::*;

verus! {

/// The largest number of cells a rectangle with `u32` sides can hold.
pub open spec fn max_area() -> int {
    0xFFFF_FFFE_0000_0001
}

/// A rectangle with `u32` sides holds at most `max_area()` cells.
pub proof fn lemma_area_bound(w: int, h: int)
    requires
        0 <= w <= u32::MAX,
        0 <= h <= u32::MAX,
    ensures
        0 <= w * h <= max_area(),
{
    assert(0 <= w * h <= 0xFFFF_FFFF * 0xFFFF_FFFF) by (nonlinear_arith)
        requires
            0 <= w <= 0xFFFF_FFFF,
            0 <= h <= 0xFFFF_FFFF,
    ;
}

/// One value of type `T` for every coordinate of a `cols` by `lines`
/// rectangle.
pub struct CellGrid<T> {
    width: u32,
    height: u32,
    rows: Vec<Vec<T>>,
}

impl<T: Copy> CellGrid<T> {
    /// The number of columns.
    pub closed spec fn cols(&self) -> nat {
        self.width as nat
    }

    /// The number of rows.
    pub closed spec fn lines(&self) -> nat {
        self.height as nat
    }

    /// The coordinate lies in the rectangle.
    pub open spec fn in_bounds(&self, c: (u32, u32)) -> bool {
        c.0 < self.cols() && c.1 < self.lines()
    }

    /// The value stored for `c`.
    pub closed spec fn at(&self, c: (u32, u32)) -> T {
        self.rows@[c.1 as int]@[c.0 as int]
    }

    /// The storage is a full rectangle.
    pub closed spec fn wf(&self) -> bool {
        &&& self.rows@.len() == self.height
        &&& forall|y: int| 0 <= y < self.height ==> (#[trigger] self.rows@[y])@.len() == self.width
    }

    /// A rectangle that holds `fill` everywhere.
    pub fn new(width: u32, height: u32, fill: T) -> (grid: Self)
        ensures
            grid.wf(),
            grid.cols() == width,
            grid.lines() == height,
            forall|c: (u32, u32)| grid.in_bounds(c) ==> #[trigger] grid.at(c) == fill,
    {
        let mut rows: Vec<Vec<T>> = Vec::new();
        let mut y: u32 = 0;
        while y < height
            invariant
                y <= height,
                rows@.len() == y,
                forall|j: int|
                    0 <= j < y ==> (#[trigger] rows@[j])@ == Seq::new(width as nat, |x: int| fill),
            decreases height - y,
        {
            let mut row: Vec<T> = Vec::new();
            let mut x: u32 = 0;
            while x < width
                invariant
                    x <= width,
                    row@ == Seq::new(x as nat, |x: int| fill),
                decreases width - x,
            {
                row.push(fill);
                x += 1;
                assert(row@ =~= Seq::new(x as nat, |x: int| fill));
            }
            rows.push(row);
            y += 1;
        }
        CellGrid { width, height, rows }
    }

    /// The value stored for `(x, y)`.
    pub fn get(&self, x: u32, y: u32) -> (value: T)
        requires
            self.wf(),
            self.in_bounds((x, y)),
        ensures
            value == self.at((x, y)),
    {
        self.rows[y as usize][x as usize]
    }

    /// Stores `value` for `(x, y)` and leaves every other coordinate as it
    /// was.
    pub fn set(&mut self, x: u32, y: u32, value: T)
        requires
            old(self).wf(),
            old(self).in_bounds((x, y)),
        ensures
            final(self).wf(),
            final(self).cols() == old(self).cols(),
            final(self).lines() == old(self).lines(),
            final(self).at((x, y)) == value,
            forall|c: (u32, u32)|
                old(self).in_bounds(c) && c != (x, y) ==> #[trigger] final(self).at(c) == old(
                    self,
                ).at(c),
    {
        self.rows[y as usize][x as usize] = value;
        proof {
            assert forall|j: int| 0 <= j < self.height implies (#[trigger] self.rows@[j])@.len()
                == self.width by {
                assert(old(self).rows@[j]@.len() == self.width);
            }
        }
    }
}

/// How many flags of a row are set.
pub open spec fn row_count(row: Seq<bool>) -> nat
    decreases row.len(),
{
    if row.len() == 0 {
        0
    } else {
        row_count(row.drop_last()) + (if row.last() { 1nat } else { 0nat })
    }
}

/// How many flags of a grid of rows are set.
pub open spec fn rows_count(rows: Seq<Seq<bool>>) -> nat
    decreases rows.len(),
{
    if rows.len() == 0 {
        0
    } else {
        rows_count(rows.drop_last()) + row_count(rows.last())
    }
}

proof fn lemma_row_count_update(row: Seq<bool>, i: int, flag: bool)
    requires
        0 <= i < row.len(),
    ensures
        row_count(row.update(i, flag)) + (if row[i] { 1nat } else { 0nat }) == row_count(row) + (if flag {
            1nat
        } else {
            0nat
        }),
    decreases row.len(),
{
    let changed = row.update(i, flag);
    if i == row.len() - 1 {
        assert(changed.drop_last() =~= row.drop_last());
    } else {
        lemma_row_count_update(row.drop_last(), i, flag);
        assert(changed.drop_last() =~= row.drop_last().update(i, flag));
    }
}

proof fn lemma_row_count_bound(row: Seq<bool>)
    ensures
        row_count(row) <= row.len(),
    decreases row.len(),
{
    if row.len() > 0 {
        lemma_row_count_bound(row.drop_last());
    }
}

proof fn lemma_row_count_clear(row: Seq<bool>)
    requires
        forall|i: int| 0 <= i < row.len() ==> !row[i],
    ensures
        row_count(row) == 0,
    decreases row.len(),
{
    if row.len() > 0 {
        lemma_row_count_clear(row.drop_last());
    }
}

proof fn lemma_rows_count_update(rows: Seq<Seq<bool>>, j: int, row: Seq<bool>)
    requires
        0 <= j < rows.len(),
    ensures
        rows_count(rows.update(j, row)) + row_count(rows[j]) == rows_count(rows) + row_count(row),
    decreases rows.len(),
{
    let changed = rows.update(j, row);
    if j == rows.len() - 1 {
        assert(changed.drop_last() =~= rows.drop_last());
    } else {
        lemma_rows_count_update(rows.drop_last(), j, row);
        assert(changed.drop_last() =~= rows.drop_last().update(j, row));
    }
}

proof fn lemma_rows_count_bound(rows: Seq<Seq<bool>>, width: nat)
    requires
        forall|y: int| 0 <= y < rows.len() ==> (#[trigger] rows[y]).len() == width,
    ensures
        rows_count(rows) <= rows.len() * width,
    decreases rows.len(),
{
    if rows.len() > 0 {
        lemma_rows_count_bound(rows.drop_last(), width);
        lemma_row_count_bound(rows.last());
        assert((rows.len() - 1) * width + width == rows.len() * width) by (nonlinear_arith);
    } else {
        assert(0 * width == 0);
    }
}

proof fn lemma_row_count_full(row: Seq<bool>)
    requires
        forall|i: int| 0 <= i < row.len() ==> row[i],
    ensures
        row_count(row) == row.len(),
    decreases row.len(),
{
    if row.len() > 0 {
        lemma_row_count_full(row.drop_last());
    }
}

proof fn lemma_rows_count_full(rows: Seq<Seq<bool>>, width: nat)
    requires
        forall|y: int| 0 <= y < rows.len() ==> (#[trigger] rows[y]).len() == width,
        forall|y: int, x: int| 0 <= y < rows.len() && 0 <= x < rows[y].len() ==> rows[y][x],
    ensures
        rows_count(rows) == rows.len() * width,
    decreases rows.len(),
{
    if rows.len() > 0 {
        lemma_rows_count_full(rows.drop_last(), width);
        lemma_row_count_full(rows.last());
        assert((rows.len() - 1) * width + width == rows.len() * width) by (nonlinear_arith);
    } else {
        assert(0 * width == 0);
    }
}

proof fn lemma_rows_count_clear(rows: Seq<Seq<bool>>)
    requires
        forall|y: int, x: int| 0 <= y < rows.len() && 0 <= x < rows[y].len() ==> !rows[y][x],
    ensures
        rows_count(rows) == 0,
    decreases rows.len(),
{
    if rows.len() > 0 {
        lemma_rows_count_clear(rows.drop_last());
        lemma_row_count_clear(rows.last());
    }
}

/// A set of coordinates of a `cols` by `lines` rectangle that keeps count of
/// its members.
pub struct CellSet {
    flags: CellGrid<bool>,
    size: u64,
}

impl View for CellSet {
    type V = Set<(u32, u32)>;

    closed spec fn view(&self) -> Set<(u32, u32)> {
        Set::new(|c: (u32, u32)| self.flags.in_bounds(c) && self.flags.at(c))
    }
}

impl CellSet {
    /// The number of columns of the rectangle.
    pub closed spec fn cols(&self) -> nat {
        self.flags.cols()
    }

    /// The number of rows of the rectangle.
    pub closed spec fn lines(&self) -> nat {
        self.flags.lines()
    }

    /// The coordinate lies in the rectangle.
    pub open spec fn in_bounds(&self, c: (u32, u32)) -> bool {
        c.0 < self.cols() && c.1 < self.lines()
    }

    /// The number of members.
    pub closed spec fn count(&self) -> nat {
        self.size as nat
    }

    /// The number of coordinates of the rectangle that are not members.
    pub open spec fn room(&self) -> nat {
        (self.cols() * self.lines() - self.count()) as nat
    }

    spec fn flag_rows(&self) -> Seq<Seq<bool>> {
        Seq::new(self.flags.rows@.len(), |y: int| self.flags.rows@[y]@)
    }

    /// The flags form a full rectangle and the count is the number of set
    /// flags.
    pub closed spec fn wf(&self) -> bool {
        &&& self.flags.wf()
        &&& self.size == rows_count(self.flag_rows())
    }

    /// Members lie inside the rectangle, and there are never more of them
    /// than the rectangle has coordinates.
    pub proof fn lemma_bounds(&self)
        requires
            self.wf(),
        ensures
            self.count() <= self.cols() * self.lines(),
            self.cols() * self.lines() <= max_area(),
            forall|c: (u32, u32)| #[trigger] self@.contains(c) ==> self.in_bounds(c),
    {
        lemma_rows_count_bound(self.flag_rows(), self.cols());
        lemma_area_bound(self.cols() as int, self.lines() as int);
        assert(self.lines() * self.cols() == self.cols() * self.lines()) by (nonlinear_arith);
    }

    /// A set that holds every coordinate of the rectangle has as many
    /// members as the rectangle has coordinates.
    pub proof fn lemma_full(&self)
        requires
            self.wf(),
            forall|c: (u32, u32)| self.in_bounds(c) ==> self@.contains(c),
        ensures
            self.count() == self.cols() * self.lines(),
    {
        let rows = self.flag_rows();
        assert forall|y: int, x: int| 0 <= y < rows.len() && 0 <= x < rows[y].len() implies rows[y][x] by {
            let c = (x as u32, y as u32);
            assert(self.in_bounds(c));
            assert(self@.contains(c));
        }
        lemma_rows_count_full(rows, self.cols());
        assert(self.lines() * self.cols() == self.cols() * self.lines()) by (nonlinear_arith);
    }

    /// The empty set over a rectangle of the given size.
    pub fn new(width: u32, height: u32) -> (set: CellSet)
        ensures
            set.wf(),
            set.cols() == width,
            set.lines() == height,
            set@ == Set::<(u32, u32)>::empty(),
            set.count() == 0,
    {
        let flags = CellGrid::new(width, height, false);
        let set = CellSet { flags, size: 0 };
        proof {
            assert forall|y: int, x: int|
                0 <= y < set.flag_rows().len() && 0 <= x < set.flag_rows()[y].len() implies !set.flag_rows()[y][x] by {
                assert(set.flags.in_bounds((x as u32, y as u32)));
                assert(set.flags.at((x as u32, y as u32)) == false);
            }
            lemma_rows_count_clear(set.flag_rows());
            assert(set@ =~= Set::<(u32, u32)>::empty());
        }
        set
    }

    /// The number of columns of the rectangle.
    pub fn width(&self) -> (w: u32)
        ensures
            w == self.cols(),
    {
        self.flags.width
    }

    /// The number of rows of the rectangle.
    pub fn height(&self) -> (h: u32)
        ensures
            h == self.lines(),
    {
        self.flags.height
    }

    /// The number of members.
    pub fn len(&self) -> (n: u64)
        ensures
            n == self.count(),
    {
        self.size
    }

    /// Whether `(x, y)` is a member. Coordinates outside the rectangle never
    /// are.
    pub fn contains(&self, x: u32, y: u32) -> (member: bool)
        requires
            self.wf(),
        ensures
            member == self@.contains((x, y)),
    {
        if x < self.flags.width && y < self.flags.height {
            self.flags.get(x, y)
        } else {
            false
        }
    }

    /// Adds `(x, y)` and reports whether it was new.
    pub fn insert(&mut self, x: u32, y: u32) -> (fresh: bool)
        requires
            old(self).wf(),
            old(self).in_bounds((x, y)),
        ensures
            final(self).wf(),
            final(self).cols() == old(self).cols(),
            final(self).lines() == old(self).lines(),
            final(self)@ == old(self)@.insert((x, y)),
            fresh == !old(self)@.contains((x, y)),
            final(self).count() == old(self).count() + (if fresh { 1nat } else { 0nat }),
            final(self).room() + (if fresh { 1nat } else { 0nat }) == old(self).room(),
    {
        proof {
            self.lemma_bounds();
        }
        if self.flags.get(x, y) {
            assert(self@ =~= old(self)@.insert((x, y)));
            return false;
        }
        proof {
            lemma_rows_count_update(
                self.flag_rows(),
                y as int,
                self.flag_rows()[y as int].update(x as int, true),
            );
            lemma_row_count_update(self.flag_rows()[y as int], x as int, true);
        }
        self.flags.rows[y as usize][x as usize] = true;
        proof {
            assert(self.flag_rows() =~~= old(self).flag_rows().update(
                y as int,
                old(self).flag_rows()[y as int].update(x as int, true),
            ));
            assert forall|j: int| 0 <= j < self.flags.height implies (
            #[trigger] self.flags.rows@[j])@.len() == self.flags.width by {
                assert(old(self).flags.rows@[j]@.len() == self.flags.width);
            }
            lemma_rows_count_bound(self.flag_rows(), self.flags.width as nat);
            lemma_area_bound(self.flags.width as int, self.flags.height as int);
        }
        self.size = self.size + 1;
        assert(self@ =~= old(self)@.insert((x, y)));
        proof {
            self.lemma_bounds();
        }
        true
    }

    /// Takes `(x, y)` out and reports whether it was a member.
    pub fn remove(&mut self, x: u32, y: u32) -> (present: bool)
        requires
            old(self).wf(),
            old(self).in_bounds((x, y)),
        ensures
            final(self).wf(),
            final(self).cols() == old(self).cols(),
            final(self).lines() == old(self).lines(),
            final(self)@ == old(self)@.remove((x, y)),
            present == old(self)@.contains((x, y)),
            final(self).count() + (if present { 1nat } else { 0nat }) == old(self).count(),
            final(self).room() == old(self).room() + (if present { 1nat } else { 0nat }),
    {
        proof {
            self.lemma_bounds();
        }
        if !self.flags.get(x, y) {
            assert(self@ =~= old(self)@.remove((x, y)));
            return false;
        }
        proof {
            lemma_rows_count_update(
                self.flag_rows(),
                y as int,
                self.flag_rows()[y as int].update(x as int, false),
            );
            lemma_row_count_update(self.flag_rows()[y as int], x as int, false);
        }
        self.flags.rows[y as usize][x as usize] = false;
        proof {
            assert(self.flag_rows() =~~= old(self).flag_rows().update(
                y as int,
                old(self).flag_rows()[y as int].update(x as int, false),
            ));
            assert forall|j: int| 0 <= j < self.flags.height implies (
            #[trigger] self.flags.rows@[j])@.len() == self.flags.width by {
                assert(old(self).flags.rows@[j]@.len() == self.flags.width);
            }
        }
        self.size = self.size - 1;
        assert(self@ =~= old(self)@.remove((x, y)));
        proof {
            self.lemma_bounds();
        }
        true
    }
}

} // verus!
