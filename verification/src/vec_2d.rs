//! A dense grid with bounds-checked access.

use vstd::prelude::*;

verus! {

/// A cell coordinate: the column first, then the row.
pub type Index2d = (usize, usize);

/// A dense row-major grid. `data` holds `height` rows of `width` cells each.
#[derive(Debug)]
pub struct Vec2d<T> {
    pub width: usize,
    pub height: usize,
    pub data: Vec<Vec<T>>,
}

/// All coordinates of a grid of the given dimensions.
pub open spec fn grid_cells(width: nat, height: nat) -> Set<Index2d> {
    Set::new(|c: Index2d| c.0 < width && c.1 < height)
}

/// The coordinates of one row, up to a width.
pub open spec fn row_cells(width: nat, y: nat) -> Set<Index2d> {
    Set::new(|c: Index2d| c.0 < width && c.1 == y)
}

/// A row of `width` cells holds `width` coordinates.
pub proof fn lemma_row_cells_len(width: nat, y: nat)
    requires
        width <= usize::MAX,
        y <= usize::MAX,
    ensures
        row_cells(width, y).finite(),
        row_cells(width, y).len() == width,
    decreases width,
{
    if width == 0 {
        assert(row_cells(width, y) =~= Set::<Index2d>::empty());
    } else {
        let shorter = (width - 1) as nat;
        lemma_row_cells_len(shorter, y);
        let last: Index2d = (shorter as usize, y as usize);
        assert(row_cells(width, y) =~= row_cells(shorter, y).insert(last));
    }
}

/// A grid of `width` by `height` cells holds `width * height` coordinates.
pub proof fn lemma_grid_cells_len(width: nat, height: nat)
    requires
        width <= usize::MAX,
        height <= usize::MAX,
    ensures
        grid_cells(width, height).finite(),
        grid_cells(width, height).len() == width * height,
    decreases height,
{
    if height == 0 {
        assert(grid_cells(width, height) =~= Set::<Index2d>::empty());
    } else {
        let lower = (height - 1) as nat;
        lemma_grid_cells_len(width, lower);
        lemma_row_cells_len(width, lower);
        let below = grid_cells(width, lower);
        let top = row_cells(width, lower);
        assert(grid_cells(width, height) =~= below.union(top));
        assert(below.disjoint(top));
        vstd::set_lib::lemma_set_disjoint_lens(below, top);
        assert(width * lower + width == width * height) by (nonlinear_arith)
            requires
                lower + 1 == height,
        ;
    }
}

impl<T> View for Vec2d<T> {
    type V = Seq<Seq<T>>;

    /// The rows of the grid, each as a sequence of cells.
    open spec fn view(&self) -> Seq<Seq<T>> {
        Seq::new(self.data@.len(), |y: int| self.data@[y]@)
    }
}

impl<T> Vec2d<T> {
    /// The stored rows agree with the declared dimensions.
    pub open spec fn wf(&self) -> bool {
        &&& self@.len() == self.height
        &&& forall|y: int| 0 <= y < self@.len() ==> (#[trigger] self@[y]).len() == self.width
    }

    /// The coordinate names a stored cell.
    pub open spec fn has(&self, index: Index2d) -> bool {
        index.1 < self@.len() && index.0 < self@[index.1 as int].len()
    }

    /// The cell stored at a coordinate (meaningful where `has` holds).
    pub open spec fn at(&self, index: Index2d) -> T {
        self@[index.1 as int][index.0 as int]
    }

    /// The stored cells that lie within the declared dimensions, by
    /// coordinate.
    pub open spec fn cells(&self) -> Map<Index2d, T> {
        Map::new(
            |c: Index2d| c.0 < self.width && c.1 < self.height && self.has(c),
            |c: Index2d| self.at(c),
        )
    }

    /// `after` is this grid with `value` written to the cell at `index`, or
    /// this grid itself where `index` names no stored cell.
    pub open spec fn set_to(&self, index: Index2d, value: T, after: Vec2d<T>) -> bool {
        &&& after.width == self.width
        &&& after.height == self.height
        &&& self.has(index) ==> after@ == self@.update(
            index.1 as int,
            self@[index.1 as int].update(index.0 as int, value),
        )
        &&& !self.has(index) ==> after@ == self@
        &&& forall|c: Index2d| #[trigger] after.has(c) == self.has(c)
        &&& forall|c: Index2d|
            self.has(c) ==> #[trigger] after.at(c) == (if c == index {
                value
            } else {
                self.at(c)
            })
    }

    /// Builds each cell from its coordinate.
    pub fn generate<F: Fn(usize, usize) -> T>(width: usize, height: usize, generator: F) -> (grid:
        Self)
        requires
            forall|x: usize, y: usize| x < width && y < height ==> call_requires(generator, (x, y)),
        ensures
            grid.wf(),
            grid.width == width,
            grid.height == height,
            forall|x: usize, y: usize|
                x < width && y < height ==> call_ensures(generator, (x, y), #[trigger] grid.at((x, y))),
    {
        let mut data: Vec<Vec<T>> = Vec::new();
        let mut y: usize = 0;
        while y < height
            invariant
                y <= height,
                data@.len() == y,
                forall|x: usize, y: usize| x < width && y < height ==> call_requires(generator, (x, y)),
                forall|j: int| 0 <= j < y ==> (#[trigger] data@[j])@.len() == width,
                forall|i: usize, j: usize|
                    i < width && j < y ==> call_ensures(
                        generator,
                        (i, j),
                        #[trigger] data@[j as int]@[i as int],
                    ),
            decreases height - y,
        {
            let mut row: Vec<T> = Vec::new();
            let mut x: usize = 0;
            while x < width
                invariant
                    x <= width,
                    y < height,
                    row@.len() == x,
                    forall|x: usize, y: usize| x < width && y < height ==> call_requires(generator, (x, y)),
                    forall|i: usize| i < x ==> call_ensures(generator, (i, y), #[trigger] row@[i as int]),
                decreases width - x,
            {
                row.push(generator(x, y));
                x += 1;
            }
            data.push(row);
            y += 1;
        }
        Vec2d { width, height, data }
    }

    /// Reads a cell; a coordinate outside the stored rows yields `None`.
    pub fn get(&self, index: Index2d) -> (cell: Option<&T>)
        ensures
            match cell {
                Some(value) => self.has(index) && *value == self.at(index),
                None => !self.has(index),
            },
    {
        if index.1 < self.data.len() {
            let row = &self.data[index.1];
            if index.0 < row.len() {
                return Some(&row[index.0]);
            }
        }
        None
    }

    /// Overwrites a cell; a coordinate outside the stored rows changes nothing.
    pub fn set(&mut self, index: Index2d, value: T)
        ensures
            old(self).set_to(index, value, *final(self)),
            old(self).wf() ==> final(self).wf(),
        no_unwind
    {
        if index.1 < self.data.len() {
            if index.0 < self.data[index.1].len() {
                self.data[index.1][index.0] = value;
                proof {
                    let row = old(self)@[index.1 as int].update(index.0 as int, value);
                    assert(self@ =~= old(self)@.update(index.1 as int, row));
                    if old(self).wf() {
                        assert forall|y: int| 0 <= y < self@.len() implies (#[trigger] self@[y]).len()
                            == self.width by {
                            assert(old(self)@[y].len() == self.width);
                        }
                    }
                }
                return ;
            }
        }
        assert(self@ =~= old(self)@);
    }
}

impl<T: Clone> Vec2d<T> {
    /// Fills every cell with a clone of one value.
    pub fn fill(width: usize, height: usize, val: T) -> (grid: Self)
        ensures
            grid.wf(),
            grid.width == width,
            grid.height == height,
            forall|x: usize, y: usize| x < width && y < height ==> cloned(val, #[trigger] grid.at((x, y))),
    {
        let mut data: Vec<Vec<T>> = Vec::new();
        let mut y: usize = 0;
        while y < height
            invariant
                y <= height,
                data@.len() == y,
                forall|j: int| 0 <= j < y ==> (#[trigger] data@[j])@.len() == width,
                forall|i: usize, j: usize|
                    i < width && j < y ==> cloned(val, #[trigger] data@[j as int]@[i as int]),
            decreases height - y,
        {
            let mut row: Vec<T> = Vec::new();
            let mut x: usize = 0;
            while x < width
                invariant
                    x <= width,
                    row@.len() == x,
                    forall|i: usize| i < x ==> cloned(val, #[trigger] row@[i as int]),
                decreases width - x,
            {
                row.push(val.clone());
                x += 1;
            }
            data.push(row);
            y += 1;
        }
        Vec2d { width, height, data }
    }
}

impl<T: Clone> Clone for Vec2d<T> {
    /// A grid of the same shape whose cells are clones of the cells of this
    /// one.
    fn clone(&self) -> (copy: Self)
        ensures
            copy.width == self.width,
            copy.height == self.height,
            copy@.len() == self@.len(),
            forall|y: int| 0 <= y < self@.len() ==> (#[trigger] copy@[y]).len() == self@[y].len(),
            forall|c: Index2d| self.has(c) ==> cloned(self.at(c), #[trigger] copy.at(c)),
            self.wf() ==> copy.wf(),
    {
        let data = self.data.clone();
        let copy = Vec2d { width: self.width, height: self.height, data };
        proof {
            assert forall|y: int| 0 <= y < self@.len() implies (#[trigger] copy@[y]).len()
                == self@[y].len() && (forall|x: int|
                0 <= x < self@[y].len() ==> cloned(self@[y][x], #[trigger] copy@[y][x])) by {
                assert(cloned(self.data@[y], copy.data@[y]));
            }
            assert forall|c: Index2d| self.has(c) implies cloned(self.at(c), #[trigger] copy.at(c)) by {
                assert((copy@[c.1 as int]).len() == self@[c.1 as int].len());
            }
        }
        copy
    }
}

impl<T: Copy> Vec2d<T> {
    /// A grid with the same cells.
    pub fn copied(&self) -> (copy: Self)
        ensures
            copy.width == self.width,
            copy.height == self.height,
            copy@ == self@,
    {
        let mut data: Vec<Vec<T>> = Vec::new();
        let mut y: usize = 0;
        while y < self.data.len()
            invariant
                y <= self.data@.len(),
                data@.len() == y,
                forall|j: int| 0 <= j < y ==> (#[trigger] data@[j])@ == self.data@[j]@,
            decreases self.data@.len() - y,
        {
            let mut row: Vec<T> = Vec::new();
            let mut x: usize = 0;
            while x < self.data[y].len()
                invariant
                    y < self.data@.len(),
                    x <= self.data@[y as int]@.len(),
                    row@.len() == x,
                    forall|i: int| 0 <= i < x ==> #[trigger] row@[i] == self.data@[y as int]@[i],
                decreases self.data@[y as int]@.len() - x,
            {
                row.push(self.data[y][x]);
                x += 1;
            }
            assert(row@ =~= self.data@[y as int]@);
            data.push(row);
            y += 1;
        }
        let copy = Vec2d { width: self.width, height: self.height, data };
        assert(copy@ =~= self@);
        copy
    }
}

impl<T> Default for Vec2d<T> {
    /// The empty grid.
    fn default() -> (grid: Self)
        ensures
            grid.wf(),
            grid.width == 0,
            grid.height == 0,
    {
        Vec2d { width: 0, height: 0, data: Vec::new() }
    }
}

} // verus!
