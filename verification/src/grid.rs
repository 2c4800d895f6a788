use vstd::prelude::*;
use core::ops::Range;
use crate::coords::Coord2D;

verus! {

/// The mathematical content of a [`Grid`]: its bounds, its padding, and its
/// cells as one row-major sequence.
pub ghost struct GridView<T> {
    pub min_x: int,
    pub min_y: int,
    pub x_size: nat,
    pub y_size: nat,
    pub padding: int,
    pub cells: Seq<T>,
}

impl<T> GridView<T> {
    /// The grid stores exactly one cell for each coordinate pair inside its
    /// bounds, and all its arithmetic stays inside the machine types.
    pub open spec fn wf(self) -> bool {
        &&& self.cells.len() == self.x_size * self.y_size
        &&& self.cells.len() <= usize::MAX
        &&& i64::MIN <= self.min_x
        &&& i64::MIN <= self.min_y
        &&& self.x_size <= i64::MAX
        &&& self.y_size <= i64::MAX
        &&& self.min_x + self.x_size <= i64::MAX
        &&& self.min_y + self.y_size <= i64::MAX
        &&& 0 <= self.padding <= self.x_size
        &&& self.padding <= self.y_size
    }

    /// Whether `(x, y)` falls inside the grid's bounds.
    pub open spec fn in_bounds(self, x: int, y: int) -> bool {
        &&& self.min_x <= x < self.min_x + self.x_size
        &&& self.min_y <= y < self.min_y + self.y_size
    }

    /// Row-major position of `(x, y)` in `cells`.
    pub open spec fn idx(self, x: int, y: int) -> int {
        (y - self.min_y) * self.x_size + (x - self.min_x)
    }

    /// The cell stored at `(x, y)`.
    pub open spec fn cell(self, x: int, y: int) -> T {
        self.cells[self.idx(x, y)]
    }
}

/// A position inside the bounds of a well-formed grid indexes inside `cells`.
pub proof fn lemma_idx_in_range<T>(v: GridView<T>, x: int, y: int)
    requires
        v.wf(),
        v.in_bounds(x, y),
    ensures
        0 <= v.idx(x, y) < v.cells.len(),
{
    let row = y - v.min_y;
    let col = x - v.min_x;
    assert(0 <= row < v.y_size && 0 <= col < v.x_size);
    assert(row * v.x_size + col < v.y_size * v.x_size) by (nonlinear_arith)
        requires
            0 <= row < v.y_size,
            0 <= col < v.x_size,
    ;
    assert(0 <= row * v.x_size) by (nonlinear_arith)
        requires
            0 <= row,
            0 <= v.x_size,
    ;
    assert(v.y_size * v.x_size == v.x_size * v.y_size) by (nonlinear_arith);
}

/// Two distinct in-bounds positions index distinct cells.
pub proof fn lemma_idx_injective<T>(v: GridView<T>, x1: int, y1: int, x2: int, y2: int)
    requires
        v.wf(),
        v.in_bounds(x1, y1),
        v.in_bounds(x2, y2),
        v.idx(x1, y1) == v.idx(x2, y2),
    ensures
        x1 == x2 && y1 == y2,
{
    let r1 = y1 - v.min_y;
    let c1 = x1 - v.min_x;
    let r2 = y2 - v.min_y;
    let c2 = x2 - v.min_x;
    assert(r1 == r2 && c1 == c2) by (nonlinear_arith)
        requires
            0 <= r1 && 0 <= r2,
            0 <= c1 < v.x_size,
            0 <= c2 < v.x_size,
            r1 * v.x_size + c1 == r2 * v.x_size + c2,
    ;
}

/// A rectangular array of cells indexed by a pair of (possibly negative)
/// coordinates, stored row by row.
#[derive(Clone)]
pub struct Grid<T: Copy> {
    min_x: i64,
    min_y: i64,
    x_size: usize,
    y_size: usize,
    data: Vec<T>,
    padding: i64,
}

impl<T: Copy> View for Grid<T> {
    type V = GridView<T>;

    closed spec fn view(&self) -> GridView<T> {
        GridView {
            min_x: self.min_x as int,
            min_y: self.min_y as int,
            x_size: self.x_size as nat,
            y_size: self.y_size as nat,
            padding: self.padding as int,
            cells: self.data@,
        }
    }
}

/// A vector of `n` copies of `val`.
fn vec_filled<T: Copy>(n: usize, val: T) -> (r: Vec<T>)
    ensures
        r@.len() == n,
        forall|i: int| 0 <= i < n ==> r@[i] == val,
{
    let mut v: Vec<T> = Vec::new();
    let mut i: usize = 0;
    while i < n
        invariant
            i <= n,
            v@.len() == i,
            forall|j: int| 0 <= j < i ==> v@[j] == val,
        decreases n - i,
    {
        v.push(val);
        i = i + 1;
    }
    v
}

impl<T: Copy> Grid<T> {
    /// A grid covering `min_x..=max_x` by `min_y..=max_y`, every cell set to
    /// `initial_val`.
    pub fn new(min_x: i64, min_y: i64, max_x: i64, max_y: i64, initial_val: T) -> (r: Self)
        requires
            min_x - 1 <= max_x < i64::MAX,
            min_y - 1 <= max_y < i64::MAX,
            max_x - min_x < i64::MAX,
            max_y - min_y < i64::MAX,
            max_x - min_x < usize::MAX,
            max_y - min_y < usize::MAX,
            (max_x - min_x + 1) * (max_y - min_y + 1) <= usize::MAX,
        ensures
            r@.wf(),
            r@.min_x == min_x,
            r@.min_y == min_y,
            r@.x_size == max_x - min_x + 1,
            r@.y_size == max_y - min_y + 1,
            r@.padding == 0,
            forall|i: int| 0 <= i < r@.cells.len() ==> r@.cells[i] == initial_val,
    {
        let x_size = (max_x - min_x + 1) as usize;
        let y_size = (max_y - min_y + 1) as usize;
        proof {
            assert(x_size * y_size == (max_x - min_x + 1) * (max_y - min_y + 1))
                by (nonlinear_arith)
                requires
                    x_size == max_x - min_x + 1,
                    y_size == max_y - min_y + 1,
            ;
        }
        let n = x_size * y_size;
        Grid {
            min_x,
            min_y,
            x_size,
            y_size,
            data: vec_filled(n, initial_val),
            padding: 0,
        }
    }

    /// A grid with the same bounds and padding as `self`, every cell set to
    /// `initial_val`.
    pub fn clone_without_data(&self, initial_val: T) -> (r: Self)
        requires
            self@.wf(),
        ensures
            r@.wf(),
            r@.min_x == self@.min_x,
            r@.min_y == self@.min_y,
            r@.x_size == self@.x_size,
            r@.y_size == self@.y_size,
            r@.padding == self@.padding,
            r@.cells.len() == self@.cells.len(),
            forall|i: int| 0 <= i < r@.cells.len() ==> r@.cells[i] == initial_val,
    {
        let n = self.data.len();
        Grid {
            min_x: self.min_x,
            min_y: self.min_y,
            x_size: self.x_size,
            y_size: self.y_size,
            data: vec_filled(n, initial_val),
            padding: self.padding,
        }
    }

    /// The cell at `(x, y)`, which must be inside the bounds.
    pub fn get(&self, x: i64, y: i64) -> (r: T)
        requires
            self@.wf(),
            self@.in_bounds(x as int, y as int),
        ensures
            r == self@.cell(x as int, y as int),
    {
        proof {
            lemma_idx_in_range(self@, x as int, y as int);
        }
        let ux: usize = (x - self.min_x) as usize;
        let uy: usize = (y - self.min_y) as usize;
        let idx = uy * self.x_size + ux;
        self.data[idx]
    }

    /// Replaces the cell at `(x, y)`, which must be inside the bounds.
    pub fn set(&mut self, x: i64, y: i64, val: T)
        requires
            old(self)@.wf(),
            old(self)@.in_bounds(x as int, y as int),
        ensures
            final(self)@.wf(),
            final(self)@ == (GridView {
                cells: old(self)@.cells.update(old(self)@.idx(x as int, y as int), val),
                ..old(self)@
            }),
    {
        proof {
            lemma_idx_in_range(self@, x as int, y as int);
        }
        let ux: usize = (x - self.min_x) as usize;
        let uy: usize = (y - self.min_y) as usize;
        let idx = uy * self.x_size + ux;
        self.data.set(idx, val);
    }

    /// The cell at `(x, y)`, or `default` when `(x, y)` is out of bounds.
    pub fn get_or_default(&self, x: i64, y: i64, default: T) -> (r: T)
        requires
            self@.wf(),
        ensures
            r == if self@.in_bounds(x as int, y as int) {
                self@.cell(x as int, y as int)
            } else {
                default
            },
    {
        if x >= self.min_x && x < self.min_x + self.x_size as i64 && y >= self.min_y && y
            < self.min_y + self.y_size as i64 {
            self.get(x, y)
        } else {
            default
        }
    }

    /// The half-open range of x coordinates the grid covers.
    pub fn x_bounds(&self) -> (r: Range<i64>)
        requires
            self@.wf(),
        ensures
            r.start == self@.min_x,
            r.end == self@.min_x + self@.x_size,
    {
        self.min_x..self.min_x + self.x_size as i64
    }

    /// The half-open range of y coordinates the grid covers.
    pub fn y_bounds(&self) -> (r: Range<i64>)
        requires
            self@.wf(),
        ensures
            r.start == self@.min_y,
            r.end == self@.min_y + self@.y_size,
    {
        self.min_y..self.min_y + self.y_size as i64
    }

    /// The x range the grid covered before padding was added around it.
    pub fn x_bounds_orig(&self) -> (r: Range<i64>)
        requires
            self@.wf(),
        ensures
            r.start == self@.min_x + self@.padding,
            r.end == self@.min_x + self@.x_size - self@.padding,
    {
        self.min_x + self.padding..self.min_x + self.x_size as i64 - self.padding
    }

    /// The y range the grid covered before padding was added around it.
    pub fn y_bounds_orig(&self) -> (r: Range<i64>)
        requires
            self@.wf(),
        ensures
            r.start == self@.min_y + self@.padding,
            r.end == self@.min_y + self@.y_size - self@.padding,
    {
        self.min_y + self.padding..self.min_y + self.y_size as i64 - self.padding
    }

    /// The cells in row-major order.
    pub fn data(&self) -> (r: &Vec<T>)
        ensures
            r@ == self@.cells,
    {
        &self.data
    }

    /// The cell at `coord`, which must be inside the bounds.
    pub fn get_c<C: Into<Coord2D>>(&self, coord: C) -> (r: T)
        requires
            self@.wf(),
            forall|c: Coord2D|
                call_ensures(<C as Into<Coord2D>>::into, (coord,), c) ==> self@.in_bounds(
                    c.x as int,
                    c.y as int,
                ),
        ensures
            exists|c: Coord2D|
                call_ensures(<C as Into<Coord2D>>::into, (coord,), c) && r == self@.cell(
                    c.x as int,
                    c.y as int,
                ),
    {
        let c: Coord2D = coord.into();
        self.get(c.x, c.y)
    }

    /// Replaces the cell at `coord`, which must be inside the bounds.
    pub fn set_c<C: Into<Coord2D>>(&mut self, coord: C, val: T)
        requires
            old(self)@.wf(),
            forall|c: Coord2D|
                call_ensures(<C as Into<Coord2D>>::into, (coord,), c) ==> old(self)@.in_bounds(
                    c.x as int,
                    c.y as int,
                ),
        ensures
            final(self)@.wf(),
            exists|c: Coord2D|
                call_ensures(<C as Into<Coord2D>>::into, (coord,), c) && final(self)@ == (GridView {
                    cells: old(self)@.cells.update(old(self)@.idx(c.x as int, c.y as int), val),
                    ..old(self)@
                }),
    {
        let c: Coord2D = coord.into();
        self.set(c.x, c.y, val);
    }

    /// Whether `coord` falls inside the bounds.
    pub fn contains_coord<C: Into<Coord2D>>(&self, coord: C) -> (r: bool)
        requires
            self@.wf(),
        ensures
            exists|c: Coord2D|
                call_ensures(<C as Into<Coord2D>>::into, (coord,), c) && r == self@.in_bounds(
                    c.x as int,
                    c.y as int,
                ),
    {
        let c: Coord2D = coord.into();
        let r = c.x >= self.min_x && c.x < self.min_x + self.x_size as i64 && c.y >= self.min_y
            && c.y < self.min_y + self.y_size as i64;
        proof {
            assert(call_ensures(<C as Into<Coord2D>>::into, (coord,), c) && r == self@.in_bounds(
                c.x as int,
                c.y as int,
            ));
        }
        r
    }

    /// The position that `(x, y)` reads from under `xform`, computed by the
    /// same relative-coordinate arithmetic for every transform.
    fn apply_transform(&self, x: i64, y: i64, xform: GridTransform) -> (r: (i64, i64))
        requires
            self@.wf(),
            self@.xform_in_bounds(x as int, y as int, xform),
        ensures
            (r.0 as int, r.1 as int) == self@.xform_pos(x as int, y as int, xform),
            self@.in_bounds(r.0 as int, r.1 as int),
    {
        let xsize = self.x_size as i64;
        let ysize = self.y_size as i64;
        let x0 = x - self.min_x;
        let y0 = y - self.min_y;
        let (x1, y1) = match xform {
            GridTransform::Identity => (x0, y0),
            GridTransform::Rot90 => (y0, ysize - 1 - x0),
            GridTransform::Rot180 => (xsize - 1 - x0, ysize - 1 - y0),
            GridTransform::Rot270 => (xsize - 1 - y0, x0),
            GridTransform::HFlip => (xsize - 1 - x0, y0),
            GridTransform::Rot90HFlip => (y0, x0),
            GridTransform::VFlip => (x0, ysize - 1 - y0),
            GridTransform::Rot270HFlip => (xsize - 1 - y0, ysize - 1 - x0),
        };
        (x1 + self.min_x, y1 + self.min_y)
    }

    /// The cell that `(x, y)` denotes when the grid is viewed under `xform`.
    pub fn get_xform(&self, x: i64, y: i64, xform: GridTransform) -> (r: T)
        requires
            self@.wf(),
            self@.xform_in_bounds(x as int, y as int, xform),
        ensures
            r == self@.xform_cell(x as int, y as int, xform),
    {
        let (x, y) = self.apply_transform(x, y, xform);
        self.get(x, y)
    }

    /// Replaces the cell that `(x, y)` denotes under `xform`.
    pub fn set_xform(&mut self, x: i64, y: i64, val: T, xform: GridTransform)
        requires
            old(self)@.wf(),
            old(self)@.xform_in_bounds(x as int, y as int, xform),
        ensures
            final(self)@.wf(),
            final(self)@ == (GridView {
                cells: old(self)@.cells.update(
                    old(self)@.idx(
                        old(self)@.xform_pos(x as int, y as int, xform).0,
                        old(self)@.xform_pos(x as int, y as int, xform).1,
                    ),
                    val,
                ),
                ..old(self)@
            }),
    {
        let (x, y) = self.apply_transform(x, y, xform);
        self.set(x, y, val);
    }

    /// Like `get_or_default`, but reading through `xform`; out-of-bounds
    /// positions yield `default`.
    pub fn get_or_default_xform(&self, x: i64, y: i64, default: T, xform: GridTransform) -> (r: T)
        requires
            self@.wf(),
        ensures
            r == if self@.xform_in_bounds(x as int, y as int, xform) {
                self@.xform_cell(x as int, y as int, xform)
            } else {
                default
            },
    {
        let in_b = match xform {
            GridTransform::Rot90
            | GridTransform::Rot270
            | GridTransform::Rot90HFlip
            | GridTransform::Rot270HFlip => {
                x >= self.min_x && (x as i128) - (self.min_x as i128) < (self.y_size as i128)
                    && y >= self.min_y && (y as i128) - (self.min_y as i128) < (
                self.x_size as i128)
            },
            _ => {
                x >= self.min_x && (x as i128) - (self.min_x as i128) < (self.x_size as i128)
                    && y >= self.min_y && (y as i128) - (self.min_y as i128) < (
                self.y_size as i128)
            },
        };
        if in_b {
            self.get_xform(x, y, xform)
        } else {
            default
        }
    }

    /// The x range of the grid as seen under `xform`.
    pub fn x_bounds_xform(&self, xform: GridTransform) -> (r: Range<i64>)
        requires
            self@.wf(),
        ensures
            r == if xform_swaps(xform) {
                Range { start: self@.min_y as i64, end: (self@.min_y + self@.y_size) as i64 }
            } else {
                Range { start: self@.min_x as i64, end: (self@.min_x + self@.x_size) as i64 }
            },
    {
        match xform {
            GridTransform::Rot90
            | GridTransform::Rot270
            | GridTransform::Rot90HFlip
            | GridTransform::Rot270HFlip => self.y_bounds(),
            GridTransform::Identity
            | GridTransform::Rot180
            | GridTransform::HFlip
            | GridTransform::VFlip => self.x_bounds(),
        }
    }

    /// The y range of the grid as seen under `xform`.
    pub fn y_bounds_xform(&self, xform: GridTransform) -> (r: Range<i64>)
        requires
            self@.wf(),
        ensures
            r == if xform_swaps(xform) {
                Range { start: self@.min_x as i64, end: (self@.min_x + self@.x_size) as i64 }
            } else {
                Range { start: self@.min_y as i64, end: (self@.min_y + self@.y_size) as i64 }
            },
    {
        match xform {
            GridTransform::Rot90
            | GridTransform::Rot270
            | GridTransform::Rot90HFlip
            | GridTransform::Rot270HFlip => self.x_bounds(),
            GridTransform::Identity
            | GridTransform::Rot180
            | GridTransform::HFlip
            | GridTransform::VFlip => self.y_bounds(),
        }
    }
}

/// A row-major position built from a row and column below the grid's extents
/// stays below the cell count.
pub proof fn lemma_rowmajor_bound(row: int, col: int, xs: int, ys: int)
    requires
        0 <= row < ys,
        0 <= col < xs,
    ensures
        0 <= row * xs + col < ys * xs,
        ys * xs == xs * ys,
        (row + 1) * xs == row * xs + xs,
{
    assert(0 <= row * xs + col < ys * xs && (row + 1) * xs == row * xs + xs) by (nonlinear_arith)
        requires
            0 <= row < ys,
            0 <= col < xs,
    ;
    assert(ys * xs == xs * ys) by (nonlinear_arith);
}

/// The cell at `(row, col)` of a row-major sequence whose rows have length
/// `xs`.
pub open spec fn row_major_at<T>(s: Seq<T>, xs: int, row: int, col: int) -> T {
    s[row * xs + col]
}

impl<T: Copy> Grid<T> {
    /// The grid with each row reversed (mirrored about the vertical axis).
    pub fn h_flip(&self) -> (r: Self)
        requires
            self@.wf(),
        ensures
            r@.wf(),
            r@ == (GridView { cells: r@.cells, ..self@ }),
            r@.cells.len() == self@.cells.len(),
            forall|row: int, col: int|
                0 <= row < self@.y_size && 0 <= col < self@.x_size
                    ==> #[trigger] row_major_at(r@.cells, self@.x_size as int, row, col)
                    == row_major_at(self@.cells, self@.x_size as int, row, self@.x_size - 1 - col),
    {
        let xs = self.x_size;
        let ys = self.y_size;
        let ghost srcs = self@.cells;
        let mut data: Vec<T> = Vec::new();
        let mut row: usize = 0;
        while row < ys
            invariant
                self@.wf(),
                xs == self@.x_size,
                ys == self@.y_size,
                srcs == self@.cells,
                row <= ys,
                data@.len() == row * xs,
                forall|j: int|
                    0 <= j < data@.len() ==> #[trigger] data@[j] == srcs[(j / (xs as int)) * xs + (
                    xs - 1 - (j % (xs as int)))],
            decreases ys - row,
        {
            proof {
                assert(row * xs <= ys * xs) by (nonlinear_arith)
                    requires
                        0 <= row <= ys,
                        0 <= xs,
                ;
            }
            let rowidx = row * xs;
            let mut col: usize = 0;
            while col < xs
                invariant
                    self@.wf(),
                    xs == self@.x_size,
                    ys == self@.y_size,
                    srcs == self@.cells,
                    row < ys,
                    col <= xs,
                    rowidx == row * xs,
                    data@.len() == row * xs + col,
                    forall|j: int|
                        0 <= j < data@.len() ==> #[trigger] data@[j] == srcs[(j / (xs as int)) * xs
                            + (xs - 1 - (j % (xs as int)))],
                decreases xs - col,
            {
                proof {
                    lemma_rowmajor_bound(row as int, xs - 1 - col, xs as int, ys as int);
                    lemma_rowmajor_bound(row as int, col as int, xs as int, ys as int);
                    vstd::arithmetic::div_mod::lemma_fundamental_div_mod_converse(
                        row * xs + col,
                        xs as int,
                        row as int,
                        col as int,
                    );
                }
                data.push(self.data[rowidx + (xs - 1 - col)]);
                col = col + 1;
            }
            proof {
                assert((row + 1) * xs == row * xs + xs) by (nonlinear_arith);
            }
            row = row + 1;
        }
        let r = Grid {
            min_x: self.min_x,
            min_y: self.min_y,
            x_size: self.x_size,
            y_size: self.y_size,
            data,
            padding: self.padding,
        };
        proof {
            assert(r@.cells.len() == self@.cells.len()) by (nonlinear_arith)
                requires
                    r@.cells.len() == ys * xs,
                    self@.cells.len() == self@.x_size * self@.y_size,
                    xs == self@.x_size,
                    ys == self@.y_size,
            ;
            assert forall|row: int, col: int| 0 <= row < ys && 0 <= col < xs implies #[trigger] row_major_at(
                r@.cells,
                xs as int,
                row,
                col,
            ) == row_major_at(srcs, xs as int, row, xs - 1 - col) by {
                lemma_rowmajor_bound(row, col, xs as int, ys as int);
                vstd::arithmetic::div_mod::lemma_fundamental_div_mod_converse(
                    row * xs + col,
                    xs as int,
                    row,
                    col,
                );
            }
        }
        r
    }

    /// Reverses each row of the grid in place.
    pub fn h_flip_inplace(&mut self)
        requires
            old(self)@.wf(),
        ensures
            final(self)@.wf(),
            final(self)@ == (GridView { cells: final(self)@.cells, ..old(self)@ }),
            final(self)@.cells.len() == old(self)@.cells.len(),
            forall|row: int, col: int|
                0 <= row < old(self)@.y_size && 0 <= col < old(self)@.x_size
                    ==> #[trigger] row_major_at(
                    final(self)@.cells,
                    old(self)@.x_size as int,
                    row,
                    col,
                ) == row_major_at(
                    old(self)@.cells,
                    old(self)@.x_size as int,
                    row,
                    old(self)@.x_size - 1 - col,
                ),
    {
        *self = self.h_flip();
    }

    /// The grid with its rows in reverse order (mirrored about the horizontal
    /// axis).
    pub fn v_flip(&self) -> (r: Self)
        requires
            self@.wf(),
        ensures
            r@.wf(),
            r@ == (GridView { cells: r@.cells, ..self@ }),
            r@.cells.len() == self@.cells.len(),
            forall|row: int, col: int|
                0 <= row < self@.y_size && 0 <= col < self@.x_size
                    ==> #[trigger] row_major_at(r@.cells, self@.x_size as int, row, col)
                    == row_major_at(self@.cells, self@.x_size as int, self@.y_size - 1 - row, col),
    {
        let xs = self.x_size;
        let ys = self.y_size;
        let ghost srcs = self@.cells;
        let mut data: Vec<T> = Vec::new();
        let mut row: usize = 0;
        while row < ys
            invariant
                self@.wf(),
                xs == self@.x_size,
                ys == self@.y_size,
                srcs == self@.cells,
                row <= ys,
                data@.len() == row * xs,
                forall|j: int|
                    0 <= j < data@.len() ==> #[trigger] data@[j] == srcs[(ys - 1 - (j / (
                    xs as int))) * xs + (j % (xs as int))],
            decreases ys - row,
        {
            proof {
                assert((ys - 1 - row) * xs <= ys * xs && row * xs <= ys * xs) by (nonlinear_arith)
                    requires
                        0 <= row < ys,
                        0 <= xs,
                ;
            }
            let rowidx = (ys - 1 - row) * xs;
            let mut col: usize = 0;
            while col < xs
                invariant
                    self@.wf(),
                    xs == self@.x_size,
                    ys == self@.y_size,
                    srcs == self@.cells,
                    row < ys,
                    col <= xs,
                    rowidx == (ys - 1 - row) * xs,
                    data@.len() == row * xs + col,
                    forall|j: int|
                        0 <= j < data@.len() ==> #[trigger] data@[j] == srcs[(ys - 1 - (j / (
                        xs as int))) * xs + (j % (xs as int))],
                decreases xs - col,
            {
                proof {
                    lemma_rowmajor_bound(ys - 1 - row, col as int, xs as int, ys as int);
                    lemma_rowmajor_bound(row as int, col as int, xs as int, ys as int);
                    vstd::arithmetic::div_mod::lemma_fundamental_div_mod_converse(
                        row * xs + col,
                        xs as int,
                        row as int,
                        col as int,
                    );
                }
                data.push(self.data[rowidx + col]);
                col = col + 1;
            }
            proof {
                assert((row + 1) * xs == row * xs + xs) by (nonlinear_arith);
            }
            row = row + 1;
        }
        let r = Grid {
            min_x: self.min_x,
            min_y: self.min_y,
            x_size: self.x_size,
            y_size: self.y_size,
            data,
            padding: self.padding,
        };
        proof {
            assert(r@.cells.len() == self@.cells.len()) by (nonlinear_arith)
                requires
                    r@.cells.len() == ys * xs,
                    self@.cells.len() == self@.x_size * self@.y_size,
                    xs == self@.x_size,
                    ys == self@.y_size,
            ;
            assert forall|row: int, col: int| 0 <= row < ys && 0 <= col < xs implies #[trigger] row_major_at(
                r@.cells,
                xs as int,
                row,
                col,
            ) == row_major_at(srcs, xs as int, ys - 1 - row, col) by {
                lemma_rowmajor_bound(row, col, xs as int, ys as int);
                vstd::arithmetic::div_mod::lemma_fundamental_div_mod_converse(
                    row * xs + col,
                    xs as int,
                    row,
                    col,
                );
            }
        }
        r
    }

    /// Reverses the order of the rows in place.
    pub fn v_flip_inplace(&mut self)
        requires
            old(self)@.wf(),
        ensures
            final(self)@.wf(),
            final(self)@ == (GridView { cells: final(self)@.cells, ..old(self)@ }),
            final(self)@.cells.len() == old(self)@.cells.len(),
            forall|row: int, col: int|
                0 <= row < old(self)@.y_size && 0 <= col < old(self)@.x_size
                    ==> #[trigger] row_major_at(
                    final(self)@.cells,
                    old(self)@.x_size as int,
                    row,
                    col,
                ) == row_major_at(
                    old(self)@.cells,
                    old(self)@.x_size as int,
                    old(self)@.y_size - 1 - row,
                    col,
                ),
    {
        *self = self.v_flip();
    }

    /// The grid rotated by a half turn: the cell sequence reversed.
    pub fn rot180(&self) -> (r: Self)
        requires
            self@.wf(),
        ensures
            r@.wf(),
            r@ == (GridView { cells: r@.cells, ..self@ }),
            r@.cells.len() == self@.cells.len(),
            forall|i: int|
                0 <= i < r@.cells.len() ==> r@.cells[i] == self@.cells[r@.cells.len() - 1 - i],
            forall|row: int, col: int|
                0 <= row < self@.y_size && 0 <= col < self@.x_size
                    ==> #[trigger] row_major_at(r@.cells, self@.x_size as int, row, col)
                    == row_major_at(
                    self@.cells,
                    self@.x_size as int,
                    self@.y_size - 1 - row,
                    self@.x_size - 1 - col,
                ),
    {
        let len = self.data.len();
        let mut data: Vec<T> = Vec::new();
        let mut i: usize = 0;
        while i < len
            invariant
                self@.wf(),
                len == self@.cells.len(),
                i <= len,
                data@.len() == i,
                forall|j: int| 0 <= j < i ==> data@[j] == self@.cells[len - 1 - j],
            decreases len - i,
        {
            data.push(self.data[len - 1 - i]);
            i = i + 1;
        }
        let r = Grid {
            min_x: self.min_x,
            min_y: self.min_y,
            x_size: self.x_size,
            y_size: self.y_size,
            data,
            padding: self.padding,
        };
        proof {
            let xs = self@.x_size as int;
            let ys = self@.y_size as int;
            assert forall|row: int, col: int| 0 <= row < ys && 0 <= col < xs implies #[trigger] row_major_at(
                r@.cells,
                xs,
                row,
                col,
            ) == row_major_at(self@.cells, xs, ys - 1 - row, xs - 1 - col) by {
                lemma_rowmajor_bound(row, col, xs, ys);
                assert((ys - 1 - row) * xs + (xs - 1 - col) == ys * xs - 1 - (row * xs + col))
                    by (nonlinear_arith)
                    requires
                        0 <= row < ys,
                        0 <= col < xs,
                ;
            }
        }
        r
    }

    /// Rotates the grid by a half turn in place.
    pub fn rot180_inplace(&mut self)
        requires
            old(self)@.wf(),
        ensures
            final(self)@.wf(),
            final(self)@ == (GridView { cells: final(self)@.cells, ..old(self)@ }),
            final(self)@.cells.len() == old(self)@.cells.len(),
            forall|i: int|
                0 <= i < final(self)@.cells.len() ==> final(self)@.cells[i]
                    == old(self)@.cells[final(self)@.cells.len() - 1 - i],
    {
        *self = self.rot180();
    }

    /// The grid rotated a quarter turn clockwise. The x and y extents (and the
    /// two minimum bounds) exchange places.
    pub fn rot90(&self) -> (r: Self)
        requires
            self@.wf(),
        ensures
            r@.wf(),
            r@.min_x == self@.min_y,
            r@.min_y == self@.min_x,
            r@.x_size == self@.y_size,
            r@.y_size == self@.x_size,
            r@.padding == self@.padding,
            r@.cells.len() == self@.cells.len(),
            forall|row: int, col: int|
                0 <= row < self@.x_size && 0 <= col < self@.y_size
                    ==> #[trigger] row_major_at(r@.cells, self@.y_size as int, row, col)
                    == row_major_at(self@.cells, self@.x_size as int, self@.y_size - 1 - col, row),
    {
        let xs = self.x_size;
        let ys = self.y_size;
        let ghost srcs = self@.cells;
        let mut data: Vec<T> = Vec::new();
        let mut nrow: usize = 0;
        while nrow < xs
            invariant
                self@.wf(),
                xs == self@.x_size,
                ys == self@.y_size,
                srcs == self@.cells,
                nrow <= xs,
                data@.len() == nrow * ys,
                forall|j: int|
                    0 <= j < data@.len() ==> #[trigger] data@[j] == srcs[(ys - 1 - (j % (
                    ys as int))) * xs + (j / (ys as int))],
            decreases xs - nrow,
        {
            let mut ncol: usize = 0;
            while ncol < ys
                invariant
                    self@.wf(),
                    xs == self@.x_size,
                    ys == self@.y_size,
                    srcs == self@.cells,
                    nrow < xs,
                    ncol <= ys,
                    data@.len() == nrow * ys + ncol,
                    forall|j: int|
                        0 <= j < data@.len() ==> #[trigger] data@[j] == srcs[(ys - 1 - (j % (
                        ys as int))) * xs + (j / (ys as int))],
                decreases ys - ncol,
            {
                proof {
                    lemma_rowmajor_bound(ys - 1 - ncol, nrow as int, xs as int, ys as int);
                    lemma_rowmajor_bound(nrow as int, ncol as int, ys as int, xs as int);
                    vstd::arithmetic::div_mod::lemma_fundamental_div_mod_converse(
                        nrow * ys + ncol,
                        ys as int,
                        nrow as int,
                        ncol as int,
                    );
                }
                data.push(self.data[(ys - 1 - ncol) * xs + nrow]);
                ncol = ncol + 1;
            }
            proof {
                assert((nrow + 1) * ys == nrow * ys + ys) by (nonlinear_arith);
            }
            nrow = nrow + 1;
        }
        let r = Grid {
            min_x: self.min_y,
            min_y: self.min_x,
            x_size: self.y_size,
            y_size: self.x_size,
            data,
            padding: self.padding,
        };
        proof {
            assert(r@.cells.len() == ys * xs && r@.cells.len() == self@.cells.len())
                by (nonlinear_arith)
                requires
                    r@.cells.len() == xs * ys,
                    self@.cells.len() == self@.x_size * self@.y_size,
                    xs == self@.x_size,
                    ys == self@.y_size,
            ;
            assert forall|row: int, col: int| 0 <= row < xs && 0 <= col < ys implies #[trigger] row_major_at(
                r@.cells,
                ys as int,
                row,
                col,
            ) == row_major_at(srcs, xs as int, ys - 1 - col, row) by {
                lemma_rowmajor_bound(row, col, ys as int, xs as int);
                vstd::arithmetic::div_mod::lemma_fundamental_div_mod_converse(
                    row * ys + col,
                    ys as int,
                    row,
                    col,
                );
            }
        }
        r
    }
}


impl<T: Copy> Grid<T> {
    /// The `wid` by `hei` sub-grid whose top-left cell is `(x, y)`, re-based
    /// at the origin.
    pub fn extract(&self, x: i64, y: i64, wid: i64, hei: i64) -> (r: Self)
        requires
            self@.wf(),
            0 < wid,
            0 < hei,
            self@.min_x <= x,
            x + wid <= self@.min_x + self@.x_size,
            self@.min_y <= y,
            y + hei <= self@.min_y + self@.y_size,
        ensures
            r@.wf(),
            r@.min_x == 0,
            r@.min_y == 0,
            r@.x_size == wid,
            r@.y_size == hei,
            r@.padding == 0,
            forall|row: int, col: int|
                0 <= row < hei && 0 <= col < wid
                    ==> #[trigger] row_major_at(r@.cells, wid as int, row, col) == self@.cell(
                    x + col,
                    y + row,
                ),
    {
        let mut data: Vec<T> = Vec::new();
        let mut row: i64 = 0;
        while row < hei
            invariant
                self@.wf(),
                0 < wid,
                0 < hei,
                self@.min_x <= x,
                x + wid <= self@.min_x + self@.x_size,
                self@.min_y <= y,
                y + hei <= self@.min_y + self@.y_size,
                0 <= row <= hei,
                data@.len() == row * wid,
                forall|j: int|
                    0 <= j < data@.len() ==> #[trigger] data@[j] == self@.cell(
                        x + j % (wid as int),
                        y + j / (wid as int),
                    ),
            decreases hei - row,
        {
            let mut col: i64 = 0;
            while col < wid
                invariant
                    self@.wf(),
                    0 < wid,
                    0 < hei,
                    self@.min_x <= x,
                    x + wid <= self@.min_x + self@.x_size,
                    self@.min_y <= y,
                    y + hei <= self@.min_y + self@.y_size,
                    0 <= row < hei,
                    0 <= col <= wid,
                    data@.len() == row * wid + col,
                    forall|j: int|
                        0 <= j < data@.len() ==> #[trigger] data@[j] == self@.cell(
                            x + j % (wid as int),
                            y + j / (wid as int),
                        ),
                decreases wid - col,
            {
                proof {
                    lemma_rowmajor_bound(row as int, col as int, wid as int, hei as int);
                    vstd::arithmetic::div_mod::lemma_fundamental_div_mod_converse(
                        row * wid + col,
                        wid as int,
                        row as int,
                        col as int,
                    );
                }
                data.push(self.get(x + col, y + row));
                col = col + 1;
            }
            proof {
                assert((row + 1) * wid == row * wid + wid) by (nonlinear_arith);
            }
            row = row + 1;
        }
        let r = Grid {
            min_x: 0,
            min_y: 0,
            x_size: wid as usize,
            y_size: hei as usize,
            data,
            padding: 0,
        };
        proof {
            assert(r@.cells.len() == r@.x_size * r@.y_size && r@.cells.len() <= self@.x_size
                * self@.y_size) by (nonlinear_arith)
                requires
                    r@.cells.len() == hei * wid,
                    r@.x_size == wid,
                    r@.y_size == hei,
                    0 < wid <= self@.x_size,
                    0 < hei <= self@.y_size,
            ;
            assert forall|row: int, col: int| 0 <= row < hei && 0 <= col < wid implies #[trigger] row_major_at(
                r@.cells,
                wid as int,
                row,
                col,
            ) == self@.cell(x + col, y + row) by {
                lemma_rowmajor_bound(row, col, wid as int, hei as int);
                vstd::arithmetic::div_mod::lemma_fundamental_div_mod_converse(
                    row * wid + col,
                    wid as int,
                    row,
                    col,
                );
            }
        }
        r
    }

    /// Cuts the grid into `x_size` by `y_size` tiles, returned row by row of
    /// tiles; a partial strip at the right or bottom edge is dropped.
    pub fn tile_split(&self, x_size: usize, y_size: usize) -> (r: Vec<Grid<T>>)
        requires
            self@.wf(),
            0 < x_size,
            0 < y_size,
        ensures
            r@.len() == (self@.y_size as int / y_size as int) * (self@.x_size as int
                / x_size as int),
            forall|ti: int|
                0 <= ti < r@.len() ==> {
                    &&& (#[trigger] r@[ti])@.wf()
                    &&& r@[ti]@.min_x == 0
                    &&& r@[ti]@.min_y == 0
                    &&& r@[ti]@.x_size == x_size
                    &&& r@[ti]@.y_size == y_size
                    &&& r@[ti]@.padding == 0
                },
            forall|ti: int, row: int, col: int|
                0 <= ti < r@.len() && 0 <= row < y_size && 0 <= col < x_size
                    ==> #[trigger] row_major_at(r@[ti]@.cells, x_size as int, row, col)
                    == self@.cell(
                    self@.min_x + (ti % (self@.x_size as int / x_size as int)) * x_size + col,
                    self@.min_y + (ti / (self@.x_size as int / x_size as int)) * y_size + row,
                ),
    {
        let x_tiles = self.x_size / x_size;
        let y_tiles = self.y_size / y_size;
        proof {
            vstd::arithmetic::div_mod::lemma_fundamental_div_mod(
                self@.x_size as int,
                x_size as int,
            );
            vstd::arithmetic::div_mod::lemma_mod_bound(self@.x_size as int, x_size as int);
            vstd::arithmetic::div_mod::lemma_fundamental_div_mod(
                self@.y_size as int,
                y_size as int,
            );
            vstd::arithmetic::div_mod::lemma_mod_bound(self@.y_size as int, y_size as int);
            assert(x_tiles * x_size <= self@.x_size && y_tiles * y_size <= self@.y_size)
                by (nonlinear_arith)
                requires
                    self@.x_size == x_size * x_tiles + self@.x_size as int % x_size as int,
                    self@.y_size == y_size * y_tiles + self@.y_size as int % y_size as int,
                    self@.x_size as int % x_size as int >= 0,
                    self@.y_size as int % y_size as int >= 0,
            ;
        }
        let mut r: Vec<Grid<T>> = Vec::new();
        let mut ty: usize = 0;
        while ty < y_tiles
            invariant
                self@.wf(),
                0 < x_size,
                0 < y_size,
                x_tiles == self@.x_size as int / x_size as int,
                y_tiles == self@.y_size as int / y_size as int,
                x_tiles * x_size <= self@.x_size,
                y_tiles * y_size <= self@.y_size,
                0 <= ty <= y_tiles,
                r@.len() == ty * x_tiles,
                forall|ti: int|
                    0 <= ti < r@.len() ==> {
                        &&& (#[trigger] r@[ti])@.wf()
                        &&& r@[ti]@.min_x == 0
                        &&& r@[ti]@.min_y == 0
                        &&& r@[ti]@.x_size == x_size
                        &&& r@[ti]@.y_size == y_size
                        &&& r@[ti]@.padding == 0
                    },
                forall|ti: int, row: int, col: int|
                    0 <= ti < r@.len() && 0 <= row < y_size && 0 <= col < x_size
                        ==> #[trigger] row_major_at(r@[ti]@.cells, x_size as int, row, col)
                        == self@.cell(
                        self@.min_x + (ti % (x_tiles as int)) * x_size + col,
                        self@.min_y + (ti / (x_tiles as int)) * y_size + row,
                    ),
            decreases y_tiles - ty,
        {
            let mut tx: usize = 0;
            while tx < x_tiles
                invariant
                    self@.wf(),
                    0 < x_size,
                    0 < y_size,
                    x_tiles == self@.x_size as int / x_size as int,
                    y_tiles == self@.y_size as int / y_size as int,
                    x_tiles * x_size <= self@.x_size,
                    y_tiles * y_size <= self@.y_size,
                    0 <= ty < y_tiles,
                    0 <= tx <= x_tiles,
                    r@.len() == ty * x_tiles + tx,
                    forall|ti: int|
                        0 <= ti < r@.len() ==> {
                            &&& (#[trigger] r@[ti])@.wf()
                            &&& r@[ti]@.min_x == 0
                            &&& r@[ti]@.min_y == 0
                            &&& r@[ti]@.x_size == x_size
                            &&& r@[ti]@.y_size == y_size
                            &&& r@[ti]@.padding == 0
                        },
                    forall|ti: int, row: int, col: int|
                        0 <= ti < r@.len() && 0 <= row < y_size && 0 <= col < x_size
                            ==> #[trigger] row_major_at(r@[ti]@.cells, x_size as int, row, col)
                            == self@.cell(
                            self@.min_x + (ti % (x_tiles as int)) * x_size + col,
                            self@.min_y + (ti / (x_tiles as int)) * y_size + row,
                        ),
                decreases x_tiles - tx,
            {
                proof {
                    lemma_rowmajor_bound(ty as int, tx as int, x_tiles as int, y_tiles as int);
                    vstd::arithmetic::div_mod::lemma_fundamental_div_mod_converse(
                        ty * x_tiles + tx,
                        x_tiles as int,
                        ty as int,
                        tx as int,
                    );
                    assert((tx + 1) * x_size <= x_tiles * x_size && (ty + 1) * y_size <= y_tiles
                        * y_size && tx * x_size <= x_tiles * x_size && ty * y_size <= y_tiles
                        * y_size && (tx + 1) * x_size == tx * x_size + x_size && (ty + 1) * y_size
                        == ty * y_size + y_size) by (nonlinear_arith)
                        requires
                            0 <= tx < x_tiles,
                            0 <= ty < y_tiles,
                            0 < x_size,
                            0 < y_size,
                    ;
                }
                let tile = self.extract(
                    self.min_x + (tx * x_size) as i64,
                    self.min_y + (ty * y_size) as i64,
                    x_size as i64,
                    y_size as i64,
                );
                r.push(tile);
                tx = tx + 1;
            }
            proof {
                assert((ty + 1) * x_tiles == ty * x_tiles + x_tiles) by (nonlinear_arith);
            }
            ty = ty + 1;
        }
        proof {
            assert(r@.len() == y_tiles * x_tiles);
        }
        r
    }

    /// Reassembles a grid from equally sized tiles laid out `n_tiles_width`
    /// across and `n_tiles_height` down, re-based at the origin.
    pub fn from_tiles(tiles: &Vec<Grid<T>>, n_tiles_width: usize, n_tiles_height: usize) -> (r:
        Self)
        requires
            0 < n_tiles_width,
            0 < n_tiles_height,
            tiles@.len() == n_tiles_width * n_tiles_height,
            forall|i: int| 0 <= i < tiles@.len() ==> (#[trigger] tiles@[i])@.wf(),
            forall|i: int|
                0 <= i < tiles@.len() ==> (#[trigger] tiles@[i])@.x_size == tiles@[0]@.x_size
                    && tiles@[i]@.y_size == tiles@[0]@.y_size,
            0 < tiles@[0]@.x_size,
            0 < tiles@[0]@.y_size,
            tiles@[0]@.x_size * n_tiles_width <= i64::MAX,
            tiles@[0]@.y_size * n_tiles_height <= i64::MAX,
            tiles@[0]@.x_size * n_tiles_width <= usize::MAX,
            tiles@[0]@.y_size * n_tiles_height <= usize::MAX,
            (tiles@[0]@.x_size * n_tiles_width) * (tiles@[0]@.y_size * n_tiles_height)
                <= usize::MAX,
        ensures
            r@.wf(),
            r@.min_x == 0,
            r@.min_y == 0,
            r@.x_size == tiles@[0]@.x_size * n_tiles_width,
            r@.y_size == tiles@[0]@.y_size * n_tiles_height,
            r@.padding == 0,
            forall|gr: int, gc: int|
                0 <= gr < r@.y_size && 0 <= gc < r@.x_size ==> #[trigger] row_major_at(
                    r@.cells,
                    r@.x_size as int,
                    gr,
                    gc,
                ) == row_major_at(
                    tiles@[(gr / (tiles@[0]@.y_size as int)) * n_tiles_width + (gc / (
                    tiles@[0]@.x_size as int))]@.cells,
                    tiles@[0]@.x_size as int,
                    gr % (tiles@[0]@.y_size as int),
                    gc % (tiles@[0]@.x_size as int),
                ),
    {
        let n_tiles = tiles.len();
        proof {
            assert(tiles@.len() == n_tiles && n_tiles <= usize::MAX);
            assert(0 < tiles@.len()) by (nonlinear_arith)
                requires
                    tiles@.len() == n_tiles_width * n_tiles_height,
                    0 < n_tiles_width,
                    0 < n_tiles_height,
            ;
        }
        let tw = tiles[0].x_size;
        let th = tiles[0].y_size;
        let width = tw * n_tiles_width;
        let height = th * n_tiles_height;
        let mut data: Vec<T> = Vec::new();
        let mut gr: usize = 0;
        while gr < height
            invariant
                0 < n_tiles_width,
                0 < n_tiles_height,
                0 < tw,
                0 < th,
                tiles@.len() == n_tiles_width * n_tiles_height,
                tiles@.len() <= usize::MAX,
                forall|i: int| 0 <= i < tiles@.len() ==> (#[trigger] tiles@[i])@.wf(),
                forall|i: int|
                    0 <= i < tiles@.len() ==> (#[trigger] tiles@[i])@.x_size == tw
                        && tiles@[i]@.y_size == th,
                width == tw * n_tiles_width,
                height == th * n_tiles_height,
                0 <= gr <= height,
                data@.len() == gr * width,
                forall|j: int|
                    0 <= j < data@.len() ==> #[trigger] data@[j] == row_major_at(
                        tiles@[((j / (width as int)) / (th as int)) * n_tiles_width + ((j % (
                        width as int)) / (tw as int))]@.cells,
                        tw as int,
                        (j / (width as int)) % (th as int),
                        (j % (width as int)) % (tw as int),
                    ),
            decreases height - gr,
        {
            let mut gc: usize = 0;
            while gc < width
                invariant
                    0 < n_tiles_width,
                    0 < n_tiles_height,
                    0 < tw,
                    0 < th,
                    tiles@.len() == n_tiles_width * n_tiles_height,
                    tiles@.len() <= usize::MAX,
                    forall|i: int| 0 <= i < tiles@.len() ==> (#[trigger] tiles@[i])@.wf(),
                    forall|i: int|
                        0 <= i < tiles@.len() ==> (#[trigger] tiles@[i])@.x_size == tw
                            && tiles@[i]@.y_size == th,
                    width == tw * n_tiles_width,
                    height == th * n_tiles_height,
                    0 <= gr < height,
                    0 <= gc <= width,
                    data@.len() == gr * width + gc,
                    forall|j: int|
                        0 <= j < data@.len() ==> #[trigger] data@[j] == row_major_at(
                            tiles@[((j / (width as int)) / (th as int)) * n_tiles_width + ((j % (
                            width as int)) / (tw as int))]@.cells,
                            tw as int,
                            (j / (width as int)) % (th as int),
                            (j % (width as int)) % (tw as int),
                        ),
                decreases width - gc,
            {
                proof {
                    lemma_rowmajor_bound(gr as int, gc as int, width as int, height as int);
                    vstd::arithmetic::div_mod::lemma_fundamental_div_mod_converse(
                        gr * width + gc,
                        width as int,
                        gr as int,
                        gc as int,
                    );
                }
                let tr = gr / th;
                let tc = gc / tw;
                let ir = gr % th;
                let ic = gc % tw;
                proof {
                    vstd::arithmetic::div_mod::lemma_fundamental_div_mod(gr as int, th as int);
                    vstd::arithmetic::div_mod::lemma_mod_bound(gr as int, th as int);
                    vstd::arithmetic::div_mod::lemma_fundamental_div_mod(gc as int, tw as int);
                    vstd::arithmetic::div_mod::lemma_mod_bound(gc as int, tw as int);
                    assert(tr < n_tiles_height && tc < n_tiles_width) by (nonlinear_arith)
                        requires
                            0 < tw,
                            0 < th,
                            gr == th * tr + ir,
                            gc == tw * tc + ic,
                            0 <= ir,
                            0 <= ic,
                            gr < th * n_tiles_height,
                            gc < tw * n_tiles_width,
                    ;
                    lemma_rowmajor_bound(
                        tr as int,
                        tc as int,
                        n_tiles_width as int,
                        n_tiles_height as int,
                    );
                }
                let ti = tr * n_tiles_width + tc;
                proof {
                    lemma_rowmajor_bound(ir as int, ic as int, tw as int, th as int);
                    assert(tiles@[ti as int]@.cells.len() == tw * th) by (nonlinear_arith)
                        requires
                            tiles@[ti as int]@.cells.len() == tiles@[ti as int]@.x_size
                                * tiles@[ti as int]@.y_size,
                            tiles@[ti as int]@.x_size == tw,
                            tiles@[ti as int]@.y_size == th,
                    ;
                }
                let v = tiles[ti].data[ir * tw + ic];
                data.push(v);
                gc = gc + 1;
            }
            proof {
                assert((gr + 1) * width == gr * width + width) by (nonlinear_arith);
            }
            gr = gr + 1;
        }
        let r = Grid {
            min_x: 0,
            min_y: 0,
            x_size: width,
            y_size: height,
            data,
            padding: 0,
        };
        proof {
            assert(r@.cells.len() == r@.x_size * r@.y_size) by (nonlinear_arith)
                requires
                    r@.cells.len() == height * width,
                    r@.x_size == width,
                    r@.y_size == height,
            ;
            assert forall|gr2: int, gc2: int| 0 <= gr2 < r@.y_size && 0 <= gc2 < r@.x_size implies #[trigger] row_major_at(
                r@.cells,
                r@.x_size as int,
                gr2,
                gc2,
            ) == row_major_at(
                tiles@[(gr2 / (th as int)) * n_tiles_width + (gc2 / (tw as int))]@.cells,
                tw as int,
                gr2 % (th as int),
                gc2 % (tw as int),
            ) by {
                lemma_rowmajor_bound(gr2, gc2, width as int, height as int);
                vstd::arithmetic::div_mod::lemma_fundamental_div_mod_converse(
                    gr2 * width + gc2,
                    width as int,
                    gr2,
                    gc2,
                );
                vstd::arithmetic::div_mod::lemma_fundamental_div_mod(gr2, th as int);
                vstd::arithmetic::div_mod::lemma_mod_bound(gr2, th as int);
                vstd::arithmetic::div_mod::lemma_fundamental_div_mod(gc2, tw as int);
                vstd::arithmetic::div_mod::lemma_mod_bound(gc2, tw as int);
                assert((gr2 / (th as int)) < n_tiles_height && (gc2 / (tw as int))
                    < n_tiles_width) by (nonlinear_arith)
                    requires
                        0 < tw,
                        0 < th,
                        gr2 == th * (gr2 / (th as int)) + (gr2 % (th as int)),
                        gc2 == tw * (gc2 / (tw as int)) + (gc2 % (tw as int)),
                        0 <= (gr2 % (th as int)),
                        0 <= (gc2 % (tw as int)),
                        gr2 < th * n_tiles_height,
                        gc2 < tw * n_tiles_width,
                ;
                lemma_rowmajor_bound(
                    gr2 / (th as int),
                    gc2 / (tw as int),
                    n_tiles_width as int,
                    n_tiles_height as int,
                );
            }
        }
        r
    }
}

/// The column (or row) that position `c` takes its value from when a line of
/// length `xs` is rolled by `n`: to the right for positive `n`, to the left
/// for negative `n`.
pub open spec fn roll_src(c: int, n: int, xs: int) -> int {
    let k = (vstd::math::abs(n) as int) % xs;
    if n < 0 {
        (c + k) % xs
    } else {
        (c + xs - k) % xs
    }
}

impl<T: Copy> Grid<T> {
    /// Rolls the row at `y` by `n` cells: to the right for positive `n`, to
    /// the left for negative `n`, wrapping around at the edges.
    pub fn roll_row(&mut self, y: i64, n: i64)
        requires
            old(self)@.wf(),
            0 < old(self)@.x_size,
            old(self)@.min_y <= y < old(self)@.min_y + old(self)@.y_size,
            i64::MIN < n,
        ensures
            final(self)@.wf(),
            final(self)@ == (GridView { cells: final(self)@.cells, ..old(self)@ }),
            final(self)@.cells.len() == old(self)@.cells.len(),
            forall|r: int, c: int|
                0 <= r < old(self)@.y_size && 0 <= c < old(self)@.x_size && r != y - old(
                    self,
                )@.min_y ==> #[trigger] row_major_at(
                    final(self)@.cells,
                    old(self)@.x_size as int,
                    r,
                    c,
                ) == row_major_at(old(self)@.cells, old(self)@.x_size as int, r, c),
            forall|c: int|
                0 <= c < old(self)@.x_size ==> #[trigger] row_major_at(
                    final(self)@.cells,
                    old(self)@.x_size as int,
                    y - old(self)@.min_y,
                    c,
                ) == row_major_at(
                    old(self)@.cells,
                    old(self)@.x_size as int,
                    y - old(self)@.min_y,
                    roll_src(c, n as int, old(self)@.x_size as int),
                ),
    {
        let ghost oldg = old(self)@;
        let xs = self.x_size;
        let ys = self.y_size;
        let uy = (y - self.min_y) as usize;
        let nabs = if n < 0 {
            -n
        } else {
            n
        };
        let k = (nabs % xs as i64) as usize;
        proof {
            vstd::arithmetic::div_mod::lemma_mod_bound(nabs as int, xs as int);
            lemma_rowmajor_bound(uy as int, 0, xs as int, ys as int);
            assert(uy * xs + xs <= ys * xs) by (nonlinear_arith)
                requires
                    0 <= uy < ys,
                    0 < xs,
            ;
        }
        let rowidx = uy * xs;
        if k == 0 {
            proof {
                assert forall|c: int| 0 <= c < oldg.x_size implies roll_src(
                    c,
                    n as int,
                    oldg.x_size as int,
                ) == c by {
                    if n < 0 {
                        vstd::arithmetic::div_mod::lemma_fundamental_div_mod_converse(
                            c,
                            oldg.x_size as int,
                            0,
                            c,
                        );
                    } else {
                        vstd::arithmetic::div_mod::lemma_fundamental_div_mod_converse(
                            c + oldg.x_size,
                            oldg.x_size as int,
                            1,
                            c,
                        );
                    }
                }
            }
            return ;
        }
        let mut temp: Vec<T> = Vec::new();
        let mut c: usize = 0;
        while c < xs
            invariant
                self@ == oldg,
                oldg.wf(),
                xs == oldg.x_size,
                ys == oldg.y_size,
                0 < xs,
                uy == y - oldg.min_y,
                uy < ys,
                rowidx == uy * xs,
                rowidx + xs <= oldg.cells.len(),
                c <= xs,
                temp@.len() == c,
                forall|i: int| 0 <= i < c ==> temp@[i] == oldg.cells[rowidx + i],
            decreases xs - c,
        {
            temp.push(self.data[rowidx + c]);
            c = c + 1;
        }
        let mut c: usize = 0;
        while c < xs
            invariant
                oldg.wf(),
                xs == oldg.x_size,
                ys == oldg.y_size,
                0 < k < xs,
                k == (vstd::math::abs(n as int) as int) % (xs as int),
                i64::MIN < n,
                uy == y - oldg.min_y,
                uy < ys,
                rowidx == uy * xs,
                rowidx + xs <= oldg.cells.len(),
                c <= xs,
                temp@.len() == xs,
                forall|i: int| 0 <= i < xs ==> temp@[i] == oldg.cells[rowidx + i],
                self@ == (GridView { cells: self@.cells, ..oldg }),
                self@.cells.len() == oldg.cells.len(),
                forall|j: int|
                    0 <= j < oldg.cells.len() && !(rowidx <= j < rowidx + xs)
                        ==> self@.cells[j] == oldg.cells[j],
                forall|j: int| rowidx + c <= j < rowidx + xs ==> self@.cells[j] == oldg.cells[j],
                forall|cc: int|
                    0 <= cc < c ==> self@.cells[rowidx + cc] == oldg.cells[rowidx + roll_src(
                        cc,
                        n as int,
                        xs as int,
                    )],
            decreases xs - c,
        {
            let src = if n < 0 {
                if c >= xs - k {
                    c - (xs - k)
                } else {
                    c + k
                }
            } else {
                if c >= k {
                    c - k
                } else {
                    c + (xs - k)
                }
            };
            proof {
                if n < 0 {
                    if c >= xs - k {
                        vstd::arithmetic::div_mod::lemma_fundamental_div_mod_converse(
                            c + k,
                            xs as int,
                            1,
                            c + k - xs,
                        );
                    } else {
                        vstd::arithmetic::div_mod::lemma_fundamental_div_mod_converse(
                            c + k,
                            xs as int,
                            0,
                            c + k,
                        );
                    }
                } else {
                    if c >= k {
                        vstd::arithmetic::div_mod::lemma_fundamental_div_mod_converse(
                            c + xs - k,
                            xs as int,
                            1,
                            c - k,
                        );
                    } else {
                        vstd::arithmetic::div_mod::lemma_fundamental_div_mod_converse(
                            c + xs - k,
                            xs as int,
                            0,
                            c + xs - k,
                        );
                    }
                }
                assert(src == roll_src(c as int, n as int, xs as int));
            }
            self.data.set(rowidx + c, temp[src]);
            c = c + 1;
        }
        proof {
            assert forall|r: int, cc: int|
                0 <= r < oldg.y_size && 0 <= cc < oldg.x_size && r != uy implies #[trigger] row_major_at(
                self@.cells,
                oldg.x_size as int,
                r,
                cc,
            ) == row_major_at(oldg.cells, oldg.x_size as int, r, cc) by {
                lemma_rowmajor_bound(r, cc, oldg.x_size as int, oldg.y_size as int);
                assert(r * oldg.x_size + cc < uy * oldg.x_size || r * oldg.x_size + cc >= uy
                    * oldg.x_size + oldg.x_size) by (nonlinear_arith)
                    requires
                        0 <= r < oldg.y_size,
                        0 <= cc < oldg.x_size,
                        r != uy,
                        0 <= uy,
                ;
            }
        }
    }

    /// Rolls the column at `x` by `n` cells: downward for positive `n`,
    /// upward for negative `n`, wrapping around at the edges.
    pub fn roll_col(&mut self, x: i64, n: i64)
        requires
            old(self)@.wf(),
            0 < old(self)@.y_size,
            old(self)@.min_x <= x < old(self)@.min_x + old(self)@.x_size,
            i64::MIN < n,
        ensures
            final(self)@.wf(),
            final(self)@ == (GridView { cells: final(self)@.cells, ..old(self)@ }),
            final(self)@.cells.len() == old(self)@.cells.len(),
            forall|r: int, c: int|
                0 <= r < old(self)@.y_size && 0 <= c < old(self)@.x_size && c != x - old(
                    self,
                )@.min_x ==> #[trigger] row_major_at(
                    final(self)@.cells,
                    old(self)@.x_size as int,
                    r,
                    c,
                ) == row_major_at(old(self)@.cells, old(self)@.x_size as int, r, c),
            forall|r: int|
                0 <= r < old(self)@.y_size ==> #[trigger] row_major_at(
                    final(self)@.cells,
                    old(self)@.x_size as int,
                    r,
                    x - old(self)@.min_x,
                ) == row_major_at(
                    old(self)@.cells,
                    old(self)@.x_size as int,
                    roll_src(r, n as int, old(self)@.y_size as int),
                    x - old(self)@.min_x,
                ),
    {
        let ghost oldg = old(self)@;
        let xs = self.x_size;
        let ys = self.y_size;
        let ux = (x - self.min_x) as usize;
        let nabs = if n < 0 {
            -n
        } else {
            n
        };
        let k = (nabs % ys as i64) as usize;
        proof {
            vstd::arithmetic::div_mod::lemma_mod_bound(nabs as int, ys as int);
        }
        if k == 0 {
            proof {
                assert forall|r: int| 0 <= r < oldg.y_size implies roll_src(
                    r,
                    n as int,
                    oldg.y_size as int,
                ) == r by {
                    if n < 0 {
                        vstd::arithmetic::div_mod::lemma_fundamental_div_mod_converse(
                            r,
                            oldg.y_size as int,
                            0,
                            r,
                        );
                    } else {
                        vstd::arithmetic::div_mod::lemma_fundamental_div_mod_converse(
                            r + oldg.y_size,
                            oldg.y_size as int,
                            1,
                            r,
                        );
                    }
                }
            }
            return ;
        }
        let mut temp: Vec<T> = Vec::new();
        let mut r: usize = 0;
        while r < ys
            invariant
                self@ == oldg,
                oldg.wf(),
                xs == oldg.x_size,
                ys == oldg.y_size,
                0 < ys,
                ux == x - oldg.min_x,
                ux < xs,
                r <= ys,
                temp@.len() == r,
                forall|i: int|
                    0 <= i < r ==> temp@[i] == row_major_at(oldg.cells, xs as int, i, ux as int),
            decreases ys - r,
        {
            proof {
                lemma_rowmajor_bound(r as int, ux as int, xs as int, ys as int);
            }
            temp.push(self.data[r * xs + ux]);
            r = r + 1;
        }
        let mut r: usize = 0;
        while r < ys
            invariant
                oldg.wf(),
                xs == oldg.x_size,
                ys == oldg.y_size,
                0 < k < ys,
                k == (vstd::math::abs(n as int) as int) % (ys as int),
                i64::MIN < n,
                ux == x - oldg.min_x,
                ux < xs,
                r <= ys,
                temp@.len() == ys,
                forall|i: int|
                    0 <= i < ys ==> temp@[i] == row_major_at(oldg.cells, xs as int, i, ux as int),
                self@ == (GridView { cells: self@.cells, ..oldg }),
                self@.cells.len() == oldg.cells.len(),
                forall|rr: int, cc: int|
                    0 <= rr < ys && 0 <= cc < xs && cc != ux ==> #[trigger] row_major_at(
                        self@.cells,
                        xs as int,
                        rr,
                        cc,
                    ) == row_major_at(oldg.cells, xs as int, rr, cc),
                forall|rr: int|
                    r <= rr < ys ==> #[trigger] row_major_at(self@.cells, xs as int, rr, ux as int)
                        == row_major_at(oldg.cells, xs as int, rr, ux as int),
                forall|rr: int|
                    0 <= rr < r ==> #[trigger] row_major_at(self@.cells, xs as int, rr, ux as int)
                        == row_major_at(
                        oldg.cells,
                        xs as int,
                        roll_src(rr, n as int, ys as int),
                        ux as int,
                    ),
            decreases ys - r,
        {
            let src = if n < 0 {
                if r >= ys - k {
                    r - (ys - k)
                } else {
                    r + k
                }
            } else {
                if r >= k {
                    r - k
                } else {
                    r + (ys - k)
                }
            };
            proof {
                if n < 0 {
                    if r >= ys - k {
                        vstd::arithmetic::div_mod::lemma_fundamental_div_mod_converse(
                            r + k,
                            ys as int,
                            1,
                            r + k - ys,
                        );
                    } else {
                        vstd::arithmetic::div_mod::lemma_fundamental_div_mod_converse(
                            r + k,
                            ys as int,
                            0,
                            r + k,
                        );
                    }
                } else {
                    if r >= k {
                        vstd::arithmetic::div_mod::lemma_fundamental_div_mod_converse(
                            r + ys - k,
                            ys as int,
                            1,
                            r - k,
                        );
                    } else {
                        vstd::arithmetic::div_mod::lemma_fundamental_div_mod_converse(
                            r + ys - k,
                            ys as int,
                            0,
                            r + ys - k,
                        );
                    }
                }
                assert(src == roll_src(r as int, n as int, ys as int));
                lemma_rowmajor_bound(r as int, ux as int, xs as int, ys as int);
            }
            let ghost prev = self@.cells;
            self.data.set(r * xs + ux, temp[src]);
            proof {
                assert forall|rr: int, cc: int|
                    0 <= rr < ys && 0 <= cc < xs && (cc != ux || rr != r) implies #[trigger] row_major_at(
                    self@.cells,
                    xs as int,
                    rr,
                    cc,
                ) == row_major_at(prev, xs as int, rr, cc) by {
                    lemma_rowmajor_bound(rr, cc, xs as int, ys as int);
                    lemma_rowmajor_bound(r as int, ux as int, xs as int, ys as int);
                    if rr * xs + cc == r * xs + ux {
                        assert(rr == r && cc == ux) by (nonlinear_arith)
                            requires
                                0 <= rr,
                                0 <= r,
                                0 <= cc < xs,
                                0 <= ux < xs,
                                rr * xs + cc == r * (xs as int) + ux,
                        ;
                    }
                }
            }
            r = r + 1;
        }
    }
}

/// The length of the longest line.
pub open spec fn max_line_len(lines: Seq<Seq<char>>) -> nat
    decreases lines.len(),
{
    if lines.len() == 0 {
        0
    } else {
        let rest = max_line_len(lines.drop_last());
        if lines.last().len() > rest {
            lines.last().len()
        } else {
            rest
        }
    }
}

impl<T: Copy> Grid<T> {
    /// The cells in row-major order (an alias for [`Grid::data`]).
    pub fn iter(&self) -> (r: &Vec<T>)
        ensures
            r@ == self@.cells,
    {
        &self.data
    }

    /// Every cell with its coordinates, in row-major order.
    pub fn iter_with_coord(&self) -> (r: Vec<(T, i64, i64)>)
        requires
            self@.wf(),
            0 < self@.x_size,
        ensures
            r@.len() == self@.cells.len(),
            forall|i: int|
                0 <= i < r@.len() ==> #[trigger] r@[i] == (
                    self@.cells[i],
                    (self@.min_x + i % (self@.x_size as int)) as i64,
                    (self@.min_y + i / (self@.x_size as int)) as i64,
                ),
    {
        let xs = self.x_size;
        let len = self.data.len();
        let mut r: Vec<(T, i64, i64)> = Vec::new();
        let mut i: usize = 0;
        while i < len
            invariant
                self@.wf(),
                0 < xs,
                xs == self@.x_size,
                len == self@.cells.len(),
                i <= len,
                r@.len() == i,
                forall|j: int|
                    0 <= j < i ==> #[trigger] r@[j] == (
                        self@.cells[j],
                        (self@.min_x + j % (xs as int)) as i64,
                        (self@.min_y + j / (xs as int)) as i64,
                    ),
            decreases len - i,
        {
            proof {
                vstd::arithmetic::div_mod::lemma_fundamental_div_mod(i as int, xs as int);
                vstd::arithmetic::div_mod::lemma_mod_bound(i as int, xs as int);
                assert((i as int) / (xs as int) < self@.y_size) by (nonlinear_arith)
                    requires
                        0 < xs,
                        i == xs * ((i as int) / (xs as int)) + ((i as int) % (xs as int)),
                        0 <= ((i as int) % (xs as int)) < xs,
                        i < xs * self@.y_size,
                ;
            }
            let x = self.min_x + (i % xs) as i64;
            let y = self.min_y + (i / xs) as i64;
            r.push((self.data[i], x, y));
            i = i + 1;
        }
        r
    }

    /// The rows of the grid, top to bottom.
    pub fn rows(&self) -> (r: Vec<Vec<T>>)
        requires
            self@.wf(),
        ensures
            r@.len() == self@.y_size,
            forall|row: int|
                0 <= row < self@.y_size ==> (#[trigger] r@[row])@.len() == self@.x_size,
            forall|row: int, col: int|
                0 <= row < self@.y_size && 0 <= col < self@.x_size ==> (r@[row])@[col]
                    == #[trigger] row_major_at(self@.cells, self@.x_size as int, row, col),
    {
        let xs = self.x_size;
        let ys = self.y_size;
        let mut r: Vec<Vec<T>> = Vec::new();
        let mut row: usize = 0;
        while row < ys
            invariant
                self@.wf(),
                xs == self@.x_size,
                ys == self@.y_size,
                row <= ys,
                r@.len() == row,
                forall|r0: int| 0 <= r0 < row ==> (#[trigger] r@[r0])@.len() == xs,
                forall|r0: int, c0: int|
                    0 <= r0 < row && 0 <= c0 < xs ==> (r@[r0])@[c0] == #[trigger] row_major_at(
                        self@.cells,
                        xs as int,
                        r0,
                        c0,
                    ),
            decreases ys - row,
        {
            let mut line: Vec<T> = Vec::new();
            let mut col: usize = 0;
            while col < xs
                invariant
                    self@.wf(),
                    xs == self@.x_size,
                    ys == self@.y_size,
                    row < ys,
                    col <= xs,
                    line@.len() == col,
                    forall|c0: int|
                        0 <= c0 < col ==> line@[c0] == row_major_at(
                            self@.cells,
                            xs as int,
                            row as int,
                            c0,
                        ),
                decreases xs - col,
            {
                proof {
                    lemma_rowmajor_bound(row as int, col as int, xs as int, ys as int);
                }
                line.push(self.data[row * xs + col]);
                col = col + 1;
            }
            r.push(line);
            row = row + 1;
        }
        r
    }

    /// The columns of the grid, left to right.
    pub fn cols(&self) -> (r: Vec<Vec<T>>)
        requires
            self@.wf(),
        ensures
            r@.len() == self@.x_size,
            forall|col: int|
                0 <= col < self@.x_size ==> (#[trigger] r@[col])@.len() == self@.y_size,
            forall|col: int, row: int|
                0 <= col < self@.x_size && 0 <= row < self@.y_size ==> (r@[col])@[row]
                    == #[trigger] row_major_at(self@.cells, self@.x_size as int, row, col),
    {
        let xs = self.x_size;
        let ys = self.y_size;
        let mut r: Vec<Vec<T>> = Vec::new();
        let mut col: usize = 0;
        while col < xs
            invariant
                self@.wf(),
                xs == self@.x_size,
                ys == self@.y_size,
                col <= xs,
                r@.len() == col,
                forall|c0: int| 0 <= c0 < col ==> (#[trigger] r@[c0])@.len() == ys,
                forall|c0: int, r0: int|
                    0 <= c0 < col && 0 <= r0 < ys ==> (r@[c0])@[r0] == #[trigger] row_major_at(
                        self@.cells,
                        xs as int,
                        r0,
                        c0,
                    ),
            decreases xs - col,
        {
            let mut line: Vec<T> = Vec::new();
            let mut row: usize = 0;
            while row < ys
                invariant
                    self@.wf(),
                    xs == self@.x_size,
                    ys == self@.y_size,
                    col < xs,
                    row <= ys,
                    line@.len() == row,
                    forall|r0: int|
                        0 <= r0 < row ==> line@[r0] == row_major_at(
                            self@.cells,
                            xs as int,
                            r0,
                            col as int,
                        ),
                decreases ys - row,
            {
                proof {
                    lemma_rowmajor_bound(row as int, col as int, xs as int, ys as int);
                }
                line.push(self.data[row * xs + col]);
                row = row + 1;
            }
            r.push(line);
            col = col + 1;
        }
        r
    }

    /// The first position, scanning row by row, whose cell the predicate
    /// accepts, or `None` when it rejects every cell: the predicate rejects
    /// every cell that precedes the returned position in row-major order.
    pub fn find<F: Fn(T, i64, i64) -> bool>(&self, predicate: F) -> (r: Option<(i64, i64)>)
        requires
            self@.wf(),
            forall|t: T, x: i64, y: i64| #[trigger] call_requires(predicate, (t, x, y)),
        ensures
            match r {
                Option::Some(pos) => self@.in_bounds(pos.0 as int, pos.1 as int) && call_ensures(
                    predicate,
                    (self@.cell(pos.0 as int, pos.1 as int), pos.0, pos.1),
                    true,
                ) && (forall|x: i64, y: i64|
                    self@.in_bounds(x as int, y as int) && (y < pos.1 || (y == pos.1 && x < pos.0))
                        ==> call_ensures(
                        predicate,
                        (#[trigger] self@.cell(x as int, y as int), x, y),
                        false,
                    )),
                Option::None => forall|x: i64, y: i64|
                    self@.in_bounds(x as int, y as int) ==> call_ensures(
                        predicate,
                        (#[trigger] self@.cell(x as int, y as int), x, y),
                        false,
                    ),
            },
    {
        let min_x = self.min_x;
        let min_y = self.min_y;
        let x_end = self.min_x + self.x_size as i64;
        let y_end = self.min_y + self.y_size as i64;
        let mut y = min_y;
        while y < y_end
            invariant
                self@.wf(),
                forall|t: T, x: i64, y2: i64| #[trigger] call_requires(predicate, (t, x, y2)),
                min_x == self@.min_x,
                min_y == self@.min_y,
                x_end == self@.min_x + self@.x_size,
                y_end == self@.min_y + self@.y_size,
                min_y <= y <= y_end,
                forall|x2: i64, y2: i64|
                    self@.in_bounds(x2 as int, y2 as int) && y2 < y ==> call_ensures(
                        predicate,
                        (#[trigger] self@.cell(x2 as int, y2 as int), x2, y2),
                        false,
                    ),
            decreases y_end - y,
        {
            let mut x = min_x;
            while x < x_end
                invariant
                    self@.wf(),
                    forall|t: T, x2: i64, y2: i64| #[trigger] call_requires(predicate, (t, x2, y2)),
                    min_x == self@.min_x,
                    min_y == self@.min_y,
                    x_end == self@.min_x + self@.x_size,
                    y_end == self@.min_y + self@.y_size,
                    min_y <= y < y_end,
                    min_x <= x <= x_end,
                    forall|x2: i64, y2: i64|
                        self@.in_bounds(x2 as int, y2 as int) && y2 < y ==> call_ensures(
                            predicate,
                            (#[trigger] self@.cell(x2 as int, y2 as int), x2, y2),
                            false,
                        ),
                    forall|x2: i64|
                        min_x <= x2 < x ==> call_ensures(
                            predicate,
                            (#[trigger] self@.cell(x2 as int, y as int), x2, y),
                            false,
                        ),
                decreases x_end - x,
            {
                let v = self.get(x, y);
                if predicate(v, x, y) {
                    return Some((x, y));
                }
                x = x + 1;
            }
            y = y + 1;
        }
        None
    }

    /// Calls `callback` on every cell with its coordinates, row by row.
    pub fn for_each<F: Fn(T, i64, i64)>(&self, callback: F)
        requires
            self@.wf(),
            forall|t: T, x: i64, y: i64| #[trigger] call_requires(callback, (t, x, y)),
    {
        let min_x = self.min_x;
        let x_end = self.min_x + self.x_size as i64;
        let y_end = self.min_y + self.y_size as i64;
        let mut y = self.min_y;
        while y < y_end
            invariant
                self@.wf(),
                forall|t: T, x2: i64, y2: i64| #[trigger] call_requires(callback, (t, x2, y2)),
                min_x == self@.min_x,
                x_end == self@.min_x + self@.x_size,
                y_end == self@.min_y + self@.y_size,
                self@.min_y <= y <= y_end,
            decreases y_end - y,
        {
            let mut x = min_x;
            while x < x_end
                invariant
                    self@.wf(),
                    forall|t: T, x2: i64, y2: i64| #[trigger] call_requires(callback, (t, x2, y2)),
                    min_x == self@.min_x,
                    x_end == self@.min_x + self@.x_size,
                    y_end == self@.min_y + self@.y_size,
                    self@.min_y <= y < y_end,
                    min_x <= x <= x_end,
                decreases x_end - x,
            {
                let v = self.get(x, y);
                callback(v, x, y);
                x = x + 1;
            }
            y = y + 1;
        }
    }

    /// A grid read from lines of characters: cell `(x, y)` of the unpadded
    /// box is `mapfunc` of character `x` of line `y`, positions past the end
    /// of their line (and the padding border around everything) hold
    /// `default_val`. The box is widened to the longest line.
    pub fn from_input_map<F: Fn(char) -> T>(
        input: &Vec<String>,
        default_val: T,
        padding: i64,
        mapfunc: F,
    ) -> (r: Self)
        requires
            0 <= padding,
            input@.len() + 2 * padding <= i64::MAX,
            max_line_len(input@.map_values(|l: String| l@)) + 2 * padding <= i64::MAX,
            input@.len() + 2 * padding <= usize::MAX,
            max_line_len(input@.map_values(|l: String| l@)) + 2 * padding <= usize::MAX,
            (max_line_len(input@.map_values(|l: String| l@)) + 2 * padding) * (input@.len() + 2
                * padding) <= usize::MAX,
            forall|c: char| #[trigger] call_requires(mapfunc, (c,)),
        ensures
            r@.wf(),
            r@.min_x == -padding,
            r@.min_y == -padding,
            r@.x_size == max_line_len(input@.map_values(|l: String| l@)) + 2 * padding,
            r@.y_size == input@.len() + 2 * padding,
            r@.padding == padding,
            forall|x: int, y: int|
                0 <= y < input@.len() && 0 <= x < input@[y]@.len() ==> call_ensures(
                    mapfunc,
                    (input@[y]@[x],),
                    #[trigger] r@.cell(x, y),
                ),
            forall|x: int, y: int|
                r@.in_bounds(x, y) && !(0 <= y < input@.len() && 0 <= x < input@[y]@.len())
                    ==> #[trigger] r@.cell(x, y) == default_val,
    {
        let ghost linesv = input@.map_values(|l: String| l@);
        let mut width: usize = 0;
        let mut i: usize = 0;
        while i < input.len()
            invariant
                linesv == input@.map_values(|l: String| l@),
                i <= input@.len(),
                width == max_line_len(linesv.subrange(0, i as int)),
                forall|j: int| 0 <= j < i ==> (#[trigger] linesv[j]).len() <= width,
            decreases input@.len() - i,
        {
            let line = crate::read::str_chars(input[i].as_str());
            proof {
                assert(linesv.subrange(0, i + 1).drop_last() =~= linesv.subrange(0, i as int));
                assert(linesv.subrange(0, i + 1).last() == linesv[i as int]);
                assert(linesv[i as int] == input@[i as int]@);
            }
            if line.len() > width {
                width = line.len();
            }
            i = i + 1;
        }
        proof {
            assert(linesv.subrange(0, linesv.len() as int) =~= linesv);
        }
        let height = input.len();
        let mut inst = Grid::new(
            -padding,
            -padding,
            width as i64 - 1 + padding,
            height as i64 - 1 + padding,
            default_val,
        );
        inst.padding = padding;
        proof {
            assert(inst@.wf());
            assert forall|x: int, y: int| inst@.in_bounds(x, y) implies #[trigger] inst@.cell(x, y)
                == default_val by {
                lemma_idx_in_range(inst@, x, y);
            }
        }
        let mut uy: usize = 0;
        while uy < height
            invariant
                linesv == input@.map_values(|l: String| l@),
                forall|c: char| #[trigger] call_requires(mapfunc, (c,)),
                forall|j: int| 0 <= j < linesv.len() ==> (#[trigger] linesv[j]).len() <= width,
                height == input@.len(),
                uy <= height,
                inst@.wf(),
                inst@.min_x == -padding,
                inst@.min_y == -padding,
                inst@.x_size == width + 2 * padding,
                inst@.y_size == height + 2 * padding,
                inst@.padding == padding,
                0 <= padding,
                forall|x: int, y: int|
                    0 <= y < uy && 0 <= x < linesv[y].len() ==> call_ensures(
                        mapfunc,
                        (linesv[y][x],),
                        #[trigger] inst@.cell(x, y),
                    ),
                forall|x: int, y: int|
                    inst@.in_bounds(x, y) && !(0 <= y < uy && 0 <= x < linesv[y].len())
                        ==> #[trigger] inst@.cell(x, y) == default_val,
            decreases height - uy,
        {
            let line = crate::read::str_chars(input[uy].as_str());
            proof {
                assert(linesv[uy as int] == input@[uy as int]@);
            }
            let mut ux: usize = 0;
            while ux < line.len()
                invariant
                    linesv == input@.map_values(|l: String| l@),
                    forall|c: char| #[trigger] call_requires(mapfunc, (c,)),
                    forall|j: int| 0 <= j < linesv.len() ==> (#[trigger] linesv[j]).len() <= width,
                    height == input@.len(),
                    uy < height,
                    line@ == linesv[uy as int],
                    ux <= line@.len(),
                    inst@.wf(),
                    inst@.min_x == -padding,
                    inst@.min_y == -padding,
                    inst@.x_size == width + 2 * padding,
                    inst@.y_size == height + 2 * padding,
                    inst@.padding == padding,
                    0 <= padding,
                    forall|x: int, y: int|
                        0 <= y < uy && 0 <= x < linesv[y].len() ==> call_ensures(
                            mapfunc,
                            (linesv[y][x],),
                            #[trigger] inst@.cell(x, y),
                        ),
                    forall|x: int|
                        0 <= x < ux ==> call_ensures(
                            mapfunc,
                            (linesv[uy as int][x],),
                            #[trigger] inst@.cell(x, uy as int),
                        ),
                    forall|x: int, y: int|
                        inst@.in_bounds(x, y) && !(0 <= y < uy && 0 <= x < linesv[y].len()) && !(y
                            == uy && 0 <= x < ux) ==> #[trigger] inst@.cell(x, y) == default_val,
                decreases line@.len() - ux,
            {
                let c = line[ux];
                let v = mapfunc(c);
                let ghost pre = inst@;
                inst.set(ux as i64, uy as i64, v);
                proof {
                    lemma_idx_in_range(pre, ux as int, uy as int);
                    assert forall|x: int, y: int| pre.in_bounds(x, y) && !(x == ux && y
                        == uy) implies #[trigger] inst@.cell(x, y) == pre.cell(x, y) by {
                        lemma_idx_in_range(pre, x, y);
                        if pre.idx(x, y) == pre.idx(ux as int, uy as int) {
                            lemma_idx_injective(pre, x, y, ux as int, uy as int);
                        }
                    }
                    assert(inst@.cell(ux as int, uy as int) == v);
                }
                ux = ux + 1;
            }
            uy = uy + 1;
        }
        inst
    }

    /// A grid read from lines of characters through the type's fallible
    /// conversion: the first character that fails to convert stops the read
    /// with its error; see [`Grid::from_input_map`] for the layout.
    pub fn try_from_input(input: &Vec<String>, default_val: T, padding: i64) -> (r: Result<
        Self,
        <T as TryFrom<char>>::Error,
    >) where T: TryFrom<char>
        requires
            0 <= padding,
            input@.len() + 2 * padding <= i64::MAX,
            max_line_len(input@.map_values(|l: String| l@)) + 2 * padding <= i64::MAX,
            input@.len() + 2 * padding <= usize::MAX,
            max_line_len(input@.map_values(|l: String| l@)) + 2 * padding <= usize::MAX,
            (max_line_len(input@.map_values(|l: String| l@)) + 2 * padding) * (input@.len() + 2
                * padding) <= usize::MAX,
        ensures
            match r {
                Result::Ok(g) => {
                    &&& g@.wf()
                    &&& g@.min_x == -padding
                    &&& g@.min_y == -padding
                    &&& g@.x_size == max_line_len(input@.map_values(|l: String| l@)) + 2 * padding
                    &&& g@.y_size == input@.len() + 2 * padding
                    &&& g@.padding == padding
                    &&& forall|x: int, y: int|
                        0 <= y < input@.len() && 0 <= x < input@[y]@.len() ==> call_ensures(
                            T::try_from,
                            (input@[y]@[x],),
                            Result::Ok(#[trigger] g@.cell(x, y)),
                        )
                    &&& forall|x: int, y: int|
                        g@.in_bounds(x, y) && !(0 <= y < input@.len() && 0 <= x < input@[y]@.len())
                            ==> #[trigger] g@.cell(x, y) == default_val
                },
                Result::Err(e) => exists|x: int, y: int|
                    #![trigger input@[y]@[x]]
                    0 <= y < input@.len() && 0 <= x < input@[y]@.len() && call_ensures(
                        T::try_from,
                        (input@[y]@[x],),
                        Result::<T, <T as TryFrom<char>>::Error>::Err(e),
                    ),
            },
    {
        let ghost linesv = input@.map_values(|l: String| l@);
        let mut width: usize = 0;
        let mut i: usize = 0;
        while i < input.len()
            invariant
                linesv == input@.map_values(|l: String| l@),
                i <= input@.len(),
                width == max_line_len(linesv.subrange(0, i as int)),
                forall|j: int| 0 <= j < i ==> (#[trigger] linesv[j]).len() <= width,
            decreases input@.len() - i,
        {
            let line = crate::read::str_chars(input[i].as_str());
            proof {
                assert(linesv.subrange(0, i + 1).drop_last() =~= linesv.subrange(0, i as int));
                assert(linesv.subrange(0, i + 1).last() == linesv[i as int]);
                assert(linesv[i as int] == input@[i as int]@);
            }
            if line.len() > width {
                width = line.len();
            }
            i = i + 1;
        }
        proof {
            assert(linesv.subrange(0, linesv.len() as int) =~= linesv);
        }
        let height = input.len();
        let mut inst = Grid::new(
            -padding,
            -padding,
            width as i64 - 1 + padding,
            height as i64 - 1 + padding,
            default_val,
        );
        inst.padding = padding;
        proof {
            assert(inst@.wf());
            assert forall|x: int, y: int| inst@.in_bounds(x, y) implies #[trigger] inst@.cell(x, y)
                == default_val by {
                lemma_idx_in_range(inst@, x, y);
            }
        }
        let mut uy: usize = 0;
        while uy < height
            invariant
                linesv == input@.map_values(|l: String| l@),
                forall|j: int| 0 <= j < linesv.len() ==> (#[trigger] linesv[j]).len() <= width,
                height == input@.len(),
                uy <= height,
                inst@.wf(),
                inst@.min_x == -padding,
                inst@.min_y == -padding,
                inst@.x_size == width + 2 * padding,
                inst@.y_size == height + 2 * padding,
                inst@.padding == padding,
                0 <= padding,
                forall|x: int, y: int|
                    0 <= y < uy && 0 <= x < linesv[y].len() ==> call_ensures(
                        T::try_from,
                        (linesv[y][x],),
                        Result::Ok(#[trigger] inst@.cell(x, y)),
                    ),
                forall|x: int, y: int|
                    inst@.in_bounds(x, y) && !(0 <= y < uy && 0 <= x < linesv[y].len())
                        ==> #[trigger] inst@.cell(x, y) == default_val,
            decreases height - uy,
        {
            let line = crate::read::str_chars(input[uy].as_str());
            proof {
                assert(linesv[uy as int] == input@[uy as int]@);
            }
            let mut ux: usize = 0;
            while ux < line.len()
                invariant
                    linesv == input@.map_values(|l: String| l@),
                    forall|j: int| 0 <= j < linesv.len() ==> (#[trigger] linesv[j]).len() <= width,
                    height == input@.len(),
                    uy < height,
                    line@ == linesv[uy as int],
                    ux <= line@.len(),
                    inst@.wf(),
                    inst@.min_x == -padding,
                    inst@.min_y == -padding,
                    inst@.x_size == width + 2 * padding,
                    inst@.y_size == height + 2 * padding,
                    inst@.padding == padding,
                    0 <= padding,
                    forall|x: int, y: int|
                        0 <= y < uy && 0 <= x < linesv[y].len() ==> call_ensures(
                            T::try_from,
                            (linesv[y][x],),
                            Result::Ok(#[trigger] inst@.cell(x, y)),
                        ),
                    forall|x: int|
                        0 <= x < ux ==> call_ensures(
                            T::try_from,
                            (linesv[uy as int][x],),
                            Result::Ok(#[trigger] inst@.cell(x, uy as int)),
                        ),
                    forall|x: int, y: int|
                        inst@.in_bounds(x, y) && !(0 <= y < uy && 0 <= x < linesv[y].len()) && !(y
                            == uy && 0 <= x < ux) ==> #[trigger] inst@.cell(x, y) == default_val,
                decreases line@.len() - ux,
            {
                let c = line[ux];
                let v = match T::try_from(c) {
                    Result::Ok(v) => v,
                    Result::Err(e) => {
                        proof {
                            assert(0 <= uy < input@.len() && 0 <= ux
                                < (input@[uy as int])@.len() && call_ensures(
                                T::try_from,
                                (input@[uy as int]@[ux as int],),
                                Result::<T, <T as TryFrom<char>>::Error>::Err(e),
                            ));
                        }
                        return Err(e);
                    },
                };
                let ghost pre = inst@;
                inst.set(ux as i64, uy as i64, v);
                proof {
                    lemma_idx_in_range(pre, ux as int, uy as int);
                    assert forall|x: int, y: int| pre.in_bounds(x, y) && !(x == ux && y
                        == uy) implies #[trigger] inst@.cell(x, y) == pre.cell(x, y) by {
                        lemma_idx_in_range(pre, x, y);
                        if pre.idx(x, y) == pre.idx(ux as int, uy as int) {
                            lemma_idx_injective(pre, x, y, ux as int, uy as int);
                        }
                    }
                    assert(inst@.cell(ux as int, uy as int) == v);
                }
                ux = ux + 1;
            }
            uy = uy + 1;
        }
        Ok(inst)
    }

    /// A grid read from lines of characters through the type's own
    /// conversion from `char`; see [`Grid::from_input_map`].
    pub fn from_input(input: &Vec<String>, default_val: T, padding: i64) -> (r: Self) where
        T: From<char>

        requires
            0 <= padding,
            input@.len() + 2 * padding <= i64::MAX,
            max_line_len(input@.map_values(|l: String| l@)) + 2 * padding <= i64::MAX,
            input@.len() + 2 * padding <= usize::MAX,
            max_line_len(input@.map_values(|l: String| l@)) + 2 * padding <= usize::MAX,
            (max_line_len(input@.map_values(|l: String| l@)) + 2 * padding) * (input@.len() + 2
                * padding) <= usize::MAX,
        ensures
            r@.wf(),
            r@.min_x == -padding,
            r@.min_y == -padding,
            r@.x_size == max_line_len(input@.map_values(|l: String| l@)) + 2 * padding,
            r@.y_size == input@.len() + 2 * padding,
            r@.padding == padding,
            forall|x: int, y: int|
                0 <= y < input@.len() && 0 <= x < input@[y]@.len() ==> call_ensures(
                    T::from,
                    (input@[y]@[x],),
                    #[trigger] r@.cell(x, y),
                ),
            forall|x: int, y: int|
                r@.in_bounds(x, y) && !(0 <= y < input@.len() && 0 <= x < input@[y]@.len())
                    ==> #[trigger] r@.cell(x, y) == default_val,
    {
        let mapped = |c: char| -> (t: T)
            ensures
                call_ensures(T::from, (c,), t),
            { T::from(c) };
        Grid::from_input_map(input, default_val, padding, mapped)
    }
}

impl<T: Copy> Grid<T> {
    /// The grid as one string: each row's cells as characters, each row ended
    /// by a newline.
    pub fn format(&self) -> (s: String) where T: Into<char>
        requires
            self@.wf(),
            self@.x_size < usize::MAX,
        ensures
            s@.len() == self@.y_size * (self@.x_size + 1),
            forall|row: int|
                0 <= row < self@.y_size ==> #[trigger] row_major_at(
                    s@,
                    self@.x_size as int + 1,
                    row,
                    self@.x_size as int,
                ) == '\n',
            forall|row: int, col: int|
                0 <= row < self@.y_size && 0 <= col < self@.x_size ==> call_ensures(
                    T::into,
                    (row_major_at(self@.cells, self@.x_size as int, row, col),),
                    #[trigger] row_major_at(s@, self@.x_size as int + 1, row, col),
                ),
    {
        let xs = self.x_size;
        let ys = self.y_size;
        let w = xs + 1;
        let mut s = String::new();
        let mut row: usize = 0;
        while row < ys
            invariant
                self@.wf(),
                xs == self@.x_size,
                ys == self@.y_size,
                w == xs + 1,
                row <= ys,
                s@.len() == row * w,
                forall|j: int|
                    0 <= j < s@.len() ==> if j % (w as int) == xs {
                        s@[j] == '\n'
                    } else {
                        call_ensures(
                            T::into,
                            (
                                row_major_at(
                                    self@.cells,
                                    xs as int,
                                    j / (w as int),
                                    j % (w as int),
                                ),
                            ),
                            #[trigger] s@[j],
                        )
                    },
            decreases ys - row,
        {
            let mut col: usize = 0;
            while col < xs
                invariant
                    self@.wf(),
                    xs == self@.x_size,
                    ys == self@.y_size,
                    w == xs + 1,
                    row < ys,
                    col <= xs,
                    s@.len() == row * w + col,
                    forall|j: int|
                        0 <= j < s@.len() ==> if j % (w as int) == xs {
                            s@[j] == '\n'
                        } else {
                            call_ensures(
                                T::into,
                                (
                                    row_major_at(
                                        self@.cells,
                                        xs as int,
                                        j / (w as int),
                                        j % (w as int),
                                    ),
                                ),
                                #[trigger] s@[j],
                            )
                        },
                decreases xs - col,
            {
                proof {
                    lemma_rowmajor_bound(row as int, col as int, xs as int, ys as int);
                    lemma_rowmajor_bound(row as int, col as int, w as int, ys as int);
                    vstd::arithmetic::div_mod::lemma_fundamental_div_mod_converse(
                        row * w + col,
                        w as int,
                        row as int,
                        col as int,
                    );
                }
                let v = self.get_cell_index(row, col);
                let c: char = v.into();
                crate::read::push_char(&mut s, c);
                col = col + 1;
            }
            proof {
                lemma_rowmajor_bound(row as int, xs as int, w as int, ys as int);
                vstd::arithmetic::div_mod::lemma_fundamental_div_mod_converse(
                    row * w + xs,
                    w as int,
                    row as int,
                    xs as int,
                );
                assert((row + 1) * w == row * w + w) by (nonlinear_arith);
            }
            crate::read::push_char(&mut s, '\n');
            row = row + 1;
        }
        proof {
            assert(s@.len() == self@.y_size * (self@.x_size + 1)) by (nonlinear_arith)
                requires
                    s@.len() == ys * w,
                    xs == self@.x_size,
                    ys == self@.y_size,
                    w == xs + 1,
            ;
            assert forall|r2: int, c2: int| 0 <= r2 < ys && 0 <= c2 < w implies (if c2 == xs {
                row_major_at(s@, w as int, r2, c2) == '\n'
            } else {
                call_ensures(
                    T::into,
                    (row_major_at(self@.cells, xs as int, r2, c2),),
                    row_major_at(s@, w as int, r2, c2),
                )
            }) by {
                lemma_rowmajor_bound(r2, c2, w as int, ys as int);
                vstd::arithmetic::div_mod::lemma_fundamental_div_mod_converse(
                    r2 * w + c2,
                    w as int,
                    r2,
                    c2,
                );
            }
        }
        s
    }

    /// The cell in row `row` and column `col` of the stored order.
    fn get_cell_index(&self, row: usize, col: usize) -> (r: T)
        requires
            self@.wf(),
            row < self@.y_size,
            col < self@.x_size,
        ensures
            r == row_major_at(self@.cells, self@.x_size as int, row as int, col as int),
    {
        proof {
            lemma_rowmajor_bound(row as int, col as int, self@.x_size as int, self@.y_size as int);
        }
        self.data[row * self.x_size + col]
    }
}

/// The formatter admits `seg` as the rendering of `cell`.
pub open spec fn seg_admits<T, F: Fn(T) -> String>(f: F, cell: T, seg: Seq<char>) -> bool {
    exists|r: String|
        #![trigger call_ensures(f, (cell,), r)]
        r@ == seg && call_ensures(f, (cell,), r)
}

/// The first `upto` segments of row `row`, concatenated.
pub open spec fn spec_row_upto(segs: Seq<Seq<char>>, xs: int, row: int, upto: int) -> Seq<char>
    decreases upto,
{
    if upto <= 0 {
        Seq::empty()
    } else {
        spec_row_upto(segs, xs, row, upto - 1) + segs[row * xs + (upto - 1)]
    }
}

/// The first `rows` rows of segments, each row concatenated and ended by a
/// newline.
pub open spec fn spec_rows_join(segs: Seq<Seq<char>>, xs: int, rows: int) -> Seq<char>
    decreases rows,
{
    if rows <= 0 {
        Seq::empty()
    } else {
        spec_rows_join(segs, xs, rows - 1) + spec_row_upto(segs, xs, rows - 1, xs) + seq!['\n']
    }
}

/// A row's concatenation depends only on that row's segments.
proof fn lemma_row_upto_prefix(s1: Seq<Seq<char>>, s2: Seq<Seq<char>>, xs: int, row: int, upto: int)
    requires
        0 <= row,
        0 <= xs,
        upto <= xs,
        forall|k: int| 0 <= k < row * xs + upto ==> s1[k] == s2[k],
        0 <= row * xs,
    ensures
        spec_row_upto(s1, xs, row, upto) == spec_row_upto(s2, xs, row, upto),
    decreases upto,
{
    if upto > 0 {
        lemma_row_upto_prefix(s1, s2, xs, row, upto - 1);
    }
}

/// The joined rows depend only on the segments of those rows.
proof fn lemma_rows_join_prefix(s1: Seq<Seq<char>>, s2: Seq<Seq<char>>, xs: int, rows: int)
    requires
        0 <= xs,
        0 <= rows,
        forall|k: int| 0 <= k < rows * xs ==> s1[k] == s2[k],
    ensures
        spec_rows_join(s1, xs, rows) == spec_rows_join(s2, xs, rows),
    decreases rows,
{
    if rows > 0 {
        assert((rows - 1) * xs + xs == rows * xs && 0 <= (rows - 1) * xs) by (nonlinear_arith)
            requires
                0 <= xs,
                1 <= rows,
        ;
        lemma_rows_join_prefix(s1, s2, xs, rows - 1);
        lemma_row_upto_prefix(s1, s2, xs, rows - 1, xs);
    }
}

impl<T: Copy> Grid<T> {
    /// The grid as one string: each cell rendered by `formatter`, the
    /// renderings of each row concatenated and ended by a newline.
    pub fn format_str<F: Fn(T) -> String>(&self, formatter: F) -> (s: String)
        requires
            self@.wf(),
            forall|t: T| #[trigger] call_requires(formatter, (t,)),
        ensures
            exists|segs: Seq<Seq<char>>|
                #![trigger segs.len()]
                {
                    &&& segs.len() == self@.cells.len()
                    &&& forall|i: int|
                        0 <= i < segs.len() ==> seg_admits(
                            formatter,
                            self@.cells[i],
                            #[trigger] segs[i],
                        )
                    &&& s@ == spec_rows_join(segs, self@.x_size as int, self@.y_size as int)
                },
    {
        let xs = self.x_size;
        let ys = self.y_size;
        let mut s = String::new();
        let ghost mut segs: Seq<Seq<char>> = Seq::empty();
        let mut row: usize = 0;
        while row < ys
            invariant
                self@.wf(),
                forall|t: T| #[trigger] call_requires(formatter, (t,)),
                xs == self@.x_size,
                ys == self@.y_size,
                row <= ys,
                segs.len() == row * xs,
                forall|i: int|
                    0 <= i < segs.len() ==> seg_admits(
                        formatter,
                        self@.cells[i],
                        #[trigger] segs[i],
                    ),
                s@ == spec_rows_join(segs, xs as int, row as int),
            decreases ys - row,
        {
            let mut col: usize = 0;
            while col < xs
                invariant
                    self@.wf(),
                    forall|t: T| #[trigger] call_requires(formatter, (t,)),
                    xs == self@.x_size,
                    ys == self@.y_size,
                    row < ys,
                    col <= xs,
                    segs.len() == row * xs + col,
                    forall|i: int|
                        0 <= i < segs.len() ==> seg_admits(
                            formatter,
                            self@.cells[i],
                            #[trigger] segs[i],
                        ),
                    s@ == spec_rows_join(segs, xs as int, row as int) + spec_row_upto(
                        segs,
                        xs as int,
                        row as int,
                        col as int,
                    ),
                decreases xs - col,
            {
                proof {
                    lemma_rowmajor_bound(row as int, col as int, xs as int, ys as int);
                }
                let v = self.get_cell_index(row, col);
                let rendered = formatter(v);
                proof {
                    let segs0 = segs;
                    segs = segs.push(rendered@);
                    assert(seg_admits(formatter, self@.cells[row * xs + col], rendered@));
                    lemma_rows_join_prefix(segs0, segs, xs as int, row as int);
                    lemma_row_upto_prefix(segs0, segs, xs as int, row as int, col as int);
                }
                s.append(rendered.as_str());
                proof {
                    assert(s@ == spec_rows_join(segs, xs as int, row as int) + spec_row_upto(
                        segs,
                        xs as int,
                        row as int,
                        col + 1,
                    ));
                }
                col = col + 1;
            }
            crate::read::push_char(&mut s, '\n');
            proof {
                assert((row + 1) * xs == row * xs + xs) by (nonlinear_arith);
                assert(s@ =~= spec_rows_join(segs, xs as int, row + 1));
            }
            row = row + 1;
        }
        proof {
            assert(segs.len() == ys * xs);
            assert(segs.len() == self@.cells.len()) by (nonlinear_arith)
                requires
                    segs.len() == ys * xs,
                    self@.cells.len() == self@.x_size * self@.y_size,
                    xs == self@.x_size,
                    ys == self@.y_size,
            ;
        }
        s
    }
}

/// One of the eight symmetries of a rectangle, used to read or write a grid
/// as if it had been rotated or flipped.
#[derive(Copy, Clone, Eq, PartialEq, Debug, Structural)]
pub enum GridTransform {
    Identity,
    Rot90,
    Rot180,
    Rot270,
    HFlip,
    VFlip,
    Rot90HFlip,
    Rot270HFlip,
}

/// Whether `xform` exchanges the roles of the two axes.
pub open spec fn xform_swaps(xform: GridTransform) -> bool {
    match xform {
        GridTransform::Rot90
        | GridTransform::Rot270
        | GridTransform::Rot90HFlip
        | GridTransform::Rot270HFlip => true,
        _ => false,
    }
}

impl<T> GridView<T> {
    /// The domain on which reading through `xform` is defined: the grid's own
    /// bounds, with the two extents exchanged when `xform` swaps the axes.
    pub open spec fn xform_in_bounds(self, x: int, y: int, xform: GridTransform) -> bool {
        if xform_swaps(xform) {
            &&& self.min_x <= x < self.min_x + self.y_size
            &&& self.min_y <= y < self.min_y + self.x_size
        } else {
            self.in_bounds(x, y)
        }
    }

    /// The position that `(x, y)` reads from under `xform`.
    pub open spec fn xform_pos(self, x: int, y: int, xform: GridTransform) -> (int, int) {
        let x0 = x - self.min_x;
        let y0 = y - self.min_y;
        let xs = self.x_size as int;
        let ys = self.y_size as int;
        let p: (int, int) = match xform {
            GridTransform::Identity => (x0, y0),
            GridTransform::Rot90 => (y0, ys - 1 - x0),
            GridTransform::Rot180 => (xs - 1 - x0, ys - 1 - y0),
            GridTransform::Rot270 => (xs - 1 - y0, x0),
            GridTransform::HFlip => (xs - 1 - x0, y0),
            GridTransform::Rot90HFlip => (y0, x0),
            GridTransform::VFlip => (x0, ys - 1 - y0),
            GridTransform::Rot270HFlip => (xs - 1 - y0, ys - 1 - x0),
        };
        (p.0 + self.min_x, p.1 + self.min_y)
    }

    /// The cell that `(x, y)` denotes under `xform`.
    pub open spec fn xform_cell(self, x: int, y: int, xform: GridTransform) -> T {
        self.cell(self.xform_pos(x, y, xform).0, self.xform_pos(x, y, xform).1)
    }
}

} // verus!
