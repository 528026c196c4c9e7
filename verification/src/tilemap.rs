//! A dense two-dimensional grid of tiles, kept row by row.

use vstd::prelude::*;
use vstd::arithmetic::div_mod::{lemma_fundamental_div_mod, lemma_fundamental_div_mod_converse, lemma_mod_bound};
use crate::sealed::Sealed;
use crate::text::{
    char_views, decimal_text, fields, format_i32, from_chars, has_char, is_digit, join, join_strings,
    joined_lines, lines, parse_i32, spec_parse_i32, split_fields, split_lines, string_views,
    strip_cr, to_chars, trim, trimmed,
};

verus! {

/// A kind of tile. It has one value that stands for "no tile here".
///
/// This trait is **sealed**: the two kinds of tile are `i32` and `char`.
pub trait TilemapCell: Copy + Sealed {
    /// The value of an empty cell.
    spec fn spec_empty() -> Self;

    /// The value of an empty cell.
    fn empty() -> (r: Self)
        ensures
            r == Self::spec_empty(),
    ;

    /// Whether this is the value of an empty cell.
    fn is_empty(&self) -> (r: bool)
        ensures
            r == (*self == Self::spec_empty()),
    ;
}

impl TilemapCell for i32 {
    open spec fn spec_empty() -> i32 {
        -1i32
    }

    fn empty() -> (r: i32) {
        -1
    }

    fn is_empty(&self) -> (r: bool) {
        *self == -1
    }
}

impl TilemapCell for char {
    open spec fn spec_empty() -> char {
        '0'
    }

    fn empty() -> (r: char) {
        '0'
    }

    fn is_empty(&self) -> (r: bool) {
        *self == '0'
    }
}

/// What a [`Tilemap`] holds: a width, a height, and the cells row by row.
pub ghost struct Grid<T> {
    pub width: nat,
    pub height: nat,
    pub cells: Seq<T>,
}

impl<T> Grid<T> {
    /// There is one cell for each place.
    pub open spec fn well_formed(self) -> bool {
        self.cells.len() == self.width * self.height
    }

    /// Whether `(x, y)` is a place of the grid.
    pub open spec fn in_bounds(self, x: int, y: int) -> bool {
        0 <= x < self.width && 0 <= y < self.height
    }

    /// The cell in column `x` of row `y`.
    pub open spec fn cell(self, x: int, y: int) -> T
        recommends
            self.in_bounds(x, y),
    {
        self.cells[y * self.width + x]
    }

    /// The grid of the given shape whose cells all hold `value`.
    pub open spec fn filled(width: nat, height: nat, value: T) -> Grid<T> {
        Grid { width, height, cells: Seq::new(width * height, |i: int| value) }
    }

    /// This grid cut or padded to another shape: a place that both shapes
    /// have keeps its cell, and every other place holds `empty`.
    pub open spec fn reshaped(self, width: nat, height: nat, empty: T) -> Grid<T> {
        Grid {
            width,
            height,
            cells: Seq::new(
                width * height,
                |i: int|
                    if self.in_bounds(i % (width as int), i / (width as int)) {
                        self.cell(i % (width as int), i / (width as int))
                    } else {
                        empty
                    },
            ),
        }
    }

    /// This grid with the cell at `(x, y)` replaced.
    pub open spec fn with_cell(self, x: int, y: int, value: T) -> Grid<T> {
        Grid { cells: self.cells.update(y * self.width + x, value), ..self }
    }
}

/// The place of cell `(x, y)` in a row-by-row list of cells is within the
/// list, and gives `x` and `y` back.
pub proof fn lemma_cell_index(width: nat, height: nat, x: int, y: int)
    requires
        0 <= x < width,
        0 <= y < height,
    ensures
        0 <= y * width + x < width * height,
        (y * width + x) % (width as int) == x,
        (y * width + x) / (width as int) == y,
{
    assert(0 <= y * width && y * width + x < width * height) by (nonlinear_arith)
        requires
            0 <= x < width,
            0 <= y < height,
    ;
    assert(y * width == (width as int) * y) by (nonlinear_arith);
    lemma_fundamental_div_mod_converse(y * width + x, width as int, y, x);
}

/// A place in a row-by-row list of cells is the place of one cell.
pub proof fn lemma_index_cell(width: nat, height: nat, i: int)
    requires
        0 <= i < width * height,
    ensures
        width > 0,
        0 <= i % (width as int) < width,
        0 <= i / (width as int) < height,
        (i / (width as int)) * width + i % (width as int) == i,
{
    assert(width > 0) by (nonlinear_arith)
        requires
            0 <= i < width * height,
    ;
    let w = width as int;
    lemma_fundamental_div_mod(i, w);
    lemma_mod_bound(i, w);
    assert(0 <= i / w < height) by (nonlinear_arith)
        requires
            0 <= i < w * height,
            i == w * (i / w) + i % w,
            0 <= i % w < w,
            w > 0,
    ;
    assert((i / w) * w == w * (i / w)) by (nonlinear_arith);
}

/// The cells of a reshaped grid: a place of both shapes keeps its cell, any
/// other place of the new shape is empty.
pub proof fn lemma_reshaped_cell<T>(g: Grid<T>, width: nat, height: nat, empty: T, x: int, y: int)
    requires
        0 <= x < width,
        0 <= y < height,
    ensures
        g.reshaped(width, height, empty).well_formed(),
        g.reshaped(width, height, empty).cell(x, y) == if g.in_bounds(x, y) {
            g.cell(x, y)
        } else {
            empty
        },
{
    lemma_cell_index(width, height, x, y);
}

/// Cutting a grid down and then bringing it back to its shape keeps every
/// cell that the smaller shape had room for, and leaves the others empty.
pub proof fn lemma_reshape_back<T>(g: Grid<T>, width: nat, height: nat, empty: T, x: int, y: int)
    requires
        g.well_formed(),
        g.in_bounds(x, y),
    ensures
        g.reshaped(width, height, empty).reshaped(g.width, g.height, empty).well_formed(),
        g.reshaped(width, height, empty).reshaped(g.width, g.height, empty).cell(x, y) == if x
            < width && y < height {
            g.cell(x, y)
        } else {
            empty
        },
{
    let small = g.reshaped(width, height, empty);
    lemma_reshaped_cell(small, g.width, g.height, empty, x, y);
    if x < width && y < height {
        lemma_reshaped_cell(g, width, height, empty, x, y);
    }
}

/// A 2-dimensional tilemap.
#[derive(Debug, PartialEq, Eq, Hash)]
pub struct Tilemap<T: TilemapCell> {
    width: usize,
    height: usize,
    data: Vec<T>,
}

impl<T: TilemapCell> View for Tilemap<T> {
    type V = Grid<T>;

    closed spec fn view(&self) -> Grid<T> {
        Grid { width: self.width as nat, height: self.height as nat, cells: self.data@ }
    }
}

impl<T: TilemapCell> Default for Tilemap<T> {
    fn default() -> (r: Tilemap<T>)
        ensures
            r@ == Grid::filled(0, 0, T::spec_empty()),
    {
        let data: Vec<T> = Vec::new();
        assert(data@.len() == 0usize * 0usize);
        let r = Tilemap { width: 0, height: 0, data };
        assert(r@.cells =~= Grid::filled(0, 0, T::spec_empty()).cells);
        r
    }
}

impl<T: TilemapCell> Clone for Tilemap<T> {
    fn clone(&self) -> (r: Tilemap<T>)
        ensures
            r@ == self@,
    {
        proof {
            use_type_invariant(self);
        }
        let mut data: Vec<T> = Vec::new();
        let mut i: usize = 0;
        while i < self.data.len()
            invariant
                i <= self.data.len(),
                data@ == self.data@.take(i as int),
            decreases self.data.len() - i,
        {
            data.push(self.data[i]);
            i += 1;
        }
        assert(self.data@.take(self.data.len() as int) == self.data@);
        Tilemap { width: self.width, height: self.height, data }
    }
}

impl<T: TilemapCell> Tilemap<T> {
    /// There is one cell for each place.
    #[verifier::type_invariant]
    pub closed spec fn well_formed(&self) -> bool {
        self.data@.len() == self.width * self.height
    }

    /// Creates a new tilemap of the given width and height, initialized with
    /// empty values.
    ///
    /// Will return [`None`] if the width and height cannot be multiplied as
    /// [`usize`]s without arithmetic overflow.
    pub fn new(width: usize, height: usize) -> (r: Option<Self>)
        ensures
            r is Some <==> width * height <= usize::MAX,
            r is Some ==> r->Some_0@ == Grid::filled(width as nat, height as nat, T::spec_empty()),
    {
        match height.checked_mul(width) {
            Some(size) => {
                assert(size == width * height) by (nonlinear_arith)
                    requires
                        size == height * width,
                ;
                let mut data: Vec<T> = Vec::new();
                let mut i: usize = 0;
                while i < size
                    invariant
                        i <= size,
                        data@ == Seq::new(i as nat, |j: int| T::spec_empty()),
                    decreases size - i,
                {
                    data.push(T::empty());
                    i += 1;
                }
                Some(Tilemap { width, height, data })
            },
            None => {
                assert(width * height == height * width) by (nonlinear_arith);
                None
            },
        }
    }

    /// Gets the width of the tilemap.
    pub fn width(&self) -> (w: usize)
        ensures
            w == self@.width,
    {
        self.width
    }

    /// Gets the height of the tilemap.
    pub fn height(&self) -> (h: usize)
        ensures
            h == self@.height,
    {
        self.height
    }

    /// Gets a reference to the underlying raw data of the tilemap: its cells
    /// row by row.
    pub fn raw_data(&self) -> (r: &[T])
        ensures
            r@ == self@.cells,
            self@.well_formed(),
    {
        proof {
            use_type_invariant(self);
        }
        self.data.as_slice()
    }

    /// Gets a reference to the cell at the index, returning [`None`] if out
    /// of bounds.
    pub fn get(&self, x: usize, y: usize) -> (r: Option<&T>)
        ensures
            self@.well_formed(),
            r is Some <==> self@.in_bounds(x as int, y as int),
            r is Some ==> *r->Some_0 == self@.cell(x as int, y as int),
    {
        proof {
            use_type_invariant(self);
        }
        let _cells = self.data.len();
        if x < self.width && y < self.height {
            proof {
                lemma_cell_index(self.width as nat, self.height as nat, x as int, y as int);
                assert(y * self.width >= 0) by (nonlinear_arith)
                    requires
                        y >= 0,
                        self.width >= 0,
                ;
            }
            Some(&self.data[y * self.width + x])
        } else {
            None
        }
    }

    /// Gets a mutable reference to the cell at the index, returning [`None`]
    /// if out of bounds.
    pub fn get_mut(&mut self, x: usize, y: usize) -> (r: Option<&mut T>)
        ensures
            r is Some <==> old(self)@.in_bounds(x as int, y as int),
            r is Some ==> *r->Some_0 == old(self)@.cell(x as int, y as int) && final(self)@ == old(self)@.with_cell(x as int, y as int, *final(r->Some_0)),
            r is None ==> final(self)@ == old(self)@,
    {
        proof {
            use_type_invariant(&*self);
        }
        let _cells = self.data.len();
        if x < self.width && y < self.height {
            proof {
                lemma_cell_index(self.width as nat, self.height as nat, x as int, y as int);
                assert(y * self.width >= 0) by (nonlinear_arith)
                    requires
                        y >= 0,
                        self.width >= 0,
                ;
            }
            let i = y * self.width + x;
            Some(&mut self.data[i])
        } else {
            None
        }
    }

    /// Sets the width of the tilemap, padding or truncating the underlying
    /// data as needed: a row that grows gets empty cells on its right, a row
    /// that shrinks loses cells from its right.
    ///
    /// Will not change the tilemap if the new area is greater than
    /// [`usize::MAX`]. In this case, the function will return `false`.
    pub fn set_width(&mut self, new_width: usize) -> (r: bool)
        ensures
            r == (new_width * old(self)@.height <= usize::MAX),
            r ==> final(self)@ == old(self)@.reshaped(
                new_width as nat,
                old(self)@.height,
                T::spec_empty(),
            ),
            !r ==> final(self)@ == old(self)@,
    {
        proof {
            use_type_invariant(&*self);
        }
        let height = self.height;
        let old_width = self.width;
        let ghost before = self@;
        let size = match height.checked_mul(new_width) {
            Some(size) => size,
            None => {
                assert(new_width * height == height * new_width) by (nonlinear_arith);
                return false;
            },
        };
        assert(size == new_width * height) by (nonlinear_arith)
            requires
                size == height * new_width,
        ;
        if new_width == old_width {
            assert(self@.cells =~= before.reshaped(new_width as nat, height as nat, T::spec_empty()).cells)
                by {
                assert forall|i: int| 0 <= i < new_width * height implies before.cells[i]
                    == before.reshaped(new_width as nat, height as nat, T::spec_empty()).cells[i] by {
                    lemma_index_cell(new_width as nat, height as nat, i);
                }
            }
            return true;
        }
        let ghost target = before.reshaped(new_width as nat, height as nat, T::spec_empty());
        let mut data: Vec<T> = Vec::new();
        let mut y: usize = 0;
        while y < height
            invariant
                y <= height,
                height == self.height,
                old_width == self.width,
                self@ == before,
                before.well_formed(),
                size == new_width * height,
                target == before.reshaped(new_width as nat, height as nat, T::spec_empty()),
                data@.len() == y * new_width,
                target.cells.len() == size,
                y * new_width <= size,
                forall|i: int| 0 <= i < data@.len() ==> data@[i] == target.cells[i],
            decreases height - y,
        {
            let mut x: usize = 0;
            proof {
                assert(y * new_width + new_width <= height * new_width) by (nonlinear_arith)
                    requires
                        y < height,
                ;
                assert(new_width * height == height * new_width) by (nonlinear_arith);
            }
            while x < new_width
                invariant
                    x <= new_width,
                    y < height,
                    height == self.height,
                    old_width == self.width,
                    self@ == before,
                    before.well_formed(),
                    size == new_width * height,
                    y * new_width + new_width <= size,
                    target == before.reshaped(new_width as nat, height as nat, T::spec_empty()),
                    data@.len() == y * new_width + x,
                    target.cells.len() == size,
                    forall|i: int| 0 <= i < data@.len() ==> data@[i] == target.cells[i],
                decreases new_width - x,
            {
                proof {
                    lemma_cell_index(new_width as nat, height as nat, x as int, y as int);
                }
                let cell = if x < old_width {
                    proof {
                        lemma_cell_index(old_width as nat, height as nat, x as int, y as int);
                        assert(y * old_width >= 0) by (nonlinear_arith)
                            requires
                                y >= 0,
                                old_width >= 0,
                        ;
                    }
                    let _cells = self.data.len();
                    self.data[y * old_width + x]
                } else {
                    T::empty()
                };
                data.push(cell);
                x += 1;
            }
            assert((y + 1) * new_width == y * new_width + new_width) by (nonlinear_arith);
            y += 1;
        }
        assert(data@ =~= target.cells);
        *self = Tilemap { width: new_width, height, data };
        true
    }

    /// Sets the height of the tilemap, padding or truncating the underlying
    /// data as needed: new rows are empty and come last, and the last rows
    /// are the ones to go.
    ///
    /// Will not change the tilemap if the new area is greater than
    /// [`usize::MAX`]. In this case, the function will return `false`.
    pub fn set_height(&mut self, new_height: usize) -> (r: bool)
        ensures
            r == (old(self)@.width * new_height <= usize::MAX),
            r ==> final(self)@ == old(self)@.reshaped(
                old(self)@.width,
                new_height as nat,
                T::spec_empty(),
            ),
            !r ==> final(self)@ == old(self)@,
    {
        proof {
            use_type_invariant(&*self);
        }
        let width = self.width;
        let old_height = self.height;
        let ghost before = self@;
        let new_area = match width.checked_mul(new_height) {
            Some(size) => size,
            None => {
                return false;
            },
        };
        let ghost target = before.reshaped(width as nat, new_height as nat, T::spec_empty());
        let nothing: Vec<T> = Vec::new();
        assert(nothing@.len() == 0usize * 0usize);
        let mut taken: Tilemap<T> = Tilemap { width: 0, height: 0, data: nothing };
        std::mem::swap(self, &mut taken);
        let mut data = taken.data;
        assert(data@ == before.cells);
        proof {
            assert forall|i: int| 0 <= i < new_area && i < before.cells.len() implies before.cells[i]
                == target.cells[i] by {
                lemma_index_cell(width as nat, new_height as nat, i);
                lemma_index_cell(width as nat, old_height as nat, i);
            }
            assert forall|i: int| 0 <= i < new_area && i >= before.cells.len() implies target.cells[i]
                == T::spec_empty() by {
                lemma_index_cell(width as nat, new_height as nat, i);
                let y = i / (width as int);
                if y < old_height {
                    lemma_cell_index(width as nat, old_height as nat, i % (width as int), y);
                }
            }
        }
        if new_area <= data.len() {
            data.truncate(new_area);
        } else {
            while data.len() < new_area
                invariant
                    before.cells.len() <= data@.len() <= new_area,
                    forall|i: int| 0 <= i < before.cells.len() ==> data@[i] == before.cells[i],
                    forall|i: int| before.cells.len() <= i < data@.len() ==> data@[i] == T::spec_empty(),
                decreases new_area - data@.len(),
            {
                data.push(T::empty());
            }
        }
        assert(data@ =~= target.cells);
        *self = Tilemap { width, height: new_height, data };
        true
    }

    /// The tilemap of the given shape whose cells are taken from `rows`: the
    /// cell in column `x` of row `y` is the `x`-th item of the `y`-th row,
    /// and is empty where there is no such item. Items beyond the shape are
    /// ignored.
    pub fn from_rows(rows: &Vec<Vec<T>>, width: usize, height: usize) -> (r: Option<Self>)
        ensures
            r is Some <==> width * height <= usize::MAX,
            r is Some ==> r->Some_0@ == grid_from_rows(
                row_views(rows@),
                width as nat,
                height as nat,
                T::spec_empty(),
            ),
    {
        let size = match height.checked_mul(width) {
            Some(size) => size,
            None => {
                assert(width * height == height * width) by (nonlinear_arith);
                return None;
            },
        };
        assert(size == width * height) by (nonlinear_arith)
            requires
                size == height * width,
        ;
        let ghost target = grid_from_rows(
            row_views(rows@),
            width as nat,
            height as nat,
            T::spec_empty(),
        );
        let mut data: Vec<T> = Vec::new();
        let mut y: usize = 0;
        while y < height
            invariant
                y <= height,
                size == width * height,
                target == grid_from_rows(
                    row_views(rows@),
                    width as nat,
                    height as nat,
                    T::spec_empty(),
                ),
                data@.len() == y * width,
                y * width <= size,
                forall|i: int| 0 <= i < data@.len() ==> data@[i] == target.cells[i],
            decreases height - y,
        {
            let mut x: usize = 0;
            proof {
                assert(y * width + width <= height * width) by (nonlinear_arith)
                    requires
                        y < height,
                ;
                assert(width * height == height * width) by (nonlinear_arith);
            }
            while x < width
                invariant
                    x <= width,
                    y < height,
                    size == width * height,
                    y * width + width <= size,
                    target == grid_from_rows(
                        row_views(rows@),
                        width as nat,
                        height as nat,
                        T::spec_empty(),
                    ),
                    data@.len() == y * width + x,
                    forall|i: int| 0 <= i < data@.len() ==> data@[i] == target.cells[i],
                decreases width - x,
            {
                proof {
                    lemma_cell_index(width as nat, height as nat, x as int, y as int);
                }
                let cell = if y < rows.len() && x < rows[y].len() {
                    rows[y][x]
                } else {
                    T::empty()
                };
                data.push(cell);
                x += 1;
            }
            assert((y + 1) * width == y * width + width) by (nonlinear_arith);
            y += 1;
        }
        assert(data@ =~= target.cells);
        Some(Tilemap { width, height, data })
    }

}

/// What each row of a list of rows holds.
pub open spec fn row_views<T>(rows: Seq<Vec<T>>) -> Seq<Seq<T>> {
    rows.map_values(|row: Vec<T>| row@)
}

/// The grid of the given shape whose cells are taken from `rows`: the cell
/// in column `x` of row `y` is the `x`-th item of the `y`-th row, and is
/// `empty` where there is no such item.
pub open spec fn grid_from_rows<T>(rows: Seq<Seq<T>>, width: nat, height: nat, empty: T) -> Grid<T> {
    Grid {
        width,
        height,
        cells: Seq::new(
            width * height,
            |i: int|
                {
                    let x = i % (width as int);
                    let y = i / (width as int);
                    if 0 <= y < rows.len() && 0 <= x < rows[y].len() {
                        rows[y][x]
                    } else {
                        empty
                    }
                },
        ),
    }
}

/// A row without the empty cells at its end.
pub open spec fn trim_empty<T>(row: Seq<T>, empty: T) -> Seq<T>
    decreases row.len(),
{
    if row.len() > 0 && row.last() == empty {
        trim_empty(row.drop_last(), empty)
    } else {
        row
    }
}

impl<T> Grid<T> {
    /// The cells of row `y`, left to right.
    pub open spec fn row(self, y: int) -> Seq<T> {
        self.cells.subrange(y * self.width, (y + 1) * self.width)
    }

    /// The rows of the grid, each without the empty cells at its end.
    pub open spec fn trimmed_rows(self, empty: T) -> Seq<Seq<T>> {
        Seq::new(self.height, |y: int| trim_empty(self.row(y), empty))
    }
}

/// The cell that a written id stands for: the integer that the text denotes
/// once the white space around it is cut off, or the empty cell where it
/// denotes none.
pub open spec fn id_of_field(field: Seq<char>) -> i32 {
    match spec_parse_i32(trim(field)) {
        Some(id) => id,
        None => -1i32,
    }
}

/// The ids that a line of text holds between its commas.
pub open spec fn ids_of_line(line: Seq<char>) -> Seq<i32> {
    fields(line, ',').map_values(|field: Seq<char>| id_of_field(field))
}

/// The rows of ids that a text holds, a row to a line.
pub open spec fn id_rows(text: Seq<char>) -> Seq<Seq<i32>> {
    lines(text).map_values(|line: Seq<char>| ids_of_line(line))
}

/// The text of a row of ids: the ids in decimal with commas between them,
/// the empty cells at the row's end left out.
pub open spec fn id_row_text(row: Seq<i32>) -> Seq<char> {
    join(trim_empty(row, -1i32).map_values(|id: i32| decimal_text(id as int)), seq![','])
}

/// The text of a grid of characters: its rows, each without the empty cells
/// at its end, with a line feed between neighbours.
pub open spec fn char_grid_text(g: Grid<char>) -> Seq<char> {
    join(g.trimmed_rows('0'), seq!['\n'])
}

/// The text of a grid of ids: its rows, each as decimal ids with commas
/// between them and without the empty cells at its end, with a line feed
/// between neighbours.
pub open spec fn id_grid_text(g: Grid<i32>) -> Seq<char> {
    join(Seq::new(g.height, |y: int| id_row_text(g.row(y))), seq!['\n'])
}

impl<T: TilemapCell> Tilemap<T> {
    /// How many cells row `y` has before the empty cells at its end.
    fn trimmed_len(&self, y: usize) -> (n: usize)
        requires
            y < self@.height,
        ensures
            n <= self@.width,
            self@.row(y as int).take(n as int) == trim_empty(self@.row(y as int), T::spec_empty()),
            y * self@.width + self@.width <= self@.cells.len(),
            self@.well_formed(),
    {
        proof {
            use_type_invariant(self);
            assert(y * self.width + self.width <= self.height * self.width) by (nonlinear_arith)
                requires
                    y < self.height,
            ;
            assert(self.width * self.height == self.height * self.width) by (nonlinear_arith);
            assert((y + 1) * self.width == y * self.width + self.width) by (nonlinear_arith);
        }
        let _cells = self.data.len();
        let start = y * self.width;
        let ghost row = self@.row(y as int);
        let mut n: usize = self.width;
        assert(row.take(n as int) == row);
        while n > 0 && self.data[start + n - 1].is_empty()
            invariant
                n <= self.width,
                start == y * self.width,
                start + self.width <= self.data@.len(),
                _cells == self.data@.len(),
                row == self@.row(y as int),
                row.len() == self.width,
                (y + 1) * self.width == y * self.width + self.width,
                trim_empty(row, T::spec_empty()) == trim_empty(row.take(n as int), T::spec_empty()),
            decreases n,
        {
            assert(row.take(n as int).drop_last() == row.take(n as int - 1));
            n -= 1;
        }
        n
    }
}

impl Tilemap<char> {
    /// Reads a tilemap of characters from its text: a line to a row, a
    /// character to a cell. Cells that the text does not reach are empty,
    /// and what the text holds beyond the shape is ignored.
    ///
    /// Returns [`None`] if the shape has more cells than a [`usize`] counts.
    pub fn load(s: String, width: usize, height: usize) -> (r: Option<Self>)
        ensures
            r is Some <==> width * height <= usize::MAX,
            r is Some ==> r->Some_0@ == grid_from_rows(lines(s@), width as nat, height as nat, '0'),
    {
        let chars = to_chars(s.as_str());
        let rows = split_lines(chars.as_slice());
        assert(row_views(rows@) =~= char_views(rows@));
        Self::from_rows(&rows, width, height)
    }

    /// Writes the tilemap as text: a row to a line, a cell to a character,
    /// without the empty cells at the end of each row.
    pub fn store(&self) -> (r: String)
        ensures
            r@ == char_grid_text(self@),
    {
        let mut rows: Vec<String> = Vec::new();
        let mut y: usize = 0;
        while y < self.height
            invariant
                y <= self.height,
                string_views(rows@) == self@.trimmed_rows('0').take(y as int),
            decreases self.height - y,
        {
            let n = self.trimmed_len(y);
            let _cells = self.data.len();
            assert(0 <= y * self.width) by (nonlinear_arith)
                requires
                    y >= 0,
                    self.width >= 0,
            ;
            let start = y * self.width;
            let cells = vstd::slice::slice_subrange(self.data.as_slice(), start, start + n);
            let ghost before = string_views(rows@);
            assert(cells@ == self@.row(y as int).take(n as int)) by {
                assert((y + 1) * self.width == y * self.width + self.width) by (nonlinear_arith);
            }
            rows.push(from_chars(cells));
            assert(string_views(rows@) == before.push(cells@));
            y += 1;
        }
        assert(self@.trimmed_rows('0').take(self.height as int) == self@.trimmed_rows('0'));
        proof {
            reveal_strlit("\n");
            assert("\n"@ == seq!['\n']);
        }
        join_strings(&rows, "\n")
    }
}

impl Tilemap<i32> {
    /// Reads a tilemap of ids from its text: a line to a row, and between
    /// the commas of a line an id to a cell. What is written for a cell and
    /// is no integer stands for an empty cell. Cells that the text does not
    /// reach are empty, and what the text holds beyond the shape is ignored.
    ///
    /// Returns [`None`] if the shape has more cells than a [`usize`] counts.
    pub fn load(s: String, width: usize, height: usize) -> (r: Option<Self>)
        ensures
            r is Some <==> width * height <= usize::MAX,
            r is Some ==> r->Some_0@ == grid_from_rows(
                id_rows(s@),
                width as nat,
                height as nat,
                -1i32,
            ),
    {
        let chars = to_chars(s.as_str());
        let text_rows = split_lines(chars.as_slice());
        let mut rows: Vec<Vec<i32>> = Vec::new();
        let mut y: usize = 0;
        while y < text_rows.len()
            invariant
                y <= text_rows.len(),
                char_views(text_rows@) == lines(s@),
                row_views(rows@) == id_rows(s@).take(y as int),
            decreases text_rows.len() - y,
        {
            let parts = split_fields(text_rows[y].as_slice(), ',');
            let mut ids: Vec<i32> = Vec::new();
            let mut x: usize = 0;
            let ghost line = text_rows@[y as int]@;
            assert(line == lines(s@)[y as int]);
            while x < parts.len()
                invariant
                    x <= parts.len(),
                    char_views(parts@) == fields(line, ','),
                    ids@ == ids_of_line(line).take(x as int),
                decreases parts.len() - x,
            {
                let id = match parse_i32(trimmed(parts[x].as_slice())) {
                    Some(id) => id,
                    None => -1,
                };
                assert(parts@[x as int]@ == fields(line, ',')[x as int]);
                ids.push(id);
                assert(ids@ == ids_of_line(line).take(x as int).push(id));
                x += 1;
            }
            assert(ids_of_line(line).take(parts.len() as int) == ids_of_line(line));
            let ghost before = row_views(rows@);
            rows.push(ids);
            assert(row_views(rows@) == before.push(ids_of_line(line)));
            y += 1;
        }
        assert(id_rows(s@).take(text_rows.len() as int) == id_rows(s@));
        Self::from_rows(&rows, width, height)
    }

    /// Writes the tilemap as text: a row to a line, the ids of a row in
    /// decimal with commas between them, without the empty cells at the end
    /// of each row.
    pub fn store(&self) -> (r: String)
        ensures
            r@ == id_grid_text(self@),
    {
        let mut rows: Vec<String> = Vec::new();
        let mut y: usize = 0;
        let ghost texts = Seq::new(self@.height, |y: int| id_row_text(self@.row(y)));
        proof {
            reveal_strlit(",");
            reveal_strlit("\n");
            assert(","@ == seq![',']);
            assert("\n"@ == seq!['\n']);
        }
        while y < self.height
            invariant
                y <= self.height,
                texts == Seq::new(self@.height, |y: int| id_row_text(self@.row(y))),
                string_views(rows@) == texts.take(y as int),
                ","@ == seq![','],
            decreases self.height - y,
        {
            let n = self.trimmed_len(y);
            let _cells = self.data.len();
            assert(0 <= y * self.width) by (nonlinear_arith)
                requires
                    y >= 0,
                    self.width >= 0,
            ;
            let start = y * self.width;
            let ghost kept = self@.row(y as int).take(n as int);
            assert((y + 1) * self.width == y * self.width + self.width) by (nonlinear_arith);
            let mut ids: Vec<String> = Vec::new();
            let mut x: usize = 0;
            while x < n
                invariant
                    x <= n <= self.width,
                    start == y * self.width,
                    start + self.width <= self.data@.len(),
                    kept == self@.row(y as int).take(n as int),
                    (y + 1) * self.width == y * self.width + self.width,
                    string_views(ids@) == kept.map_values(|id: i32| decimal_text(id as int)).take(
                        x as int,
                    ),
                decreases n - x,
            {
                let _cells = self.data.len();
                let ghost before = string_views(ids@);
                let id = self.data[start + x];
                assert(id == kept[x as int]);
                ids.push(format_i32(id));
                assert(string_views(ids@) == before.push(decimal_text(id as int)));
                x += 1;
            }
            assert(kept.map_values(|id: i32| decimal_text(id as int)).take(n as int)
                == kept.map_values(|id: i32| decimal_text(id as int)));
            let ghost before = string_views(rows@);
            let row = join_strings(&ids, ",");
            assert(row@ == texts[y as int]);
            rows.push(row);
            assert(string_views(rows@) == before.push(texts[y as int]));
            y += 1;
        }
        assert(texts.take(self.height as int) == texts);
        join_strings(&rows, "\n")
    }
}

/// A row without the empty cells at its end is the front of the row; the
/// cells behind it are empty, and its last cell is not.
pub proof fn lemma_trim_empty<T>(row: Seq<T>, empty: T)
    ensures
        trim_empty(row, empty).len() <= row.len(),
        trim_empty(row, empty) == row.take(trim_empty(row, empty).len() as int),
        forall|x: int| trim_empty(row, empty).len() <= x < row.len() ==> #[trigger] row[x] == empty,
        trim_empty(row, empty).len() > 0 ==> trim_empty(row, empty).last() != empty,
    decreases row.len(),
{
    if row.len() > 0 && row.last() == empty {
        let front = row.drop_last();
        lemma_trim_empty(front, empty);
        let n = trim_empty(front, empty).len() as int;
        assert(front.take(n) == row.take(n));
        assert forall|x: int| n <= x < row.len() implies #[trigger] row[x] == empty by {
            if x < front.len() {
                assert(front[x] == row[x]);
            }
        }
    } else {
        assert(row.take(row.len() as int) == row);
    }
}

/// The cells of a row are the cells of the grid in that row.
pub proof fn lemma_row<T>(g: Grid<T>, y: int)
    requires
        g.well_formed(),
        0 <= y < g.height,
    ensures
        g.row(y).len() == g.width,
        forall|x: int| 0 <= x < g.width ==> #[trigger] g.row(y)[x] == g.cell(x, y),
{
    assert(0 <= y * g.width && (y + 1) * g.width <= g.width * g.height && (y + 1) * g.width == y
        * g.width + g.width) by (nonlinear_arith)
        requires
            0 <= y < g.height,
    ;
}

/// Whether the text of a grid of characters can be read back: no cell holds
/// a line feed, and in no row but the last is a carriage return the last
/// cell that is not empty. A line feed would end its row early, and such a
/// carriage return would be taken for a part of the line ending.
pub open spec fn readable(g: Grid<char>) -> bool {
    &&& forall|i: int| 0 <= i < g.cells.len() ==> #[trigger] g.cells[i] != '\n'
    &&& forall|y: int|
        0 <= y < g.height - 1 ==> strip_cr(#[trigger] trim_empty(g.row(y), '0')) == trim_empty(
            g.row(y),
            '0',
        )
}

/// A grid of characters that can be read back comes back from its text.
pub proof fn lemma_char_grid_round_trip(g: Grid<char>)
    requires
        g.well_formed(),
        readable(g),
    ensures
        grid_from_rows(lines(char_grid_text(g)), g.width, g.height, '0') == g,
{
    let rows = g.trimmed_rows('0');
    assert forall|y: int| 0 <= y < rows.len() implies !has_char(#[trigger] rows[y], '\n') by {
        lemma_row(g, y);
        lemma_trim_empty(g.row(y), '0');
        if has_char(rows[y], '\n') {
            let x = choose|x: int| 0 <= x < rows[y].len() && #[trigger] rows[y][x] == '\n';
            assert(g.row(y)[x] == '\n');
            lemma_cell_index(g.width, g.height, x, y);
        }
    }
    crate::text::lemma_lines_of_join(rows);
    let read = joined_lines(rows);
    let back = grid_from_rows(read, g.width, g.height, '0');
    assert forall|i: int| 0 <= i < g.cells.len() implies back.cells[i] == g.cells[i] by {
        lemma_index_cell(g.width, g.height, i);
        let x = i % (g.width as int);
        let y = i / (g.width as int);
        lemma_row(g, y);
        lemma_trim_empty(g.row(y), '0');
        crate::text::lemma_joined_lines(rows, y);
        assert(g.row(y)[x] == g.cells[i]);
        if y < read.len() {
            assert(read[y] == rows[y]);
            if x < rows[y].len() {
                assert(rows[y][x] == g.row(y).take(rows[y].len() as int)[x]);
            }
        }
    }
    assert(back.cells =~= g.cells);
}

/// The text of an id is read back as that id.
pub proof fn lemma_id_field(id: i32)
    ensures
        id_of_field(decimal_text(id as int)) == id,
        !has_char(decimal_text(id as int), ','),
        !has_char(decimal_text(id as int), '\n'),
        decimal_text(id as int).len() > 0,
{
    let s = decimal_text(id as int);
    crate::text::lemma_decimal_text_chars(id as int);
    crate::text::lemma_parse_decimal_text(id);
    assert(is_digit(s[0]) || s[0] == '-');
    assert(is_digit(s.last()) || s.last() == '-');
    crate::text::lemma_trim_nothing(s);
    if has_char(s, ',') {
        let k = choose|k: int| 0 <= k < s.len() && #[trigger] s[k] == ',';
        assert(is_digit(s[k]) || s[k] == '-');
    }
    if has_char(s, '\n') {
        let k = choose|k: int| 0 <= k < s.len() && #[trigger] s[k] == '\n';
        assert(is_digit(s[k]) || s[k] == '-');
    }
}

/// A text joined from at least one part is at least as long as its last
/// part.
pub proof fn lemma_join_len(parts: Seq<Seq<char>>, sep: Seq<char>)
    requires
        parts.len() >= 1,
    ensures
        join(parts, sep).len() >= parts.last().len(),
{
}

/// The ids that the text of a row holds: the row without the empty cells at
/// its end, or one empty cell where nothing is left of the row.
pub proof fn lemma_id_row(row: Seq<i32>)
    ensures
        !has_char(id_row_text(row), '\n'),
        trim_empty(row, -1i32).len() > 0 ==> ids_of_line(id_row_text(row)) == trim_empty(row, -1i32)
            && id_row_text(row).len() > 0,
        trim_empty(row, -1i32).len() == 0 ==> ids_of_line(id_row_text(row)) == seq![-1i32]
            && id_row_text(row).len() == 0,
        strip_cr(id_row_text(row)) == id_row_text(row),
{
    let kept = trim_empty(row, -1i32);
    let parts = kept.map_values(|id: i32| decimal_text(id as int));
    let text = id_row_text(row);
    assert forall|i: int| 0 <= i < parts.len() implies !has_char(#[trigger] parts[i], ',')
        && !has_char(parts[i], '\n') && !has_char(parts[i], '\r') by {
        lemma_id_field(kept[i]);
        crate::text::lemma_decimal_text_chars(kept[i] as int);
        if has_char(parts[i], '\r') {
            let k = choose|k: int| 0 <= k < parts[i].len() && #[trigger] parts[i][k] == '\r';
            assert(is_digit(parts[i][k]) || parts[i][k] == '-');
        }
    }
    assert(!has_char(seq![','], '\n'));
    assert(!has_char(seq![','], '\r'));
    crate::text::lemma_join_chars(parts, seq![','], '\n');
    crate::text::lemma_join_chars(parts, seq![','], '\r');
    if text.len() > 0 && text.last() == '\r' {
        assert(text[text.len() - 1] == '\r');
    }
    if kept.len() > 0 {
        crate::text::lemma_fields_of_join(parts, ',');
        lemma_join_len(parts, seq![',']);
        lemma_id_field(kept.last());
        assert(ids_of_line(text) =~= kept) by {
            assert forall|i: int| 0 <= i < kept.len() implies ids_of_line(text)[i] == kept[i] by {
                lemma_id_field(kept[i]);
            }
        }
    } else {
        assert(text.len() == 0);
        assert(fields(text, ',') =~= seq![text]);
        assert(spec_parse_i32(trim(text)) is None);
        assert(ids_of_line(text) =~= seq![-1i32]);
    }
}

/// A grid of ids comes back from its text.
pub proof fn lemma_id_grid_round_trip(g: Grid<i32>)
    requires
        g.well_formed(),
    ensures
        grid_from_rows(id_rows(id_grid_text(g)), g.width, g.height, -1i32) == g,
{
    let rows = Seq::new(g.height, |y: int| id_row_text(g.row(y)));
    assert forall|y: int| 0 <= y < rows.len() implies !has_char(#[trigger] rows[y], '\n') by {
        lemma_id_row(g.row(y));
    }
    crate::text::lemma_lines_of_join(rows);
    let read = joined_lines(rows);
    let ids = id_rows(id_grid_text(g));
    assert(ids.len() == read.len());
    let back = grid_from_rows(ids, g.width, g.height, -1i32);
    assert forall|i: int| 0 <= i < g.cells.len() implies back.cells[i] == g.cells[i] by {
        lemma_index_cell(g.width, g.height, i);
        let x = i % (g.width as int);
        let y = i / (g.width as int);
        lemma_row(g, y);
        let row = g.row(y);
        let kept = trim_empty(row, -1i32);
        lemma_trim_empty(row, -1i32);
        lemma_id_row(row);
        crate::text::lemma_joined_lines(rows, y);
        assert(row[x] == g.cells[i]);
        if y < read.len() {
            assert(read[y] == rows[y]);
            assert(ids[y] == ids_of_line(rows[y]));
            if kept.len() > 0 {
                if x < kept.len() {
                    assert(kept[x] == row.take(kept.len() as int)[x]);
                }
            }
        }
    }
    assert(back.cells =~= g.cells);
}

/// The grid that is read from lines holds no line feed.
pub proof fn lemma_lines_hold_no_line_feed(text: Seq<char>, y: int)
    requires
        0 <= y < lines(text).len(),
    ensures
        !has_char(lines(text)[y], '\n'),
    decreases text.len(),
{
    let i = crate::text::index_of(text, '\n');
    crate::text::lemma_index_of(text, '\n');
    if text.len() == 0 {
    } else if 0 <= i < text.len() {
        if y == 0 {
            let line = strip_cr(text.take(i));
            if has_char(line, '\n') {
                let k = choose|k: int| 0 <= k < line.len() && #[trigger] line[k] == '\n';
                assert(text[k] == '\n');
            }
        } else {
            lemma_lines_hold_no_line_feed(text.skip(i + 1), y - 1);
        }
    } else {
        if has_char(text, '\n') {
            let k = choose|k: int| 0 <= k < text.len() && #[trigger] text[k] == '\n';
        }
    }
}

/// A grid of characters that is read from a text is well formed and holds
/// no line feed.
pub proof fn lemma_char_grid_read(text: Seq<char>, width: nat, height: nat)
    ensures
        grid_from_rows(lines(text), width, height, '0').well_formed(),
        forall|i: int|
            0 <= i < width * height ==> #[trigger] grid_from_rows(
                lines(text),
                width,
                height,
                '0',
            ).cells[i] != '\n',
{
    let g = grid_from_rows(lines(text), width, height, '0');
    assert forall|i: int| 0 <= i < width * height implies #[trigger] g.cells[i] != '\n' by {
        let x = i % (width as int);
        let y = i / (width as int);
        if 0 <= y < lines(text).len() && 0 <= x < lines(text)[y].len() {
            lemma_lines_hold_no_line_feed(text, y);
            if g.cells[i] == '\n' {
                assert(lines(text)[y][x] == '\n');
            }
        }
    }
}

} // verus!
