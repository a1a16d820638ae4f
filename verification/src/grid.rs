//! Grids of pixels: rows of equal or unequal length, addressed by column
//! `x` and row `y`.

use vstd::prelude::*;
use core::ops::IndexMut;
use crate::channel::Channel;
use crate::pixel::Pixel;

verus! {

/// Whether `(x, y)` is a cell of the grid.
pub open spec fn in_grid<T>(grid: Seq<Vec<Pixel<T>>>, x: int, y: int) -> bool {
    0 <= y < grid.len() && 0 <= x < grid[y].len()
}

/// Whether `(x, y)` lies in the rectangle that starts at `(x_start, y_start)`
/// and is `x_length` wide and `y_length` high.
pub open spec fn in_rect(
    x_start: int,
    x_length: int,
    y_start: int,
    y_length: int,
    x: int,
    y: int,
) -> bool {
    x_start <= x < x_start + x_length && y_start <= y < y_start + y_length
}

/// Whether the whole rectangle lies in the grid.
pub open spec fn has_rect<T>(
    grid: Seq<Vec<Pixel<T>>>,
    x_start: int,
    x_length: int,
    y_start: int,
    y_length: int,
) -> bool {
    &&& 0 <= x_start
    &&& 0 <= y_start
    &&& 0 <= x_length
    &&& 0 <= y_length
    &&& y_start + y_length <= grid.len()
    &&& forall|y: int|
        y_start <= y < y_start + y_length ==> x_start + x_length <= (#[trigger] grid[y]).len()
}

/// Whether two grids have the same rows of the same lengths.
pub open spec fn same_shape<T, U>(a: Seq<Vec<Pixel<T>>>, b: Seq<Vec<Pixel<U>>>) -> bool {
    &&& a.len() == b.len()
    &&& forall|y: int| 0 <= y < a.len() ==> (#[trigger] a[y]).len() == b[y].len()
}

/// Whether the grid has `height` rows of `width` cells each.
pub open spec fn is_rectangular<T>(grid: Seq<Vec<Pixel<T>>>, width: int, height: int) -> bool {
    &&& grid.len() == height
    &&& forall|y: int| 0 <= y < height ==> (#[trigger] grid[y]).len() == width
}

/// The value that the grid holds for channel `c` of the cell `(x, y)`.
pub open spec fn value_at<T>(grid: Seq<Vec<Pixel<T>>>, x: int, y: int, c: Channel) -> T {
    grid[y]@[x].channel(c)
}

/// The values that a grid of fixed-point samples holds for channel `c`, row
/// by row.
pub open spec fn samples(grid: Seq<Vec<Pixel<i128>>>, c: Channel) -> Seq<Seq<int>> {
    Seq::new(grid.len(), |y: int| Seq::new(grid[y]@.len(), |x: int| grid[y]@[x].channel(c) as int))
}

/// The values that a grid of bytes holds for channel `c`, row by row.
pub open spec fn levels(grid: Seq<Vec<Pixel<u8>>>, c: Channel) -> Seq<Seq<int>> {
    Seq::new(grid.len(), |y: int| Seq::new(grid[y]@.len(), |x: int| grid[y]@[x].channel(c) as int))
}

/// A grid of `height` rows of `width` cells that all hold `value`.
pub fn filled<T: Copy>(value: T, width: usize, height: usize) -> (grid: Vec<Vec<T>>)
    ensures
        grid@.len() == height,
        forall|y: int| 0 <= y < height ==> (#[trigger] grid@[y])@.len() == width,
        forall|x: int, y: int| 0 <= y < height && 0 <= x < width ==> #[trigger] grid@[y]@[x] == value,
{
    let mut grid: Vec<Vec<T>> = Vec::new();
    let mut y: usize = 0;
    while y < height
        invariant
            y <= height,
            grid@.len() == y,
            forall|j: int| 0 <= j < y ==> (#[trigger] grid@[j])@.len() == width,
            forall|i: int, j: int| 0 <= j < y && 0 <= i < width ==> #[trigger] grid@[j]@[i] == value,
        decreases height - y,
    {
        let mut row: Vec<T> = Vec::new();
        let mut x: usize = 0;
        while x < width
            invariant
                x <= width,
                row@.len() == x,
                forall|i: int| 0 <= i < x ==> #[trigger] row@[i] == value,
            decreases width - x,
        {
            row.push(value);
            x += 1;
        }
        grid.push(row);
        y += 1;
    }
    grid
}

/// The rows of a grid with what they hold.
pub open spec fn rows<T>(grid: Seq<Vec<T>>) -> Seq<Seq<T>> {
    Seq::new(grid.len(), |y: int| grid[y]@)
}

/// A grid of its own that holds the values of `grid`.
pub fn copied<T: Copy>(grid: &Vec<Vec<T>>) -> (copy: Vec<Vec<T>>)
    ensures
        copy@.len() == grid@.len(),
        forall|y: int| 0 <= y < grid@.len() ==> (#[trigger] copy@[y])@ == grid@[y]@,
{
    let mut copy: Vec<Vec<T>> = Vec::new();
    let mut y: usize = 0;
    while y < grid.len()
        invariant
            y <= grid@.len(),
            copy@.len() == y,
            forall|j: int| 0 <= j < y ==> (#[trigger] copy@[j])@ == grid@[j]@,
        decreases grid@.len() - y,
    {
        let mut row: Vec<T> = Vec::new();
        let mut x: usize = 0;
        while x < grid[y].len()
            invariant
                y < grid@.len(),
                x <= grid@[y as int]@.len(),
                row@.len() == x,
                forall|i: int| 0 <= i < x ==> #[trigger] row@[i] == grid@[y as int]@[i],
            decreases grid@[y as int]@.len() - x,
        {
            row.push(grid[y][x]);
            x += 1;
        }
        assert(row@ =~= grid@[y as int]@);
        copy.push(row);
        y += 1;
    }
    copy
}

/// Stores `value` for channel `c` in the cell `(x, y)` and leaves all else
/// as it is.
pub fn put<T>(grid: &mut Vec<Vec<Pixel<T>>>, x: usize, y: usize, c: &Channel, value: T)
    requires
        in_grid(old(grid)@, x as int, y as int),
    ensures
        final(grid)@.len() == old(grid)@.len(),
        forall|yy: int| 0 <= yy < old(grid)@.len() && yy != y ==> final(grid)@[yy] == old(grid)@[yy],
        final(grid)@[y as int]@ == old(grid)@[y as int]@.update(
            x as int,
            old(grid)@[y as int]@[x as int].with(*c, value),
        ),
{
    *grid[y][x].index_mut(c) = value;
}

} // verus!
