//! Planes: the values of one channel of a grid, row by row, as whole
//! numbers.

use vstd::prelude::*;
use crate::channel::Channel;
use crate::grid::{has_rect, in_rect, samples};
use crate::pixel::Pixel;

verus! {

/// Whether every cell of the rectangle is a cell of the plane.
pub open spec fn covers(
    plane: Seq<Seq<int>>,
    x_start: int,
    x_length: int,
    y_start: int,
    y_length: int,
) -> bool {
    &&& 0 <= x_start
    &&& 0 <= y_start
    &&& 0 <= x_length
    &&& 0 <= y_length
    &&& y_start + y_length <= plane.len()
    &&& forall|y: int|
        y_start <= y < y_start + y_length ==> x_start + x_length <= (#[trigger] plane[y]).len()
}

/// Whether every sample of the rectangle has a magnitude of at most `limit`.
pub open spec fn within(
    plane: Seq<Seq<int>>,
    x_start: int,
    x_length: int,
    y_start: int,
    y_length: int,
    limit: int,
) -> bool {
    forall|x: int, y: int|
        in_rect(x_start, x_length, y_start, y_length, x, y) ==> -limit <= (#[trigger] plane[y][x])
            <= limit
}

/// Whether two planes have the same rows of the same lengths.
pub open spec fn same_extent(a: Seq<Seq<int>>, b: Seq<Seq<int>>) -> bool {
    &&& a.len() == b.len()
    &&& forall|y: int| 0 <= y < a.len() ==> (#[trigger] a[y]).len() == b[y].len()
}

/// Whether every sample of the rectangle is a multiple of `m`.
pub open spec fn multiples(
    plane: Seq<Seq<int>>,
    x_start: int,
    x_length: int,
    y_start: int,
    y_length: int,
    m: int,
) -> bool {
    forall|x: int, y: int|
        in_rect(x_start, x_length, y_start, y_length, x, y) ==> (#[trigger] plane[y][x]) % m == 0
}

/// A plane covers the rectangles that a plane of the same extent covers.
pub proof fn lemma_same_extent_covers(
    a: Seq<Seq<int>>,
    b: Seq<Seq<int>>,
    x_start: int,
    x_length: int,
    y_start: int,
    y_length: int,
)
    requires
        same_extent(a, b),
        covers(b, x_start, x_length, y_start, y_length),
    ensures
        covers(a, x_start, x_length, y_start, y_length),
{
    assert forall|y: int| y_start <= y < y_start + y_length implies x_start + x_length <= (
    #[trigger] a[y]).len() by {
        assert(x_start + x_length <= b[y].len());
    }
}

/// The samples of a grid cover the rectangles that the grid has.
pub proof fn lemma_samples_cover(
    grid: Seq<Vec<Pixel<i128>>>,
    c: Channel,
    x_start: int,
    x_length: int,
    y_start: int,
    y_length: int,
)
    requires
        has_rect(grid, x_start, x_length, y_start, y_length),
    ensures
        covers(samples(grid, c), x_start, x_length, y_start, y_length),
{
    assert forall|y: int| y_start <= y < y_start + y_length implies x_start + x_length <= (
    #[trigger] samples(grid, c)[y]).len() by {
        assert(x_start + x_length <= grid[y].len());
    }
}

} // verus!
