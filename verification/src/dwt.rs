//! Wavelet transform of a block by repeated averaging and differencing.
//!
//! One step takes the samples of a rectangle in pairs along one axis and
//! stores the half sum of each pair in the first half of that axis and the
//! half difference in the second half. The forward transform applies a row
//! step and a column step, halves the rectangle, and goes on until nothing is
//! left to halve. The inverse transform undoes the steps in reverse order,
//! from the smallest square up.
//!
//! Samples are fixed-point numbers held in `i128`. Halving rounds down; it is
//! exact wherever the sum and the difference of a pair are even.

use vstd::prelude::*;
use core::ops::Index;
use crate::channel::Channel;
use crate::grid::{has_rect, in_grid, in_rect, is_rectangular, put, same_shape, samples};
use crate::pixel::Pixel;
use crate::plane::{covers, lemma_samples_cover, within};
use crate::truncate::{dwt_truncate, truncate_block};

verus! {

/// The largest magnitude of a sample that one step of the transform takes.
pub const SAMPLE_LIMIT: i128 = 0x3fff_ffff_ffff_ffff_ffff_ffff_ffff_ffff;

/// The sample that one forward step leaves at `(x, y)`. Outside the
/// rectangle nothing changes. Inside, along the axis of the step, the first
/// half holds the half sums of the pairs, the second half their half
/// differences, and the last place of an odd length holds zero.
pub open spec fn dwt_step_value(
    plane: Seq<Seq<int>>,
    by_row: bool,
    x_start: int,
    x_length: int,
    y_start: int,
    y_length: int,
    x: int,
    y: int,
) -> int {
    if !in_rect(x_start, x_length, y_start, y_length, x, y) {
        plane[y][x]
    } else if by_row {
        let half = x_length / 2;
        let k = x - x_start;
        if k < half {
            (plane[y][x_start + 2 * k] + plane[y][x_start + 2 * k + 1]) / 2
        } else if k < 2 * half {
            (plane[y][x_start + 2 * (k - half)] - plane[y][x_start + 2 * (k - half) + 1]) / 2
        } else {
            0
        }
    } else {
        let half = y_length / 2;
        let k = y - y_start;
        if k < half {
            (plane[y_start + 2 * k][x] + plane[y_start + 2 * k + 1][x]) / 2
        } else if k < 2 * half {
            (plane[y_start + 2 * (k - half)][x] - plane[y_start + 2 * (k - half) + 1][x]) / 2
        } else {
            0
        }
    }
}

/// The plane after one forward step on the rectangle.
pub open spec fn dwt_step(
    plane: Seq<Seq<int>>,
    by_row: bool,
    x_start: int,
    x_length: int,
    y_start: int,
    y_length: int,
) -> Seq<Seq<int>> {
    Seq::new(
        plane.len(),
        |y: int|
            Seq::new(
                plane[y].len(),
                |x: int| dwt_step_value(plane, by_row, x_start, x_length, y_start, y_length, x, y),
            ),
    )
}

/// The sample that one inverse step leaves at `(x, y)`. Outside the
/// rectangle nothing changes. Inside, along the axis of the step, each pair
/// of places holds the sum and the difference of a value from the first half
/// and its partner from the second half, and the last place of an odd length
/// holds zero.
pub open spec fn idwt_step_value(
    plane: Seq<Seq<int>>,
    by_row: bool,
    x_start: int,
    x_length: int,
    y_start: int,
    y_length: int,
    x: int,
    y: int,
) -> int {
    if !in_rect(x_start, x_length, y_start, y_length, x, y) {
        plane[y][x]
    } else if by_row {
        let half = x_length / 2;
        let k = x - x_start;
        if k >= 2 * half {
            0
        } else if k % 2 == 0 {
            plane[y][x_start + k / 2] + plane[y][x_start + half + k / 2]
        } else {
            plane[y][x_start + k / 2] - plane[y][x_start + half + k / 2]
        }
    } else {
        let half = y_length / 2;
        let k = y - y_start;
        if k >= 2 * half {
            0
        } else if k % 2 == 0 {
            plane[y_start + k / 2][x] + plane[y_start + half + k / 2][x]
        } else {
            plane[y_start + k / 2][x] - plane[y_start + half + k / 2][x]
        }
    }
}

/// The plane after one inverse step on the rectangle.
pub open spec fn idwt_step(
    plane: Seq<Seq<int>>,
    by_row: bool,
    x_start: int,
    x_length: int,
    y_start: int,
    y_length: int,
) -> Seq<Seq<int>> {
    Seq::new(
        plane.len(),
        |y: int|
            Seq::new(
                plane[y].len(),
                |x: int| idwt_step_value(plane, by_row, x_start, x_length, y_start, y_length, x, y),
            ),
    )
}

/// Half of `v`, rounded down.
fn half(v: i128) -> (h: i128)
    requires
        -2 * SAMPLE_LIMIT <= v <= 2 * SAMPLE_LIMIT,
    ensures
        h == v / 2,
{
    if v >= 0 {
        v / 2
    } else {
        (v - 1) / 2
    }
}

/// The sample of channel `c` in the cell `(x, y)`.
fn sample(grid: &Vec<Vec<Pixel<i128>>>, c: &Channel, x: usize, y: usize) -> (v: i128)
    requires
        in_grid(grid@, x as int, y as int),
    ensures
        v == samples(grid@, *c)[y as int][x as int],
{
    *grid[y][x].index(c)
}

/// Replaces the samples of channel `c` in the rectangle by those of `values`,
/// which holds the rectangle's rows.
fn store(
    grid: &mut Vec<Vec<Pixel<i128>>>,
    c: &Channel,
    values: &Vec<Vec<i128>>,
    x_start: usize,
    x_length: usize,
    y_start: usize,
    y_length: usize,
)
    requires
        has_rect(old(grid)@, x_start as int, x_length as int, y_start as int, y_length as int),
        values@.len() == y_length,
        forall|y: int| 0 <= y < y_length ==> (#[trigger] values@[y])@.len() == x_length,
    ensures
        same_shape(final(grid)@, old(grid)@),
        forall|x: int, y: int|
            in_grid(old(grid)@, x, y) ==> #[trigger] samples(final(grid)@, *c)[y][x] == if in_rect(
                x_start as int,
                x_length as int,
                y_start as int,
                y_length as int,
                x,
                y,
            ) {
                values@[y - y_start]@[x - x_start] as int
            } else {
                samples(old(grid)@, *c)[y][x]
            },
        forall|other: Channel|
            other != *c ==> samples(final(grid)@, other) == samples(old(grid)@, other),
{
    let mut y: usize = 0;
    while y < y_length
        invariant
            y <= y_length,
            has_rect(grid@, x_start as int, x_length as int, y_start as int, y_length as int),
            values@.len() == y_length,
            forall|j: int| 0 <= j < y_length ==> (#[trigger] values@[j])@.len() == x_length,
            same_shape(grid@, old(grid)@),
            forall|i: int, j: int|
                in_grid(old(grid)@, i, j) ==> #[trigger] grid@[j]@[i] == if in_rect(
                    x_start as int,
                    x_length as int,
                    y_start as int,
                    y as int,
                    i,
                    j,
                ) {
                    old(grid)@[j]@[i].with(*c, values@[j - y_start]@[i - x_start])
                } else {
                    old(grid)@[j]@[i]
                },
        decreases y_length - y,
    {
        let mut x: usize = 0;
        assert(y_start + y_length <= grid.len());
        assert(x_start + x_length <= grid@[y_start + y].len());
        while x < x_length
            invariant
                x <= x_length,
                y < y_length,
                y_start + y < grid.len(),
                x_start + x_length <= grid@[y_start + y].len(),
                has_rect(grid@, x_start as int, x_length as int, y_start as int, y_length as int),
                values@.len() == y_length,
                forall|j: int| 0 <= j < y_length ==> (#[trigger] values@[j])@.len() == x_length,
                same_shape(grid@, old(grid)@),
                forall|i: int, j: int|
                    in_grid(old(grid)@, i, j) ==> #[trigger] grid@[j]@[i] == if in_rect(
                        x_start as int,
                        x_length as int,
                        y_start as int,
                        y as int,
                        i,
                        j,
                    ) || (j == y_start + y && x_start <= i < x_start + x) {
                        old(grid)@[j]@[i].with(*c, values@[j - y_start]@[i - x_start])
                    } else {
                        old(grid)@[j]@[i]
                    },
            decreases x_length - x,
        {
            put(grid, x_start + x, y_start + y, c, values[y][x]);
            x += 1;
        }
        y += 1;
    }
    proof {
        assert forall|other: Channel| other != *c implies samples(grid@, other) == samples(
            old(grid)@,
            other,
        ) by {
            assert forall|i: int, j: int| in_grid(old(grid)@, i, j) implies samples(grid@, other)[j][i]
                == samples(old(grid)@, other)[j][i] by {
                assert(grid@[j]@[i].channel(other) == old(grid)@[j]@[i].channel(other));
            }
            assert(samples(grid@, other) =~~= samples(old(grid)@, other));
        }
        assert forall|i: int, j: int| in_grid(old(grid)@, i, j) implies #[trigger] samples(
            grid@,
            *c,
        )[j][i] == if in_rect(
            x_start as int,
            x_length as int,
            y_start as int,
            y_length as int,
            i,
            j,
        ) {
            values@[j - y_start]@[i - x_start] as int
        } else {
            samples(old(grid)@, *c)[j][i]
        } by {
            assert(samples(grid@, *c)[j][i] == grid@[j]@[i].channel(*c));
        }
    }
}

/// The sample that a forward step leaves at the place `(x, y)` of the
/// rectangle.
fn lifted(
    grid: &Vec<Vec<Pixel<i128>>>,
    c: &Channel,
    by_row: bool,
    x_start: usize,
    x_length: usize,
    y_start: usize,
    y_length: usize,
    x: usize,
    y: usize,
) -> (v: i128)
    requires
        has_rect(grid@, x_start as int, x_length as int, y_start as int, y_length as int),
        within(
            samples(grid@, *c),
            x_start as int,
            x_length as int,
            y_start as int,
            y_length as int,
            SAMPLE_LIMIT as int,
        ),
        x < x_length,
        y < y_length,
    ensures
        v == dwt_step_value(
            samples(grid@, *c),
            by_row,
            x_start as int,
            x_length as int,
            y_start as int,
            y_length as int,
            x_start + x,
            y_start + y,
        ),
{
    assert(y_start + y_length <= grid.len());
    assert(x_start + x_length <= grid@[y_start + y].len());
    if by_row {
        let half_length = x_length / 2;
        if x < half_length {
            let pixel_1 = sample(grid, c, x_start + 2 * x, y_start + y);
            let pixel_2 = sample(grid, c, x_start + 2 * x + 1, y_start + y);
            half(pixel_1 + pixel_2)
        } else if x - half_length < half_length {
            let k = x - half_length;
            let pixel_1 = sample(grid, c, x_start + 2 * k, y_start + y);
            let pixel_2 = sample(grid, c, x_start + 2 * k + 1, y_start + y);
            half(pixel_1 - pixel_2)
        } else {
            0
        }
    } else {
        let half_length = y_length / 2;
        if y < half_length {
            assert(x_start + x_length <= grid@[y_start + 2 * y].len());
            assert(x_start + x_length <= grid@[y_start + 2 * y + 1].len());
            let pixel_1 = sample(grid, c, x_start + x, y_start + 2 * y);
            let pixel_2 = sample(grid, c, x_start + x, y_start + 2 * y + 1);
            half(pixel_1 + pixel_2)
        } else if y - half_length < half_length {
            let k = y - half_length;
            assert(x_start + x_length <= grid@[y_start + 2 * k].len());
            assert(x_start + x_length <= grid@[y_start + 2 * k + 1].len());
            let pixel_1 = sample(grid, c, x_start + x, y_start + 2 * k);
            let pixel_2 = sample(grid, c, x_start + x, y_start + 2 * k + 1);
            half(pixel_1 - pixel_2)
        } else {
            0
        }
    }
}

/// The sample that an inverse step leaves at the place `(x, y)` of the
/// rectangle.
fn lowered(
    grid: &Vec<Vec<Pixel<i128>>>,
    c: &Channel,
    by_row: bool,
    x_start: usize,
    x_length: usize,
    y_start: usize,
    y_length: usize,
    x: usize,
    y: usize,
) -> (v: i128)
    requires
        has_rect(grid@, x_start as int, x_length as int, y_start as int, y_length as int),
        within(
            samples(grid@, *c),
            x_start as int,
            x_length as int,
            y_start as int,
            y_length as int,
            SAMPLE_LIMIT as int,
        ),
        x < x_length,
        y < y_length,
    ensures
        v == idwt_step_value(
            samples(grid@, *c),
            by_row,
            x_start as int,
            x_length as int,
            y_start as int,
            y_length as int,
            x_start + x,
            y_start + y,
        ),
{
    assert(y_start + y_length <= grid.len());
    assert(x_start + x_length <= grid@[y_start + y].len());
    if by_row {
        let half_length = x_length / 2;
        if x / 2 >= half_length {
            0
        } else {
            let average = sample(grid, c, x_start + x / 2, y_start + y);
            let difference = sample(grid, c, x_start + half_length + x / 2, y_start + y);
            if x % 2 == 0 {
                average + difference
            } else {
                average - difference
            }
        }
    } else {
        let half_length = y_length / 2;
        if y / 2 >= half_length {
            0
        } else {
            assert(x_start + x_length <= grid@[y_start + y / 2].len());
            assert(x_start + x_length <= grid@[y_start + half_length + y / 2].len());
            let average = sample(grid, c, x_start + x, y_start + y / 2);
            let difference = sample(grid, c, x_start + x, y_start + half_length + y / 2);
            if y % 2 == 0 {
                average + difference
            } else {
                average - difference
            }
        }
    }
}

/// The samples that a step leaves in the rectangle, row by row: those of an
/// inverse step if `inverse` is set, else those of a forward step.
fn stepped(
    grid: &Vec<Vec<Pixel<i128>>>,
    c: &Channel,
    inverse: bool,
    by_row: bool,
    x_start: usize,
    x_length: usize,
    y_start: usize,
    y_length: usize,
) -> (tmp_block: Vec<Vec<i128>>)
    requires
        has_rect(grid@, x_start as int, x_length as int, y_start as int, y_length as int),
        within(
            samples(grid@, *c),
            x_start as int,
            x_length as int,
            y_start as int,
            y_length as int,
            SAMPLE_LIMIT as int,
        ),
    ensures
        tmp_block@.len() == y_length,
        forall|y: int| 0 <= y < y_length ==> (#[trigger] tmp_block@[y])@.len() == x_length,
        forall|x: int, y: int|
            0 <= y < y_length && 0 <= x < x_length ==> #[trigger] tmp_block@[y]@[x] == if inverse {
                idwt_step_value(
                    samples(grid@, *c),
                    by_row,
                    x_start as int,
                    x_length as int,
                    y_start as int,
                    y_length as int,
                    x_start + x,
                    y_start + y,
                )
            } else {
                dwt_step_value(
                    samples(grid@, *c),
                    by_row,
                    x_start as int,
                    x_length as int,
                    y_start as int,
                    y_length as int,
                    x_start + x,
                    y_start + y,
                )
            },
{
    let mut tmp_block: Vec<Vec<i128>> = Vec::new();
    let mut y: usize = 0;
    while y < y_length
        invariant
            y <= y_length,
            has_rect(grid@, x_start as int, x_length as int, y_start as int, y_length as int),
            within(
                samples(grid@, *c),
                x_start as int,
                x_length as int,
                y_start as int,
                y_length as int,
                SAMPLE_LIMIT as int,
            ),
            tmp_block@.len() == y,
            forall|j: int| 0 <= j < y ==> (#[trigger] tmp_block@[j])@.len() == x_length,
            forall|i: int, j: int|
                0 <= j < y && 0 <= i < x_length ==> #[trigger] tmp_block@[j]@[i] == if inverse {
                    idwt_step_value(
                        samples(grid@, *c),
                        by_row,
                        x_start as int,
                        x_length as int,
                        y_start as int,
                        y_length as int,
                        x_start + i,
                        y_start + j,
                    )
                } else {
                    dwt_step_value(
                        samples(grid@, *c),
                        by_row,
                        x_start as int,
                        x_length as int,
                        y_start as int,
                        y_length as int,
                        x_start + i,
                        y_start + j,
                    )
                },
        decreases y_length - y,
    {
        let mut row: Vec<i128> = Vec::new();
        let mut x: usize = 0;
        while x < x_length
            invariant
                x <= x_length,
                y < y_length,
                has_rect(grid@, x_start as int, x_length as int, y_start as int, y_length as int),
                within(
                    samples(grid@, *c),
                    x_start as int,
                    x_length as int,
                    y_start as int,
                    y_length as int,
                    SAMPLE_LIMIT as int,
                ),
                row@.len() == x,
                forall|i: int|
                    0 <= i < x ==> #[trigger] row@[i] == if inverse {
                        idwt_step_value(
                            samples(grid@, *c),
                            by_row,
                            x_start as int,
                            x_length as int,
                            y_start as int,
                            y_length as int,
                            x_start + i,
                            y_start + y,
                        )
                    } else {
                        dwt_step_value(
                            samples(grid@, *c),
                            by_row,
                            x_start as int,
                            x_length as int,
                            y_start as int,
                            y_length as int,
                            x_start + i,
                            y_start + y,
                        )
                    },
            decreases x_length - x,
        {
            let value = if inverse {
                lowered(grid, c, by_row, x_start, x_length, y_start, y_length, x, y)
            } else {
                lifted(grid, c, by_row, x_start, x_length, y_start, y_length, x, y)
            };
            row.push(value);
            x += 1;
        }
        tmp_block.push(row);
        y += 1;
    }
    tmp_block
}

/// One forward step on the samples of channel `c` in the rectangle: along
/// rows if `by_row` is set, else along columns.
pub fn dwt(
    dwt_block: &mut Vec<Vec<Pixel<i128>>>,
    c: &Channel,
    by_row: bool,
    x_start: usize,
    x_length: usize,
    y_start: usize,
    y_length: usize,
)
    requires
        has_rect(old(dwt_block)@, x_start as int, x_length as int, y_start as int, y_length as int),
        within(
            samples(old(dwt_block)@, *c),
            x_start as int,
            x_length as int,
            y_start as int,
            y_length as int,
            SAMPLE_LIMIT as int,
        ),
    ensures
        same_shape(final(dwt_block)@, old(dwt_block)@),
        samples(final(dwt_block)@, *c) == dwt_step(
            samples(old(dwt_block)@, *c),
            by_row,
            x_start as int,
            x_length as int,
            y_start as int,
            y_length as int,
        ),
        forall|other: Channel|
            other != *c ==> samples(final(dwt_block)@, other) == samples(old(dwt_block)@, other),
{
    let tmp_block = stepped(dwt_block, c, false, by_row, x_start, x_length, y_start, y_length);
    store(dwt_block, c, &tmp_block, x_start, x_length, y_start, y_length);
    assert(samples(dwt_block@, *c) =~~= dwt_step(
        samples(old(dwt_block)@, *c),
        by_row,
        x_start as int,
        x_length as int,
        y_start as int,
        y_length as int,
    ));
}

/// One inverse step on the samples of channel `c` in the rectangle: along
/// rows if `by_row` is set, else along columns.
pub fn idwt(
    dwt_block: &mut Vec<Vec<Pixel<i128>>>,
    c: &Channel,
    by_row: bool,
    x_start: usize,
    x_length: usize,
    y_start: usize,
    y_length: usize,
)
    requires
        has_rect(old(dwt_block)@, x_start as int, x_length as int, y_start as int, y_length as int),
        within(
            samples(old(dwt_block)@, *c),
            x_start as int,
            x_length as int,
            y_start as int,
            y_length as int,
            SAMPLE_LIMIT as int,
        ),
    ensures
        same_shape(final(dwt_block)@, old(dwt_block)@),
        samples(final(dwt_block)@, *c) == idwt_step(
            samples(old(dwt_block)@, *c),
            by_row,
            x_start as int,
            x_length as int,
            y_start as int,
            y_length as int,
        ),
        forall|other: Channel|
            other != *c ==> samples(final(dwt_block)@, other) == samples(old(dwt_block)@, other),
{
    let tmp_block = stepped(dwt_block, c, true, by_row, x_start, x_length, y_start, y_length);
    store(dwt_block, c, &tmp_block, x_start, x_length, y_start, y_length);
    assert(samples(dwt_block@, *c) =~~= idwt_step(
        samples(old(dwt_block)@, *c),
        by_row,
        x_start as int,
        x_length as int,
        y_start as int,
        y_length as int,
    ));
}

/// The plane after the forward transform of the rectangle: a row step and a
/// column step, then the same on the rectangle of half the width and half the
/// height, until neither side is longer than one.
pub open spec fn dwt_forward(
    plane: Seq<Seq<int>>,
    x_start: int,
    x_length: nat,
    y_start: int,
    y_length: nat,
) -> Seq<Seq<int>>
    decreases x_length + y_length,
{
    if x_length <= 1 && y_length <= 1 {
        plane
    } else {
        dwt_forward(
            dwt_step(
                dwt_step(plane, true, x_start, x_length as int, y_start, y_length as int),
                false,
                x_start,
                x_length as int,
                y_start,
                y_length as int,
            ),
            x_start,
            x_length / 2,
            y_start,
            y_length / 2,
        )
    }
}

/// A forward step on a part of a rectangle leaves the magnitudes of the
/// rectangle's samples within the limit they were in.
pub proof fn lemma_dwt_step_within(
    plane: Seq<Seq<int>>,
    by_row: bool,
    x_start: int,
    x_length: int,
    y_start: int,
    y_length: int,
    x_outer: int,
    y_outer: int,
    limit: int,
)
    requires
        0 <= x_length <= x_outer,
        0 <= y_length <= y_outer,
        0 <= limit,
        covers(plane, x_start, x_outer, y_start, y_outer),
        within(plane, x_start, x_outer, y_start, y_outer, limit),
    ensures
        covers(
            dwt_step(plane, by_row, x_start, x_length, y_start, y_length),
            x_start,
            x_outer,
            y_start,
            y_outer,
        ),
        within(
            dwt_step(plane, by_row, x_start, x_length, y_start, y_length),
            x_start,
            x_outer,
            y_start,
            y_outer,
            limit,
        ),
{
    let after = dwt_step(plane, by_row, x_start, x_length, y_start, y_length);
    assert forall|y: int| y_start <= y < y_start + y_outer implies x_start + x_outer <= (
    #[trigger] after[y]).len() by {
        assert(x_start + x_outer <= plane[y].len());
    }
    assert forall|x: int, y: int| in_rect(x_start, x_outer, y_start, y_outer, x, y) implies -limit
        <= (#[trigger] after[y][x]) <= limit by {
        assert(x_start + x_outer <= plane[y].len());
        assert(after[y][x] == dwt_step_value(
            plane,
            by_row,
            x_start,
            x_length,
            y_start,
            y_length,
            x,
            y,
        ));
        if in_rect(x_start, x_length, y_start, y_length, x, y) {
            if by_row {
                let half = x_length / 2;
                let k = x - x_start;
                if k < half {
                    let a = plane[y][x_start + 2 * k];
                    let b = plane[y][x_start + 2 * k + 1];
                    assert(-limit <= (a + b) / 2 <= limit);
                } else if k < 2 * half {
                    let a = plane[y][x_start + 2 * (k - half)];
                    let b = plane[y][x_start + 2 * (k - half) + 1];
                    assert(-limit <= (a - b) / 2 <= limit);
                }
            } else {
                let half = y_length / 2;
                let k = y - y_start;
                if k < half {
                    let a = plane[y_start + 2 * k][x];
                    let b = plane[y_start + 2 * k + 1][x];
                    assert(-limit <= (a + b) / 2 <= limit);
                } else if k < 2 * half {
                    let a = plane[y_start + 2 * (k - half)][x];
                    let b = plane[y_start + 2 * (k - half) + 1][x];
                    assert(-limit <= (a - b) / 2 <= limit);
                }
            }
        }
    }
}

/// The plane after the forward transform of the rectangle under the budget
/// `number`: the transform, with the coefficients that the budget drops set to
/// zero.
pub open spec fn dwt_encoded(
    plane: Seq<Seq<int>>,
    number: nat,
    x_start: int,
    x_length: nat,
    y_start: int,
    y_length: nat,
) -> Seq<Seq<int>> {
    dwt_truncate(
        dwt_forward(plane, x_start, x_length, y_start, y_length),
        number,
        x_start,
        x_length as int,
        y_start,
        y_length as int,
    )
}

/// Transforms the samples of channel `c` in the rectangle.
fn forward_block(
    dwt_block: &mut Vec<Vec<Pixel<i128>>>,
    c: &Channel,
    x_start: usize,
    x_length: usize,
    y_start: usize,
    y_length: usize,
)
    requires
        has_rect(old(dwt_block)@, x_start as int, x_length as int, y_start as int, y_length as int),
        within(
            samples(old(dwt_block)@, *c),
            x_start as int,
            x_length as int,
            y_start as int,
            y_length as int,
            SAMPLE_LIMIT as int,
        ),
    ensures
        same_shape(final(dwt_block)@, old(dwt_block)@),
        samples(final(dwt_block)@, *c) == dwt_forward(
            samples(old(dwt_block)@, *c),
            x_start as int,
            x_length as nat,
            y_start as int,
            y_length as nat,
        ),
        forall|other: Channel|
            other != *c ==> samples(final(dwt_block)@, other) == samples(old(dwt_block)@, other),
{
    let mut x_dwt_blocksize = x_length;
    let mut y_dwt_blocksize = y_length;
    let mut by_row = true;
    let ghost start = samples(dwt_block@, *c);
    proof {
        lemma_samples_cover(
            dwt_block@,
            *c,
            x_start as int,
            x_length as int,
            y_start as int,
            y_length as int,
        );
    }

    while x_dwt_blocksize > 1 || y_dwt_blocksize > 1
        invariant
            x_dwt_blocksize <= x_length,
            y_dwt_blocksize <= y_length,
            !by_row ==> x_dwt_blocksize > 1 || y_dwt_blocksize > 1,
            has_rect(dwt_block@, x_start as int, x_length as int, y_start as int, y_length as int),
            same_shape(dwt_block@, old(dwt_block)@),
            covers(
                samples(dwt_block@, *c),
                x_start as int,
                x_length as int,
                y_start as int,
                y_length as int,
            ),
            within(
                samples(dwt_block@, *c),
                x_start as int,
                x_length as int,
                y_start as int,
                y_length as int,
                SAMPLE_LIMIT as int,
            ),
            forall|other: Channel|
                other != *c ==> samples(dwt_block@, other) == samples(old(dwt_block)@, other),
            dwt_forward(start, x_start as int, x_length as nat, y_start as int, y_length as nat)
                == if by_row {
                dwt_forward(
                    samples(dwt_block@, *c),
                    x_start as int,
                    x_dwt_blocksize as nat,
                    y_start as int,
                    y_dwt_blocksize as nat,
                )
            } else {
                dwt_forward(
                    dwt_step(
                        samples(dwt_block@, *c),
                        false,
                        x_start as int,
                        x_dwt_blocksize as int,
                        y_start as int,
                        y_dwt_blocksize as int,
                    ),
                    x_start as int,
                    (x_dwt_blocksize / 2) as nat,
                    y_start as int,
                    (y_dwt_blocksize / 2) as nat,
                )
            },
        decreases
                x_dwt_blocksize + y_dwt_blocksize,
                if by_row {
                    1int
                } else {
                    0int
                },
    {
        proof {
            lemma_dwt_step_within(
                samples(dwt_block@, *c),
                by_row,
                x_start as int,
                x_dwt_blocksize as int,
                y_start as int,
                y_dwt_blocksize as int,
                x_length as int,
                y_length as int,
                SAMPLE_LIMIT as int,
            );
        }
        dwt(dwt_block, c, by_row, x_start, x_dwt_blocksize, y_start, y_dwt_blocksize);
        if !by_row {
            x_dwt_blocksize /= 2;
            y_dwt_blocksize /= 2;
        }
        by_row = !by_row;
    }
}

/// Transforms the samples of channel `c` in the rectangle and keeps `number`
/// of the coefficients: the others are set to zero.
pub fn dwt_encode_block(
    dwt_block: &mut Vec<Vec<Pixel<i128>>>,
    number: usize,
    c: &Channel,
    x_start: usize,
    x_length: usize,
    y_start: usize,
    y_length: usize,
)
    requires
        has_rect(old(dwt_block)@, x_start as int, x_length as int, y_start as int, y_length as int),
        within(
            samples(old(dwt_block)@, *c),
            x_start as int,
            x_length as int,
            y_start as int,
            y_length as int,
            SAMPLE_LIMIT as int,
        ),
    ensures
        same_shape(final(dwt_block)@, old(dwt_block)@),
        samples(final(dwt_block)@, *c) == dwt_encoded(
            samples(old(dwt_block)@, *c),
            number as nat,
            x_start as int,
            x_length as nat,
            y_start as int,
            y_length as nat,
        ),
        forall|other: Channel|
            other != *c ==> samples(final(dwt_block)@, other) == samples(old(dwt_block)@, other),
{
    forward_block(dwt_block, c, x_start, x_length, y_start, y_length);
    truncate_block(dwt_block, number, c, x_start, x_length, y_start, y_length);
}

/// The first of `size`, `2 * size`, `4 * size` and so on that is not below
/// `target`.
pub open spec fn grown(size: nat, target: nat) -> nat
    decreases
            if size < target {
                target - size
            } else {
                0
            },
{
    if 0 < size < target {
        grown(2 * size, target)
    } else {
        size
    }
}

/// By how much the magnitudes of the samples can grow while blocks of side
/// `size` are put together to blocks of side `grown(size, target)`: four
/// times for each doubling of the side.
pub open spec fn growth(size: nat, target: nat) -> nat
    decreases
            if size < target {
                target - size
            } else {
                0
            },
{
    if 0 < size < target {
        4 * growth(2 * size, target)
    } else {
        1
    }
}

/// The side of the square that the inverse transform of a rectangle works
/// on: the smallest power of two that is at least the rectangle's width and
/// its height.
pub open spec fn decode_side(x_length: nat, y_length: nat) -> nat {
    grown(
        1,
        if x_length >= y_length {
            x_length
        } else {
            y_length
        },
    )
}

/// The largest magnitude of a sample that the inverse transform of a square
/// takes: the samples may grow by the square of the side, and no step takes
/// more than the limit of a step.
pub open spec fn decode_limit(side: nat) -> int {
    (SAMPLE_LIMIT as int) / ((side * side) as int)
}

/// The plane after the inverse transform of the square of side `size`, a
/// power of two: the inverse transform of the square of half the side, then a
/// column step and a row step.
pub open spec fn dwt_inverse(plane: Seq<Seq<int>>, x_start: int, y_start: int, size: nat) -> Seq<
    Seq<int>,
>
    decreases size,
{
    if size <= 1 {
        plane
    } else {
        idwt_step(
            idwt_step(
                dwt_inverse(plane, x_start, y_start, size / 2),
                false,
                x_start,
                size as int,
                y_start,
                size as int,
            ),
            true,
            x_start,
            size as int,
            y_start,
            size as int,
        )
    }
}

/// The growth is the square of the factor by which the side grows.
pub proof fn lemma_growth(size: nat, target: nat)
    requires
        size >= 1,
    ensures
        grown(size, target) >= size,
        growth(size, target) >= 1,
        growth(size, target) * (size * size) == grown(size, target) * grown(size, target),
    decreases
            if size < target {
                target - size
            } else {
                0
            },
{
    if size < target {
        lemma_growth(2 * size, target);
        let g = growth(2 * size, target);
        assert((4 * g) * (size * size) == g * ((2 * size) * (2 * size))) by (nonlinear_arith);
    } else {
        assert(1 * (size * size) == size * size) by (nonlinear_arith);
    }
}

/// Doubling ends at a side that is not below the target.
pub proof fn lemma_grown_reaches(size: nat, target: nat)
    requires
        size >= 1,
    ensures
        grown(size, target) >= target,
    decreases
            if size < target {
                target - size
            } else {
                0
            },
{
    if size < target {
        lemma_grown_reaches(2 * size, target);
    }
}

/// An inverse step on a part of a rectangle at most doubles the limit that
/// the magnitudes of the rectangle's samples are in.
pub proof fn lemma_idwt_step_within(
    plane: Seq<Seq<int>>,
    by_row: bool,
    x_start: int,
    x_length: int,
    y_start: int,
    y_length: int,
    x_outer: int,
    y_outer: int,
    limit: int,
)
    requires
        0 <= x_length <= x_outer,
        0 <= y_length <= y_outer,
        0 <= limit,
        covers(plane, x_start, x_outer, y_start, y_outer),
        within(plane, x_start, x_outer, y_start, y_outer, limit),
    ensures
        covers(
            idwt_step(plane, by_row, x_start, x_length, y_start, y_length),
            x_start,
            x_outer,
            y_start,
            y_outer,
        ),
        within(
            idwt_step(plane, by_row, x_start, x_length, y_start, y_length),
            x_start,
            x_outer,
            y_start,
            y_outer,
            2 * limit,
        ),
{
    let after = idwt_step(plane, by_row, x_start, x_length, y_start, y_length);
    assert forall|y: int| y_start <= y < y_start + y_outer implies x_start + x_outer <= (
    #[trigger] after[y]).len() by {
        assert(x_start + x_outer <= plane[y].len());
    }
    assert forall|x: int, y: int| in_rect(x_start, x_outer, y_start, y_outer, x, y) implies -2
        * limit <= (#[trigger] after[y][x]) <= 2 * limit by {
        assert(x_start + x_outer <= plane[y].len());
        assert(after[y][x] == idwt_step_value(
            plane,
            by_row,
            x_start,
            x_length,
            y_start,
            y_length,
            x,
            y,
        ));
        if in_rect(x_start, x_length, y_start, y_length, x, y) {
            if by_row {
                let half = x_length / 2;
                let k = x - x_start;
                if k < 2 * half {
                    let a = plane[y][x_start + k / 2];
                    let d = plane[y][x_start + half + k / 2];
                    assert(-limit <= a <= limit);
                    assert(-limit <= d <= limit);
                }
            } else {
                let half = y_length / 2;
                let k = y - y_start;
                if k < 2 * half {
                    let a = plane[y_start + k / 2][x];
                    let d = plane[y_start + half + k / 2][x];
                    assert(-limit <= a <= limit);
                    assert(-limit <= d <= limit);
                }
            }
        }
    }
}

/// Whether the inverse transform of a rectangle can work on the grid: either
/// the rectangle is at most one cell wide and high, and nothing is to do, or
/// the square that the transform works on lies in the grid and its samples
/// are within the limit.
pub open spec fn dwt_decodable(
    grid: Seq<Vec<Pixel<i128>>>,
    c: Channel,
    x_start: int,
    x_length: nat,
    y_start: int,
    y_length: nat,
) -> bool {
    let side = decode_side(x_length, y_length);
    side > 1 ==> {
        &&& has_rect(grid, x_start, side as int, y_start, side as int)
        &&& within(
            samples(grid, c),
            x_start,
            side as int,
            y_start,
            side as int,
            decode_limit(side),
        )
    }
}

/// A grid that is smaller than the square that the inverse transform works
/// on, along either axis, cannot be taken back.
pub proof fn lemma_not_decodable(grid: Seq<Vec<Pixel<i128>>>, width: nat, height: nat)
    requires
        is_rectangular(grid, width as int, height as int),
        decode_side(width, height) > 1,
        decode_side(width, height) > width || decode_side(width, height) > height,
    ensures
        forall|c: Channel| !dwt_decodable(grid, c, 0, width, 0, height),
{
    let side = decode_side(width, height) as int;
    assert forall|c: Channel| !dwt_decodable(grid, c, 0, width, 0, height) by {
        if has_rect(grid, 0, side, 0, side) {
            assert(side <= grid[0].len());
        }
    }
}

/// Undoes the transform of the samples of channel `c` in the square that
/// starts at `(x_start, y_start)` and whose side is the smallest power of two
/// that is at least `x_length` and `y_length`.
pub fn dwt_decode_block(
    dwt_block: &mut Vec<Vec<Pixel<i128>>>,
    c: &Channel,
    x_start: usize,
    x_length: usize,
    y_start: usize,
    y_length: usize,
)
    requires
        dwt_decodable(
            old(dwt_block)@,
            *c,
            x_start as int,
            x_length as nat,
            y_start as int,
            y_length as nat,
        ),
    ensures
        same_shape(final(dwt_block)@, old(dwt_block)@),
        samples(final(dwt_block)@, *c) == dwt_inverse(
            samples(old(dwt_block)@, *c),
            x_start as int,
            y_start as int,
            decode_side(x_length as nat, y_length as nat),
        ),
        forall|other: Channel|
            other != *c ==> samples(final(dwt_block)@, other) == samples(old(dwt_block)@, other),
{
    let mut x_dwt_blocksize: usize = 1;
    let mut y_dwt_blocksize: usize = 1;
    let mut by_row = false;
    let ghost start = samples(dwt_block@, *c);
    let ghost target: nat = if x_length >= y_length {
        x_length as nat
    } else {
        y_length as nat
    };
    let ghost side = decode_side(x_length as nat, y_length as nat);
    let ghost limit: int = decode_limit(side);
    if x_length <= 1 && y_length <= 1 {
        return ;
    }
    proof {
        lemma_growth(1, target);
        lemma_growth(2, target);
        lemma_samples_cover(
            dwt_block@,
            *c,
            x_start as int,
            side as int,
            y_start as int,
            side as int,
        );
        assert(side * side >= 1) by (nonlinear_arith)
            requires
                side >= 1,
        ;
        assert(limit * (side * side) <= SAMPLE_LIMIT) by (nonlinear_arith)
            requires
                limit == (SAMPLE_LIMIT as int) / ((side * side) as int),
                side * side >= 1,
        ;
        assert(limit >= 0) by (nonlinear_arith)
            requires
                limit == (SAMPLE_LIMIT as int) / ((side * side) as int),
                side * side >= 1,
                SAMPLE_LIMIT >= 0,
        ;
        assert(growth(1, target) * (1 * 1) == growth(1, target)) by (nonlinear_arith);
        assert(y_start + side <= dwt_block.len());
    }

    while x_dwt_blocksize < x_length || y_dwt_blocksize < y_length || by_row
        invariant
            x_dwt_blocksize == y_dwt_blocksize,
            1 <= x_dwt_blocksize <= side <= usize::MAX,
            target == if x_length >= y_length {
                x_length as int
            } else {
                y_length as int
            },
            grown(x_dwt_blocksize as nat, target) == side,
            has_rect(dwt_block@, x_start as int, side as int, y_start as int, side as int),
            same_shape(dwt_block@, old(dwt_block)@),
            covers(samples(dwt_block@, *c), x_start as int, side as int, y_start as int, side as int),
            0 <= limit,
            within(
                samples(dwt_block@, *c),
                x_start as int,
                side as int,
                y_start as int,
                side as int,
                limit,
            ),
            if by_row {
                2 * (limit * growth(x_dwt_blocksize as nat, target)) <= SAMPLE_LIMIT
            } else {
                limit * growth(x_dwt_blocksize as nat, target) <= SAMPLE_LIMIT
            },
            forall|other: Channel|
                other != *c ==> samples(dwt_block@, other) == samples(old(dwt_block)@, other),
            if by_row {
                &&& x_dwt_blocksize >= 2
                &&& x_dwt_blocksize % 2 == 0
                &&& samples(dwt_block@, *c) == idwt_step(
                    dwt_inverse(start, x_start as int, y_start as int, (x_dwt_blocksize / 2) as nat),
                    false,
                    x_start as int,
                    x_dwt_blocksize as int,
                    y_start as int,
                    x_dwt_blocksize as int,
                )
            } else {
                samples(dwt_block@, *c) == dwt_inverse(
                    start,
                    x_start as int,
                    y_start as int,
                    x_dwt_blocksize as nat,
                )
            },
        decreases
                side - x_dwt_blocksize,
                if by_row {
                    1int
                } else {
                    0int
                },
    {
        let ghost before_limit = limit;
        let ghost size = x_dwt_blocksize as nat;
        if !by_row {
            proof {
                lemma_growth(2 * size, target);
                assert(limit * (4 * growth(2 * size, target)) == 4 * (limit * growth(
                    2 * size,
                    target,
                ))) by (nonlinear_arith);
            }
            x_dwt_blocksize *= 2;
            y_dwt_blocksize *= 2;
        }
        proof {
            lemma_growth(x_dwt_blocksize as nat, target);
            let g = growth(x_dwt_blocksize as nat, target);
            assert(limit * g >= 0 && limit <= limit * g) by (nonlinear_arith)
                requires
                    g >= 1,
                    limit >= 0,
            ;
            lemma_idwt_step_within(
                samples(dwt_block@, *c),
                by_row,
                x_start as int,
                x_dwt_blocksize as int,
                y_start as int,
                y_dwt_blocksize as int,
                side as int,
                side as int,
                limit,
            );
            limit = 2 * limit;
            assert((2 * before_limit) * g == 2 * (before_limit * g)) by (nonlinear_arith);
        }
        idwt(dwt_block, c, by_row, x_start, x_dwt_blocksize, y_start, y_dwt_blocksize);

        by_row = !by_row;
    }
}

} // verus!
