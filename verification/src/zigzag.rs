//! Zigzag order over a rectangular block.
//!
//! The cells of a block `width` wide and `height` high are visited one
//! anti-diagonal after the other, starting at the origin. Diagonals with an
//! even coordinate sum are walked towards the top right (columns grow),
//! diagonals with an odd sum towards the bottom left (rows grow).
//!
//! The order is stated by [`zigzag_rank`], the number of cells that are
//! visited before a given cell. [`Zigzag`] walks the block in that order.

use vstd::prelude::*;

verus! {

/// `v` limited to the range from `lo` to `hi`.
pub open spec fn clip(v: int, lo: int, hi: int) -> int {
    if v < lo {
        lo
    } else if v > hi {
        hi
    } else {
        v
    }
}

/// The number of cells `(a, b)` of the block with `a + b < d`: for each
/// column `a` the rows `b` below `d - a`.
pub open spec fn cells_before(width: int, height: int, d: int) -> int
    decreases width,
{
    if width <= 0 {
        0
    } else {
        cells_before(width - 1, height, d) + clip(d - (width - 1), 0, height)
    }
}

/// The smallest column on the anti-diagonal `d` of the block.
pub open spec fn diagonal_first(height: int, d: int) -> int {
    if d - (height - 1) > 0 {
        d - (height - 1)
    } else {
        0
    }
}

/// The largest column on the anti-diagonal `d` of the block.
pub open spec fn diagonal_last(width: int, d: int) -> int {
    if d < width - 1 {
        d
    } else {
        width - 1
    }
}

/// The number of cells on the anti-diagonal `d` of the block.
pub open spec fn diagonal_len(width: int, height: int, d: int) -> int {
    if diagonal_last(width, d) >= diagonal_first(height, d) {
        diagonal_last(width, d) - diagonal_first(height, d) + 1
    } else {
        0
    }
}

/// Whether `(x, y)` is a cell of the block.
pub open spec fn in_block(width: int, height: int, x: int, y: int) -> bool {
    0 <= x < width && 0 <= y < height
}

/// The position of the cell `(x, y)` in zigzag order: the cells on earlier
/// anti-diagonals, and the cells that come before it on its own.
pub open spec fn zigzag_rank(width: int, height: int, x: int, y: int) -> int {
    let d = x + y;
    cells_before(width, height, d) + if d % 2 == 0 {
        x - diagonal_first(height, d)
    } else {
        diagonal_last(width, d) - x
    }
}

/// The cells before diagonal `d + 1` are those before `d` and those on `d`.
pub proof fn lemma_cells_before_next(width: int, height: int, d: int)
    requires
        0 <= width,
        0 <= height,
        0 <= d,
    ensures
        cells_before(width, height, d + 1) == cells_before(width, height, d) + diagonal_len(
            width,
            height,
            d,
        ),
    decreases width,
{
    if width > 0 {
        lemma_cells_before_next(width - 1, height, d);
    }
}

/// No cell lies before the diagonal through the origin.
pub proof fn lemma_cells_before_origin(width: int, height: int, d: int)
    requires
        0 <= height,
        d <= 0,
    ensures
        cells_before(width, height, d) == 0,
    decreases width,
{
    if width > 0 {
        lemma_cells_before_origin(width - 1, height, d);
    }
}

/// From the last diagonal on, every cell of the block has been counted.
pub proof fn lemma_cells_before_all(width: int, height: int, d: int)
    requires
        0 <= width,
        0 <= height,
        d >= width + height - 1,
    ensures
        cells_before(width, height, d) == width * height,
    decreases width,
{
    if width > 0 {
        lemma_cells_before_all(width - 1, height, d);
        assert((width - 1) * height + height == width * height) by (nonlinear_arith);
    } else {
        assert(width * height == 0) by (nonlinear_arith)
            requires
                width == 0,
        ;
    }
}

/// Later diagonals have at least as many cells before them.
pub proof fn lemma_cells_before_monotone(width: int, height: int, d1: int, d2: int)
    requires
        0 <= height,
        d1 <= d2,
    ensures
        cells_before(width, height, d1) <= cells_before(width, height, d2),
    decreases width,
{
    if width > 0 {
        lemma_cells_before_monotone(width - 1, height, d1, d2);
    }
}

/// The rank of a cell lies among the ranks of its diagonal, and below the
/// number of cells of the block.
pub proof fn lemma_zigzag_rank_bounds(width: int, height: int, x: int, y: int)
    requires
        in_block(width, height, x, y),
    ensures
        cells_before(width, height, x + y) <= zigzag_rank(width, height, x, y) < cells_before(
            width,
            height,
            x + y + 1,
        ),
        0 <= zigzag_rank(width, height, x, y) < width * height,
{
    let d = x + y;
    lemma_cells_before_next(width, height, d);
    lemma_cells_before_monotone(width, height, 0, d);
    lemma_cells_before_origin(width, height, 0);
    lemma_cells_before_monotone(width, height, d + 1, width + height - 1);
    lemma_cells_before_all(width, height, width + height - 1);
}

/// Two cells of the block with the same rank are the same cell.
pub proof fn lemma_zigzag_rank_injective(
    width: int,
    height: int,
    x1: int,
    y1: int,
    x2: int,
    y2: int,
)
    requires
        in_block(width, height, x1, y1),
        in_block(width, height, x2, y2),
        zigzag_rank(width, height, x1, y1) == zigzag_rank(width, height, x2, y2),
    ensures
        x1 == x2,
        y1 == y2,
{
    let d1 = x1 + y1;
    let d2 = x2 + y2;
    lemma_zigzag_rank_bounds(width, height, x1, y1);
    lemma_zigzag_rank_bounds(width, height, x2, y2);
    if d1 < d2 {
        lemma_cells_before_monotone(width, height, d1 + 1, d2);
    } else if d2 < d1 {
        lemma_cells_before_monotone(width, height, d2 + 1, d1);
    }
}

/// The origin comes first, and only the origin.
pub proof fn lemma_zigzag_rank_first(width: int, height: int, x: int, y: int)
    requires
        in_block(width, height, x, y),
    ensures
        zigzag_rank(width, height, x, y) == 0 <==> (x == 0 && y == 0),
{
    lemma_cells_before_origin(width, height, 0);
    assert(zigzag_rank(width, height, 0, 0) == 0);
    if zigzag_rank(width, height, x, y) == 0 {
        lemma_zigzag_rank_injective(width, height, x, y, 0, 0);
    }
}

/// The anti-diagonal that holds the rank `k`, among those below `upper`.
proof fn lemma_diagonal_of_rank(width: int, height: int, k: int, upper: int) -> (d: int)
    requires
        0 <= width,
        0 <= height,
        0 <= k < cells_before(width, height, upper),
    ensures
        0 <= d < upper,
        cells_before(width, height, d) <= k < cells_before(width, height, d + 1),
    decreases upper,
{
    if upper <= 0 {
        lemma_cells_before_origin(width, height, upper);
        0
    } else if cells_before(width, height, upper - 1) <= k {
        upper - 1
    } else {
        lemma_diagonal_of_rank(width, height, k, upper - 1)
    }
}

/// Every rank below the number of cells of the block is the rank of a cell:
/// with the two laws before, the ranks number the cells of the block, each
/// cell once.
pub proof fn lemma_zigzag_rank_onto(width: int, height: int, k: int) -> (cell: (int, int))
    requires
        0 <= width,
        0 <= height,
        0 <= k < width * height,
    ensures
        in_block(width, height, cell.0, cell.1),
        zigzag_rank(width, height, cell.0, cell.1) == k,
{
    lemma_cells_before_all(width, height, width + height - 1);
    let d = lemma_diagonal_of_rank(width, height, k, width + height - 1);
    lemma_cells_before_next(width, height, d);
    let offset = k - cells_before(width, height, d);
    let x = if d % 2 == 0 {
        diagonal_first(height, d) + offset
    } else {
        diagonal_last(width, d) - offset
    };
    (x, d - x)
}

/// A single pass over a block in zigzag order, cut off after a given number
/// of cells.
pub struct Zigzag {
    i: usize,
    j: usize,
    cur: usize,
    max: usize,
    blocksize_x: usize,
    blocksize_y: usize,
}

impl Zigzag {
    /// The walker is at the cell whose rank is the number of cells handed
    /// out so far, as long as there is such a cell.
    #[verifier::type_invariant]
    pub closed spec fn well_formed(self) -> bool {
        self.cur < self.max && self.cur < self.blocksize_x * self.blocksize_y ==> {
            &&& 1 <= self.j <= self.blocksize_x
            &&& 1 <= self.i <= self.blocksize_y
            &&& zigzag_rank(
                self.blocksize_x as int,
                self.blocksize_y as int,
                self.j - 1,
                self.i - 1,
            ) == self.cur
        }
    }

    /// The width of the block.
    pub closed spec fn width(self) -> nat {
        self.blocksize_x as nat
    }

    /// The height of the block.
    pub closed spec fn height(self) -> nat {
        self.blocksize_y as nat
    }

    /// The number of cells after which the pass ends at the latest.
    pub closed spec fn limit(self) -> nat {
        self.max as nat
    }

    /// The number of cells handed out so far.
    pub closed spec fn position(self) -> nat {
        self.cur as nat
    }

    /// The number of cells that the whole pass hands out.
    pub open spec fn count(self) -> nat {
        if self.limit() <= self.width() * self.height() {
            self.limit()
        } else {
            self.width() * self.height()
        }
    }

    /// A pass over the block `blocksize_x` wide and `blocksize_y` high that
    /// hands out at most `max` cells.
    pub fn new(max: usize, blocksize_x: usize, blocksize_y: usize) -> (zigzag: Self)
        ensures
            zigzag.position() == 0,
            zigzag.limit() == max,
            zigzag.width() == blocksize_x,
            zigzag.height() == blocksize_y,
    {
        proof {
            lemma_cells_before_origin(blocksize_x as int, blocksize_y as int, 0);
            if 0 < blocksize_x * blocksize_y {
                assert(blocksize_x >= 1 && blocksize_y >= 1) by (nonlinear_arith)
                    requires
                        0 < blocksize_x * blocksize_y,
                ;
            }
        }
        Self { i: 1, j: 1, cur: 0, max, blocksize_x, blocksize_y }
    }

    /// The next cell `(column, row)` in zigzag order, or `None` once the
    /// limit or the end of the block is reached.
    pub fn next(&mut self) -> (cell: Option<(usize, usize)>)
        ensures
            final(self).width() == old(self).width(),
            final(self).height() == old(self).height(),
            final(self).limit() == old(self).limit(),
            match cell {
                Some((x, y)) => {
                    &&& old(self).position() < old(self).count()
                    &&& final(self).position() == old(self).position() + 1
                    &&& in_block(
                        old(self).width() as int,
                        old(self).height() as int,
                        x as int,
                        y as int,
                    )
                    &&& zigzag_rank(
                        old(self).width() as int,
                        old(self).height() as int,
                        x as int,
                        y as int,
                    ) == old(self).position()
                },
                None => {
                    &&& old(self).position() >= old(self).count()
                    &&& final(self).position() == old(self).position()
                },
            },
            old(self).position() == 0 && cell.is_some() ==> cell == Some((0usize, 0usize)),
    {
        proof {
            use_type_invariant(&*self);
        }
        let total: usize = match self.blocksize_x.checked_mul(self.blocksize_y) {
            Some(t) => t,
            None => usize::MAX,
        };
        if self.cur < self.max && self.cur < total {
            let x: usize = self.j - 1;
            let y: usize = self.i - 1;
            let mut i: usize = self.i;
            let mut j: usize = self.j;
            proof {
                let width = self.blocksize_x as int;
                let height = self.blocksize_y as int;
                lemma_cells_before_next(width, height, x + y);
                lemma_zigzag_rank_bounds(width, height, x as int, y as int);
                lemma_zigzag_rank_first(width, height, x as int, y as int);
                lemma_cells_before_all(width, height, width + height - 1);
                lemma_cells_before_next(width, height, width + height - 2);
            }
            if self.cur + 1 < self.max && self.cur + 1 < total {
                if i % 2 == j % 2 {
                    if j < self.blocksize_x {
                        j += 1;
                        if i > 1 {
                            i -= 1;
                        }
                    } else {
                        i += 1;
                    }
                } else {
                    if i < self.blocksize_y {
                        i += 1;
                        if j > 1 {
                            j -= 1;
                        }
                    } else {
                        j += 1;
                    }
                }
            }
            *self = Zigzag {
                i,
                j,
                cur: self.cur + 1,
                max: self.max,
                blocksize_x: self.blocksize_x,
                blocksize_y: self.blocksize_y,
            };
            Some((x, y))
        } else {
            None
        }
    }
}

} // verus!
