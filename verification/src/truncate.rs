//! Applying a coefficient budget to a transformed block: the coefficients
//! that the budget drops are set to zero.

use vstd::prelude::*;
use crate::budget::{
    budget_area, budget_diagonal, budget_down, budget_right, budget_side, dwt_budget_split,
    dwt_dropped, lemma_budget_split,
};
use crate::channel::Channel;
use crate::grid::{has_rect, in_grid, in_rect, put, same_shape, samples};
use crate::pixel::Pixel;
use crate::zigzag::{
    in_block, lemma_zigzag_rank_bounds, lemma_zigzag_rank_injective, zigzag_rank, Zigzag,
};

verus! {

/// The plane with the coefficients that the budget `number` drops from the
/// rectangle set to zero.
pub open spec fn dwt_truncate(
    plane: Seq<Seq<int>>,
    number: nat,
    x_start: int,
    x_length: int,
    y_start: int,
    y_length: int,
) -> Seq<Seq<int>> {
    Seq::new(
        plane.len(),
        |y: int|
            Seq::new(
                plane[y].len(),
                |x: int|
                    if in_rect(x_start, x_length, y_start, y_length, x, y) && dwt_dropped(
                        number,
                        x - x_start,
                        y - y_start,
                    ) {
                        0
                    } else {
                        plane[y][x]
                    },
            ),
    )
}

/// The plane with the rectangle set to zero.
pub open spec fn zeroed_rect(
    plane: Seq<Seq<int>>,
    x_start: int,
    x_length: int,
    y_start: int,
    y_length: int,
) -> Seq<Seq<int>> {
    Seq::new(
        plane.len(),
        |y: int|
            Seq::new(
                plane[y].len(),
                |x: int|
                    if in_rect(x_start, x_length, y_start, y_length, x, y) {
                        0
                    } else {
                        plane[y][x]
                    },
            ),
    )
}

/// Whether `(u, v)` is a place of the square with the given side that comes
/// after the first `keep` places in zigzag order.
pub open spec fn square_dropped(side: int, keep: int, u: int, v: int) -> bool {
    in_block(side, side, u, v) && zigzag_rank(side, side, u, v) >= keep
}

/// The plane with one square of the rectangle set to zero but for its first
/// `keep` places in zigzag order. The square lies `x_offset` to the right of
/// the rectangle's origin and `y_offset` below it; what lies outside the
/// rectangle stays as it is.
pub open spec fn zeroed_tail(
    plane: Seq<Seq<int>>,
    x_start: int,
    x_length: int,
    y_start: int,
    y_length: int,
    x_offset: int,
    y_offset: int,
    side: int,
    keep: int,
) -> Seq<Seq<int>> {
    Seq::new(
        plane.len(),
        |y: int|
            Seq::new(
                plane[y].len(),
                |x: int|
                    if in_rect(x_start, x_length, y_start, y_length, x, y) && square_dropped(
                        side,
                        keep,
                        x - x_start - x_offset,
                        y - y_start - y_offset,
                    ) {
                        0
                    } else {
                        plane[y][x]
                    },
            ),
    )
}

/// The plane after the five passes that apply a budget of one or more to a
/// rectangle: over the squares to the right, below and diagonally below the
/// square that is kept whole, each pass left out where the square lies
/// outside the rectangle or is kept whole too, then over the rows and the
/// columns beyond the squares.
pub open spec fn dwt_truncate_passes(
    plane: Seq<Seq<int>>,
    number: nat,
    x_start: int,
    x_length: int,
    y_start: int,
    y_length: int,
) -> Seq<Seq<int>> {
    let side = budget_side(number) as int;
    let area = budget_area(number);
    let right = if side < x_length && budget_right(number) < area {
        zeroed_tail(
            plane,
            x_start,
            x_length,
            y_start,
            y_length,
            side,
            0,
            side,
            budget_right(number) as int,
        )
    } else {
        plane
    };
    let down = if side < y_length && budget_down(number) < area {
        zeroed_tail(
            right,
            x_start,
            x_length,
            y_start,
            y_length,
            0,
            side,
            side,
            budget_down(number) as int,
        )
    } else {
        right
    };
    let diagonal = if side < x_length && side < y_length && budget_diagonal(number) < area {
        zeroed_tail(
            down,
            x_start,
            x_length,
            y_start,
            y_length,
            side,
            side,
            side,
            budget_diagonal(number) as int,
        )
    } else {
        down
    };
    let rows = if 2 * side < y_length {
        zeroed_rect(diagonal, x_start, x_length, y_start + 2 * side, y_length - 2 * side)
    } else {
        diagonal
    };
    if y_length > 0 && 2 * side < x_length {
        zeroed_rect(rows, x_start + 2 * side, x_length - 2 * side, y_start, y_length)
    } else {
        rows
    }
}

/// What a budget drops from a rectangle is what it drops from the three
/// squares around the one it keeps whole, and what lies beyond them.
pub proof fn lemma_dropped_by_squares(
    number: nat,
    x_length: int,
    y_length: int,
    u: int,
    v: int,
)
    requires
        number >= 1,
        0 <= u < x_length,
        0 <= v < y_length,
    ensures
        dwt_dropped(number, u, v) == ({
            let side = budget_side(number) as int;
            let area = budget_area(number);
            ||| (side < x_length && budget_right(number) < area && square_dropped(
                side,
                budget_right(number) as int,
                u - side,
                v,
            ))
            ||| (side < y_length && budget_down(number) < area && square_dropped(
                side,
                budget_down(number) as int,
                u,
                v - side,
            ))
            ||| (side < x_length && side < y_length && budget_diagonal(number) < area
                && square_dropped(side, budget_diagonal(number) as int, u - side, v - side))
            ||| v >= 2 * side
            ||| u >= 2 * side
        }),
{
    let side = budget_side(number) as int;
    lemma_budget_split(number);
    if side <= u < 2 * side && 0 <= v < side {
        lemma_zigzag_rank_bounds(side, side, u - side, v);
    }
    if 0 <= u < side && side <= v < 2 * side {
        lemma_zigzag_rank_bounds(side, side, u, v - side);
    }
    if side <= u < 2 * side && side <= v < 2 * side {
        lemma_zigzag_rank_bounds(side, side, u - side, v - side);
    }
}

/// The five passes drop what the budget drops.
pub proof fn lemma_truncate_passes(
    plane: Seq<Seq<int>>,
    number: nat,
    x_start: int,
    x_length: int,
    y_start: int,
    y_length: int,
)
    requires
        number >= 1,
    ensures
        dwt_truncate_passes(plane, number, x_start, x_length, y_start, y_length) == dwt_truncate(
            plane,
            number,
            x_start,
            x_length,
            y_start,
            y_length,
        ),
{
    let passes = dwt_truncate_passes(plane, number, x_start, x_length, y_start, y_length);
    let goal = dwt_truncate(plane, number, x_start, x_length, y_start, y_length);
    assert(passes.len() == goal.len());
    assert forall|y: int| 0 <= y < goal.len() implies #[trigger] passes[y] =~= goal[y] by {
        assert(passes[y].len() == goal[y].len());
        assert forall|x: int| 0 <= x < goal[y].len() implies passes[y][x] == goal[y][x] by {
            if in_rect(x_start, x_length, y_start, y_length, x, y) {
                lemma_dropped_by_squares(number, x_length, y_length, x - x_start, y - y_start);
            }
        }
    }
    assert(passes =~~= goal);
}

/// Stores `value` as the sample of channel `c` in the cell `(x, y)`.
fn set_sample(grid: &mut Vec<Vec<Pixel<i128>>>, c: &Channel, x: usize, y: usize, value: i128)
    requires
        in_grid(old(grid)@, x as int, y as int),
    ensures
        same_shape(final(grid)@, old(grid)@),
        forall|i: int, j: int|
            in_grid(old(grid)@, i, j) ==> #[trigger] samples(final(grid)@, *c)[j][i] == if i == x && j
                == y {
                value as int
            } else {
                samples(old(grid)@, *c)[j][i]
            },
        forall|other: Channel|
            other != *c ==> samples(final(grid)@, other) == samples(old(grid)@, other),
{
    put(grid, x, y, c, value);
    proof {
        assert forall|other: Channel| other != *c implies samples(grid@, other) == samples(
            old(grid)@,
            other,
        ) by {
            assert(samples(grid@, other) =~~= samples(old(grid)@, other));
        }
    }
}

/// Sets the samples of channel `c` in the rectangle to zero.
fn zero_rect(
    grid: &mut Vec<Vec<Pixel<i128>>>,
    c: &Channel,
    x_start: usize,
    x_length: usize,
    y_start: usize,
    y_length: usize,
)
    requires
        has_rect(old(grid)@, x_start as int, x_length as int, y_start as int, y_length as int),
    ensures
        same_shape(final(grid)@, old(grid)@),
        samples(final(grid)@, *c) == zeroed_rect(
            samples(old(grid)@, *c),
            x_start as int,
            x_length as int,
            y_start as int,
            y_length as int,
        ),
        forall|other: Channel|
            other != *c ==> samples(final(grid)@, other) == samples(old(grid)@, other),
{
    let mut y: usize = 0;
    while y < y_length
        invariant
            y <= y_length,
            has_rect(grid@, x_start as int, x_length as int, y_start as int, y_length as int),
            same_shape(grid@, old(grid)@),
            forall|i: int, j: int|
                in_grid(old(grid)@, i, j) ==> #[trigger] samples(grid@, *c)[j][i] == if in_rect(
                    x_start as int,
                    x_length as int,
                    y_start as int,
                    y as int,
                    i,
                    j,
                ) {
                    0
                } else {
                    samples(old(grid)@, *c)[j][i]
                },
            forall|other: Channel|
                other != *c ==> samples(grid@, other) == samples(old(grid)@, other),
        decreases y_length - y,
    {
        let mut x: usize = 0;
        assert(y_start + y_length <= grid.len());
        assert(x_start + x_length <= grid@[y_start + y].len());
        while x < x_length
            invariant
                x <= x_length,
                y < y_length,
                y_start + y < grid.len(),
                x_start + x_length <= grid@[y_start + y].len(),
                has_rect(grid@, x_start as int, x_length as int, y_start as int, y_length as int),
                same_shape(grid@, old(grid)@),
                forall|i: int, j: int|
                    in_grid(old(grid)@, i, j) ==> #[trigger] samples(grid@, *c)[j][i] == if in_rect(
                        x_start as int,
                        x_length as int,
                        y_start as int,
                        y as int,
                        i,
                        j,
                    ) || (j == y_start + y && x_start <= i < x_start + x) {
                        0
                    } else {
                        samples(old(grid)@, *c)[j][i]
                    },
                forall|other: Channel|
                    other != *c ==> samples(grid@, other) == samples(old(grid)@, other),
            decreases x_length - x,
        {
            set_sample(grid, c, x_start + x, y_start + y, 0);
            x += 1;
        }
        y += 1;
    }
    assert(samples(grid@, *c) =~~= zeroed_rect(
        samples(old(grid)@, *c),
        x_start as int,
        x_length as int,
        y_start as int,
        y_length as int,
    ));
}

/// Sets to zero the samples of channel `c` in one square of the rectangle:
/// the square lies `x_offset` to the right of the rectangle's origin and
/// `y_offset` below it and is `side` wide and high. The first `keep` places of
/// the square in zigzag order stay as they are, and so does what lies outside
/// the rectangle.
fn zero_tail(
    grid: &mut Vec<Vec<Pixel<i128>>>,
    c: &Channel,
    x_start: usize,
    x_length: usize,
    y_start: usize,
    y_length: usize,
    x_offset: usize,
    y_offset: usize,
    side: usize,
    keep: usize,
)
    requires
        has_rect(old(grid)@, x_start as int, x_length as int, y_start as int, y_length as int),
        side * side <= usize::MAX,
        x_offset + side <= usize::MAX,
        y_offset + side <= usize::MAX,
    ensures
        same_shape(final(grid)@, old(grid)@),
        samples(final(grid)@, *c) == zeroed_tail(
            samples(old(grid)@, *c),
            x_start as int,
            x_length as int,
            y_start as int,
            y_length as int,
            x_offset as int,
            y_offset as int,
            side as int,
            keep as int,
        ),
        forall|other: Channel|
            other != *c ==> samples(final(grid)@, other) == samples(old(grid)@, other),
{
    let mut zigzag = Zigzag::new(side * side, side, side);
    let mut skipped: usize = 0;
    while skipped < keep
        invariant_except_break
            zigzag.position() == skipped,
        invariant
            skipped <= keep,
            zigzag.position() <= side * side,
            zigzag.width() == side,
            zigzag.height() == side,
            zigzag.limit() == side * side,
        ensures
            zigzag.position() >= keep || zigzag.position() >= side * side,
            zigzag.position() <= keep,
        decreases keep - skipped,
    {
        match zigzag.next() {
            Some(_) => {},
            None => {
                break;
            },
        }
        skipped += 1;
    }
    loop
        invariant
            zigzag.position() >= keep || zigzag.position() >= side * side,
            zigzag.position() <= side * side,
            zigzag.width() == side,
            zigzag.height() == side,
            zigzag.limit() == side * side,
            x_offset + side <= usize::MAX,
            y_offset + side <= usize::MAX,
            has_rect(grid@, x_start as int, x_length as int, y_start as int, y_length as int),
            same_shape(grid@, old(grid)@),
            forall|x: int, y: int|
                in_grid(old(grid)@, x, y) ==> #[trigger] samples(grid@, *c)[y][x] == if in_rect(
                    x_start as int,
                    x_length as int,
                    y_start as int,
                    y_length as int,
                    x,
                    y,
                ) && in_rect(x_start + x_offset, side as int, y_start + y_offset, side as int, x, y)
                    && keep <= zigzag_rank(
                    side as int,
                    side as int,
                    x - x_start - x_offset,
                    y - y_start - y_offset,
                ) < zigzag.position() {
                    0
                } else {
                    samples(old(grid)@, *c)[y][x]
                },
            forall|other: Channel|
                other != *c ==> samples(grid@, other) == samples(old(grid)@, other),
        ensures
            zigzag.position() >= side * side,
        decreases side * side - zigzag.position(),
    {
        let ghost rank = zigzag.position();
        let ghost before = grid@;
        match zigzag.next() {
            Some((u, v)) => {
                if x_offset + u < x_length && y_offset + v < y_length {
                    assert(y_start + y_length <= grid.len());
                    assert(x_start + x_length <= grid@[y_start + y_offset + v].len());
                    set_sample(grid, c, x_start + (x_offset + u), y_start + (y_offset + v), 0);
                }
                proof {
                    assert forall|x: int, y: int| in_grid(old(grid)@, x, y) implies #[trigger] samples(
                        grid@,
                        *c,
                    )[y][x] == if in_rect(
                        x_start as int,
                        x_length as int,
                        y_start as int,
                        y_length as int,
                        x,
                        y,
                    ) && in_rect(
                        x_start + x_offset,
                        side as int,
                        y_start + y_offset,
                        side as int,
                        x,
                        y,
                    ) && keep <= zigzag_rank(
                        side as int,
                        side as int,
                        x - x_start - x_offset,
                        y - y_start - y_offset,
                    ) < zigzag.position() {
                        0
                    } else {
                        samples(old(grid)@, *c)[y][x]
                    } by {
                        assert(in_grid(before, x, y));
                        if in_rect(
                            x_start + x_offset,
                            side as int,
                            y_start + y_offset,
                            side as int,
                            x,
                            y,
                        ) && zigzag_rank(
                            side as int,
                            side as int,
                            x - x_start - x_offset,
                            y - y_start - y_offset,
                        ) == rank {
                            lemma_zigzag_rank_injective(
                                side as int,
                                side as int,
                                x - x_start - x_offset,
                                y - y_start - y_offset,
                                u as int,
                                v as int,
                            );
                        }
                    }
                }
            },
            None => {
                break;
            },
        }
    }
    proof {
        assert forall|x: int, y: int| in_grid(old(grid)@, x, y) implies #[trigger] samples(
            grid@,
            *c,
        )[y][x] == if in_rect(
            x_start as int,
            x_length as int,
            y_start as int,
            y_length as int,
            x,
            y,
        ) && square_dropped(
            side as int,
            keep as int,
            x - x_start - x_offset,
            y - y_start - y_offset,
        ) {
            0
        } else {
            samples(old(grid)@, *c)[y][x]
        } by {
            if in_rect(x_start + x_offset, side as int, y_start + y_offset, side as int, x, y) {
                lemma_zigzag_rank_bounds(
                    side as int,
                    side as int,
                    x - x_start - x_offset,
                    y - y_start - y_offset,
                );
            }
        }
        assert(samples(grid@, *c) =~~= zeroed_tail(
            samples(old(grid)@, *c),
            x_start as int,
            x_length as int,
            y_start as int,
            y_length as int,
            x_offset as int,
            y_offset as int,
            side as int,
            keep as int,
        ));
    }
}

/// Sets to zero the coefficients of channel `c` that the budget `number`
/// drops from the rectangle.
pub(crate) fn truncate_block(
    dwt_block: &mut Vec<Vec<Pixel<i128>>>,
    number: usize,
    c: &Channel,
    x_start: usize,
    x_length: usize,
    y_start: usize,
    y_length: usize,
)
    requires
        has_rect(old(dwt_block)@, x_start as int, x_length as int, y_start as int, y_length as int),
    ensures
        same_shape(final(dwt_block)@, old(dwt_block)@),
        samples(final(dwt_block)@, *c) == dwt_truncate(
            samples(old(dwt_block)@, *c),
            number as nat,
            x_start as int,
            x_length as int,
            y_start as int,
            y_length as int,
        ),
        forall|other: Channel|
            other != *c ==> samples(final(dwt_block)@, other) == samples(old(dwt_block)@, other),
{
    let ghost transformed = samples(dwt_block@, *c);
    let ghost goal = dwt_truncate(
        transformed,
        number as nat,
        x_start as int,
        x_length as int,
        y_start as int,
        y_length as int,
    );

    if number == 0 {
        zero_rect(dwt_block, c, x_start, x_length, y_start, y_length);
        assert(samples(dwt_block@, *c) =~~= goal);
        return ;
    }
    let split = dwt_budget_split(number);
    let side_length = split.side_length;
    let area = side_length * side_length;
    assert(side_length + side_length <= usize::MAX) by (nonlinear_arith)
        requires
            side_length * side_length <= usize::MAX,
            usize::MAX >= 2,
    ;
    assert(y_start + y_length <= dwt_block.len());

    if side_length < x_length && split.right < area {
        zero_tail(
            dwt_block,
            c,
            x_start,
            x_length,
            y_start,
            y_length,
            side_length,
            0,
            side_length,
            split.right,
        );
    }
    if side_length < y_length && split.down < area {
        zero_tail(
            dwt_block,
            c,
            x_start,
            x_length,
            y_start,
            y_length,
            0,
            side_length,
            side_length,
            split.down,
        );
    }
    if side_length < x_length && side_length < y_length && split.diagonal < area {
        zero_tail(
            dwt_block,
            c,
            x_start,
            x_length,
            y_start,
            y_length,
            side_length,
            side_length,
            side_length,
            split.diagonal,
        );
    }
    if side_length < y_length && side_length < y_length - side_length {
        zero_rect(
            dwt_block,
            c,
            x_start,
            x_length,
            y_start + (side_length + side_length),
            y_length - side_length - side_length,
        );
    }
    if y_length > 0 && side_length < x_length && side_length < x_length - side_length {
        assert(x_start + x_length <= dwt_block@[y_start as int].len());
        zero_rect(
            dwt_block,
            c,
            x_start + (side_length + side_length),
            x_length - side_length - side_length,
            y_start,
            y_length,
        );
    }
    proof {
        lemma_truncate_passes(
            transformed,
            number as nat,
            x_start as int,
            x_length as int,
            y_start as int,
            y_length as int,
        );
    }
}

} // verus!
