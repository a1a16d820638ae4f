//! What holds of the wavelet transform: when its steps and the whole
//! transform can be undone, and what a budget leaves of a block.

use vstd::prelude::*;
use crate::budget::{budget_area, budget_side, dwt_dropped, lemma_budget_side, lemma_budget_split};
use crate::dwt::{
    decode_side, dwt_encoded, dwt_forward, dwt_inverse, dwt_step, dwt_step_value, grown,
    idwt_step, idwt_step_value, lemma_dwt_step_within, lemma_idwt_step_within,
};
use crate::grid::in_rect;
use crate::plane::{covers, lemma_same_extent_covers, multiples, same_extent, within};
use crate::pow2::{is_pow2, lemma_pow2_double, lemma_pow2_gap};
use crate::truncate::dwt_truncate;
use crate::zigzag::lemma_zigzag_rank_bounds;

verus! {

/// A forward step undoes an inverse step on the same rectangle, if the
/// rectangle has an even length along the axis of the steps.
pub proof fn lemma_step_undoes_inverse_step(
    plane: Seq<Seq<int>>,
    by_row: bool,
    x_start: int,
    x_length: int,
    y_start: int,
    y_length: int,
)
    requires
        covers(plane, x_start, x_length, y_start, y_length),
        if by_row {
            x_length % 2 == 0
        } else {
            y_length % 2 == 0
        },
    ensures
        dwt_step(
            idwt_step(plane, by_row, x_start, x_length, y_start, y_length),
            by_row,
            x_start,
            x_length,
            y_start,
            y_length,
        ) == plane,
{
    let lowered = idwt_step(plane, by_row, x_start, x_length, y_start, y_length);
    let lifted = dwt_step(lowered, by_row, x_start, x_length, y_start, y_length);
    assert(lifted.len() == plane.len());
    assert forall|y: int| 0 <= y < plane.len() implies #[trigger] lifted[y] =~= plane[y] by {
        assert(lifted[y].len() == plane[y].len());
        assert forall|x: int| 0 <= x < plane[y].len() implies lifted[y][x] == plane[y][x] by {
            if in_rect(x_start, x_length, y_start, y_length, x, y) {
                if by_row {
                    let half = x_length / 2;
                    let k = x - x_start;
                    let m = if k < half {
                        k
                    } else {
                        k - half
                    };
                    assert(x_start + x_length <= plane[y].len());
                    assert(lowered[y][x_start + 2 * m] == idwt_step_value(
                        plane,
                        by_row,
                        x_start,
                        x_length,
                        y_start,
                        y_length,
                        x_start + 2 * m,
                        y,
                    ));
                    assert(lowered[y][x_start + 2 * m + 1] == idwt_step_value(
                        plane,
                        by_row,
                        x_start,
                        x_length,
                        y_start,
                        y_length,
                        x_start + 2 * m + 1,
                        y,
                    ));
                } else {
                    let half = y_length / 2;
                    let k = y - y_start;
                    let m = if k < half {
                        k
                    } else {
                        k - half
                    };
                    assert(x_start + x_length <= plane[y_start + 2 * m].len());
                    assert(x_start + x_length <= plane[y_start + 2 * m + 1].len());
                    assert(x_start + x_length <= plane[y_start + m].len());
                    assert(x_start + x_length <= plane[y_start + half + m].len());
                    assert(lowered[y_start + 2 * m][x] == idwt_step_value(
                        plane,
                        by_row,
                        x_start,
                        x_length,
                        y_start,
                        y_length,
                        x,
                        y_start + 2 * m,
                    ));
                    assert(lowered[y_start + 2 * m + 1][x] == idwt_step_value(
                        plane,
                        by_row,
                        x_start,
                        x_length,
                        y_start,
                        y_length,
                        x,
                        y_start + 2 * m + 1,
                    ));
                }
            }
        }
    }
    assert(lifted =~~= plane);
}

/// An inverse step undoes a forward step on the same rectangle, if the
/// rectangle has an even length along the axis of the steps and all its
/// samples are even; and where the samples are multiples of `2 * m`, the
/// forward step leaves multiples of `m`.
pub proof fn lemma_inverse_step_undoes_step(
    plane: Seq<Seq<int>>,
    by_row: bool,
    x_start: int,
    x_length: int,
    y_start: int,
    y_length: int,
    m: int,
)
    requires
        m >= 1,
        covers(plane, x_start, x_length, y_start, y_length),
        multiples(plane, x_start, x_length, y_start, y_length, 2 * m),
        if by_row {
            x_length % 2 == 0
        } else {
            y_length % 2 == 0
        },
    ensures
        idwt_step(
            dwt_step(plane, by_row, x_start, x_length, y_start, y_length),
            by_row,
            x_start,
            x_length,
            y_start,
            y_length,
        ) == plane,
        multiples(
            dwt_step(plane, by_row, x_start, x_length, y_start, y_length),
            x_start,
            x_length,
            y_start,
            y_length,
            m,
        ),
        covers(
            dwt_step(plane, by_row, x_start, x_length, y_start, y_length),
            x_start,
            x_length,
            y_start,
            y_length,
        ),
{
    let lifted = dwt_step(plane, by_row, x_start, x_length, y_start, y_length);
    let lowered = idwt_step(lifted, by_row, x_start, x_length, y_start, y_length);
    assert forall|y: int| y_start <= y < y_start + y_length implies x_start + x_length <= (
    #[trigger] lifted[y]).len() by {
        assert(x_start + x_length <= plane[y].len());
    }
    assert forall|x: int, y: int| in_rect(x_start, x_length, y_start, y_length, x, y) implies (
    #[trigger] lifted[y][x]) % m == 0 by {
        assert(x_start + x_length <= plane[y].len());
        if by_row {
            let half = x_length / 2;
            let k = x - x_start;
            let j = if k < half {
                k
            } else {
                k - half
            };
            let a = plane[y][x_start + 2 * j];
            let b = plane[y][x_start + 2 * j + 1];
            lemma_half_of_multiples(a, b, m);
        } else {
            let half = y_length / 2;
            let k = y - y_start;
            let j = if k < half {
                k
            } else {
                k - half
            };
            assert(x_start + x_length <= plane[y_start + 2 * j].len());
            assert(x_start + x_length <= plane[y_start + 2 * j + 1].len());
            let a = plane[y_start + 2 * j][x];
            let b = plane[y_start + 2 * j + 1][x];
            lemma_half_of_multiples(a, b, m);
        }
    }
    assert(lowered.len() == plane.len());
    assert forall|y: int| 0 <= y < plane.len() implies #[trigger] lowered[y] =~= plane[y] by {
        assert(lowered[y].len() == plane[y].len());
        assert forall|x: int| 0 <= x < plane[y].len() implies lowered[y][x] == plane[y][x] by {
            if in_rect(x_start, x_length, y_start, y_length, x, y) {
                if by_row {
                    let half = x_length / 2;
                    let k = x - x_start;
                    let j = k / 2;
                    assert(x_start + x_length <= plane[y].len());
                    let a = plane[y][x_start + 2 * j];
                    let b = plane[y][x_start + 2 * j + 1];
                    lemma_half_of_multiples(a, b, m);
                    assert(lifted[y][x_start + j] == dwt_step_value(
                        plane,
                        by_row,
                        x_start,
                        x_length,
                        y_start,
                        y_length,
                        x_start + j,
                        y,
                    ));
                    assert(lifted[y][x_start + half + j] == dwt_step_value(
                        plane,
                        by_row,
                        x_start,
                        x_length,
                        y_start,
                        y_length,
                        x_start + half + j,
                        y,
                    ));
                } else {
                    let half = y_length / 2;
                    let k = y - y_start;
                    let j = k / 2;
                    assert(x_start + x_length <= plane[y_start + 2 * j].len());
                    assert(x_start + x_length <= plane[y_start + 2 * j + 1].len());
                    assert(x_start + x_length <= plane[y_start + j].len());
                    assert(x_start + x_length <= plane[y_start + half + j].len());
                    let a = plane[y_start + 2 * j][x];
                    let b = plane[y_start + 2 * j + 1][x];
                    lemma_half_of_multiples(a, b, m);
                    assert(lifted[y_start + j][x] == dwt_step_value(
                        plane,
                        by_row,
                        x_start,
                        x_length,
                        y_start,
                        y_length,
                        x,
                        y_start + j,
                    ));
                    assert(lifted[y_start + half + j][x] == dwt_step_value(
                        plane,
                        by_row,
                        x_start,
                        x_length,
                        y_start,
                        y_length,
                        x,
                        y_start + half + j,
                    ));
                }
            }
        }
    }
    assert(lowered =~~= plane);
}

/// The half sum and the half difference of two multiples of `2 * m` are
/// multiples of `m`, and their sum and difference give the two back.
pub proof fn lemma_half_of_multiples(a: int, b: int, m: int)
    requires
        m >= 1,
        a % (2 * m) == 0,
        b % (2 * m) == 0,
    ensures
        ((a + b) / 2) % m == 0,
        ((a - b) / 2) % m == 0,
        (a + b) / 2 + (a - b) / 2 == a,
        (a + b) / 2 - (a - b) / 2 == b,
{
    let p = a / (2 * m);
    let q = b / (2 * m);
    assert(a == (2 * m) * p) by {
        vstd::arithmetic::div_mod::lemma_fundamental_div_mod(a, 2 * m);
    }
    assert(b == (2 * m) * q) by {
        vstd::arithmetic::div_mod::lemma_fundamental_div_mod(b, 2 * m);
    }
    assert(a + b == 2 * (m * (p + q))) by (nonlinear_arith)
        requires
            a == (2 * m) * p,
            b == (2 * m) * q,
    ;
    assert(a - b == 2 * (m * (p - q))) by (nonlinear_arith)
        requires
            a == (2 * m) * p,
            b == (2 * m) * q,
    ;
    assert((a + b) / 2 == m * (p + q));
    assert((a - b) / 2 == m * (p - q));
    vstd::arithmetic::div_mod::lemma_mod_multiples_basic(p + q, m);
    vstd::arithmetic::div_mod::lemma_mod_multiples_basic(p - q, m);
    assert(m * (p + q) == (p + q) * m) by (nonlinear_arith);
    assert(m * (p - q) == (p - q) * m) by (nonlinear_arith);
}

/// The forward transform leaves the extent of the plane as it is.
pub proof fn lemma_forward_extent(
    plane: Seq<Seq<int>>,
    x_start: int,
    x_length: nat,
    y_start: int,
    y_length: nat,
)
    ensures
        same_extent(dwt_forward(plane, x_start, x_length, y_start, y_length), plane),
    decreases x_length + y_length,
{
    if !(x_length <= 1 && y_length <= 1) {
        let rows = dwt_step(plane, true, x_start, x_length as int, y_start, y_length as int);
        let columns = dwt_step(rows, false, x_start, x_length as int, y_start, y_length as int);
        lemma_forward_extent(columns, x_start, x_length / 2, y_start, y_length / 2);
        assert(same_extent(columns, plane));
    }
}

/// The inverse transform leaves the extent of the plane as it is.
pub proof fn lemma_inverse_extent(plane: Seq<Seq<int>>, x_start: int, y_start: int, size: nat)
    ensures
        same_extent(dwt_inverse(plane, x_start, y_start, size), plane),
    decreases size,
{
    if size > 1 {
        lemma_inverse_extent(plane, x_start, y_start, size / 2);
    }
}

/// The forward transform of a square undoes its inverse transform, if the
/// side of the square is a power of two.
pub proof fn lemma_forward_undoes_inverse(
    plane: Seq<Seq<int>>,
    x_start: int,
    y_start: int,
    size: nat,
)
    requires
        is_pow2(size as int),
        covers(plane, x_start, size as int, y_start, size as int),
    ensures
        dwt_forward(dwt_inverse(plane, x_start, y_start, size), x_start, size, y_start, size)
            == plane,
    decreases size,
{
    if size > 1 {
        let half = size / 2;
        let smaller = dwt_inverse(plane, x_start, y_start, half);
        let columns = idwt_step(smaller, false, x_start, size as int, y_start, size as int);
        let rows = idwt_step(columns, true, x_start, size as int, y_start, size as int);
        assert(rows == dwt_inverse(plane, x_start, y_start, size));
        lemma_inverse_extent(plane, x_start, y_start, half);
        lemma_same_extent_covers(smaller, plane, x_start, size as int, y_start, size as int);
        assert(same_extent(columns, smaller));
        lemma_same_extent_covers(columns, smaller, x_start, size as int, y_start, size as int);
        lemma_step_undoes_inverse_step(columns, true, x_start, size as int, y_start, size as int);
        lemma_step_undoes_inverse_step(smaller, false, x_start, size as int, y_start, size as int);
        assert(covers(plane, x_start, half as int, y_start, half as int));
        lemma_forward_undoes_inverse(plane, x_start, y_start, half);
    }
}

/// The inverse transform of a square undoes its forward transform, if the
/// side of the square is a power of two and every sample of the square is a
/// multiple of the square of the side: then no halving rounds.
pub proof fn lemma_inverse_undoes_forward(
    plane: Seq<Seq<int>>,
    x_start: int,
    y_start: int,
    size: nat,
)
    requires
        is_pow2(size as int),
        covers(plane, x_start, size as int, y_start, size as int),
        multiples(plane, x_start, size as int, y_start, size as int, (size * size) as int),
    ensures
        dwt_inverse(dwt_forward(plane, x_start, size, y_start, size), x_start, y_start, size)
            == plane,
    decreases size,
{
    if size > 1 {
        let half = size / 2;
        let m: int = (half * half) as int;
        assert(m >= 1) by (nonlinear_arith)
            requires
                m == half * half,
                half >= 1,
        ;
        assert(size * size == 2 * (2 * m)) by (nonlinear_arith)
            requires
                size == 2 * half,
                m == half * half,
        ;
        let rows = dwt_step(plane, true, x_start, size as int, y_start, size as int);
        let columns = dwt_step(rows, false, x_start, size as int, y_start, size as int);
        lemma_inverse_step_undoes_step(
            plane,
            true,
            x_start,
            size as int,
            y_start,
            size as int,
            2 * m,
        );
        lemma_inverse_step_undoes_step(rows, false, x_start, size as int, y_start, size as int, m);
        assert(covers(columns, x_start, half as int, y_start, half as int));
        assert(multiples(columns, x_start, half as int, y_start, half as int, (half * half) as int));
        lemma_inverse_undoes_forward(columns, x_start, y_start, half);
        assert(dwt_forward(plane, x_start, size, y_start, size) == dwt_forward(
            columns,
            x_start,
            half,
            y_start,
            half,
        ));
    }
}

/// Doubling a power of two until it reaches a power of two that is not
/// smaller ends at that power.
pub proof fn lemma_grown_pow2(size: nat, target: nat)
    requires
        is_pow2(size as int),
        is_pow2(target as int),
        size <= target,
    ensures
        grown(size, target) == target,
    decreases target - size,
{
    if size < target {
        lemma_pow2_gap(size as int, target as int);
        assert(is_pow2(2 * size as int)) by {
            assert((2 * size as int) / 2 == size as int);
        }
        lemma_grown_pow2(2 * size, target);
    }
}

/// The inverse transform of a square whose side is a power of two works on
/// that square.
pub proof fn lemma_decode_side_pow2(size: nat)
    requires
        is_pow2(size as int),
    ensures
        decode_side(size, size) == size,
{
    lemma_grown_pow2(1, size);
}

/// A budget of at least the number of coefficients of a square, whose side
/// is a power of two, drops none of them.
pub proof fn lemma_full_budget_drops_nothing(number: nat, size: nat, u: int, v: int)
    requires
        is_pow2(size as int),
        number >= size * size,
        0 <= u < size,
        0 <= v < size,
    ensures
        !dwt_dropped(number, u, v),
{
    let side = budget_side(number) as int;
    let area = budget_area(number);
    assert(size * size >= 1) by (nonlinear_arith)
        requires
            size >= 1,
    ;
    lemma_budget_side(number);
    lemma_budget_split(number);
    if size as int > side {
        lemma_pow2_gap(side, size as int);
        assert(size * size >= 4 * (side * side)) by (nonlinear_arith)
            requires
                size >= 2 * side,
                side >= 0,
        ;
        assert(size > 2 * side ==> size * size > 4 * (side * side)) by (nonlinear_arith)
            requires
                side >= 0,
        ;
        assert(size == 2 * side);
        assert(number == 4 * area);
        if side <= u && v < side {
            lemma_zigzag_rank_bounds(side, side, u - side, v);
        }
        if u < side && side <= v {
            lemma_zigzag_rank_bounds(side, side, u, v - side);
        }
        if side <= u && side <= v {
            lemma_zigzag_rank_bounds(side, side, u - side, v - side);
        }
    }
}

/// A budget of at least the number of coefficients of a square, whose side
/// is a power of two, leaves the plane as it is.
pub proof fn lemma_truncate_full(
    plane: Seq<Seq<int>>,
    number: nat,
    x_start: int,
    y_start: int,
    size: nat,
)
    requires
        is_pow2(size as int),
        number >= size * size,
    ensures
        dwt_truncate(plane, number, x_start, size as int, y_start, size as int) == plane,
{
    let cut = dwt_truncate(plane, number, x_start, size as int, y_start, size as int);
    assert(cut.len() == plane.len());
    assert forall|y: int| 0 <= y < plane.len() implies #[trigger] cut[y] =~= plane[y] by {
        assert(cut[y].len() == plane[y].len());
        assert forall|x: int| 0 <= x < plane[y].len() implies cut[y][x] == plane[y][x] by {
            if in_rect(x_start, size as int, y_start, size as int, x, y) {
                lemma_full_budget_drops_nothing(number, size, x - x_start, y - y_start);
            }
        }
    }
    assert(cut =~~= plane);
}

/// Applying a budget twice drops no more than applying it once.
pub proof fn lemma_truncate_idempotent(
    plane: Seq<Seq<int>>,
    number: nat,
    x_start: int,
    x_length: int,
    y_start: int,
    y_length: int,
)
    ensures
        dwt_truncate(
            dwt_truncate(plane, number, x_start, x_length, y_start, y_length),
            number,
            x_start,
            x_length,
            y_start,
            y_length,
        ) == dwt_truncate(plane, number, x_start, x_length, y_start, y_length),
{
    let once = dwt_truncate(plane, number, x_start, x_length, y_start, y_length);
    let twice = dwt_truncate(once, number, x_start, x_length, y_start, y_length);
    assert(twice.len() == once.len());
    assert forall|y: int| 0 <= y < once.len() implies #[trigger] twice[y] =~= once[y] by {
        assert(twice[y].len() == once[y].len());
    }
    assert(twice =~~= once);
}

/// The inverse transform of a square leaves a larger square of zeros as it
/// is.
pub proof fn lemma_inverse_of_zero(
    plane: Seq<Seq<int>>,
    x_start: int,
    y_start: int,
    size: nat,
    outer: nat,
)
    requires
        size <= outer,
        covers(plane, x_start, outer as int, y_start, outer as int),
        within(plane, x_start, outer as int, y_start, outer as int, 0),
    ensures
        covers(
            dwt_inverse(plane, x_start, y_start, size),
            x_start,
            outer as int,
            y_start,
            outer as int,
        ),
        within(
            dwt_inverse(plane, x_start, y_start, size),
            x_start,
            outer as int,
            y_start,
            outer as int,
            0,
        ),
    decreases size,
{
    if size > 1 {
        lemma_inverse_of_zero(plane, x_start, y_start, size / 2, outer);
        let smaller = dwt_inverse(plane, x_start, y_start, size / 2);
        lemma_idwt_step_within(
            smaller,
            false,
            x_start,
            size as int,
            y_start,
            size as int,
            outer as int,
            outer as int,
            0,
        );
        let columns = idwt_step(smaller, false, x_start, size as int, y_start, size as int);
        lemma_idwt_step_within(
            columns,
            true,
            x_start,
            size as int,
            y_start,
            size as int,
            outer as int,
            outer as int,
            0,
        );
    }
}

/// Full budget: the inverse transform gives back every sample of a square
/// that was transformed under a budget of at least the number of its
/// samples, if the side of the square is a power of two and every sample is
/// a multiple of the square of the side.
pub proof fn lemma_dwt_round_trip(
    plane: Seq<Seq<int>>,
    number: nat,
    x_start: int,
    y_start: int,
    size: nat,
)
    requires
        is_pow2(size as int),
        number >= size * size,
        covers(plane, x_start, size as int, y_start, size as int),
        multiples(plane, x_start, size as int, y_start, size as int, (size * size) as int),
    ensures
        dwt_inverse(
            dwt_encoded(plane, number, x_start, size, y_start, size),
            x_start,
            y_start,
            decode_side(size, size),
        ) == plane,
{
    lemma_decode_side_pow2(size);
    lemma_truncate_full(
        dwt_forward(plane, x_start, size, y_start, size),
        number,
        x_start,
        y_start,
        size,
    );
    lemma_inverse_undoes_forward(plane, x_start, y_start, size);
}

/// No budget: the inverse transform of a square that was transformed under
/// a budget of zero gives zero for every sample of the square, if the side of
/// the square is a power of two.
pub proof fn lemma_dwt_zero_budget(plane: Seq<Seq<int>>, x_start: int, y_start: int, size: nat)
    requires
        is_pow2(size as int),
        covers(plane, x_start, size as int, y_start, size as int),
    ensures
        within(
            dwt_inverse(
                dwt_encoded(plane, 0, x_start, size, y_start, size),
                x_start,
                y_start,
                decode_side(size, size),
            ),
            x_start,
            size as int,
            y_start,
            size as int,
            0,
        ),
{
    lemma_decode_side_pow2(size);
    let forward = dwt_forward(plane, x_start, size, y_start, size);
    let encoded = dwt_encoded(plane, 0, x_start, size, y_start, size);
    lemma_forward_extent(plane, x_start, size, y_start, size);
    lemma_same_extent_covers(forward, plane, x_start, size as int, y_start, size as int);
    assert(same_extent(encoded, forward));
    lemma_same_extent_covers(encoded, forward, x_start, size as int, y_start, size as int);
    assert forall|x: int, y: int|
        in_rect(x_start, size as int, y_start, size as int, x, y) implies 0 <= (
    #[trigger] encoded[y][x]) <= 0 by {
        assert(x_start + size <= forward[y].len());
        assert(dwt_dropped(0, x - x_start, y - y_start));
    }
    lemma_inverse_of_zero(encoded, x_start, y_start, size, size);
}

/// Encoding again: a square that was transformed under a budget, put back
/// by the inverse transform and transformed again under the same budget has
/// the coefficients that it had after the first transform, if the side of the
/// square is a power of two.
pub proof fn lemma_dwt_encode_again(
    plane: Seq<Seq<int>>,
    number: nat,
    x_start: int,
    y_start: int,
    size: nat,
)
    requires
        is_pow2(size as int),
        covers(plane, x_start, size as int, y_start, size as int),
    ensures
        dwt_encoded(
            dwt_inverse(
                dwt_encoded(plane, number, x_start, size, y_start, size),
                x_start,
                y_start,
                decode_side(size, size),
            ),
            number,
            x_start,
            size,
            y_start,
            size,
        ) == dwt_encoded(plane, number, x_start, size, y_start, size),
{
    lemma_decode_side_pow2(size);
    let forward = dwt_forward(plane, x_start, size, y_start, size);
    let encoded = dwt_encoded(plane, number, x_start, size, y_start, size);
    lemma_forward_extent(plane, x_start, size, y_start, size);
    lemma_same_extent_covers(forward, plane, x_start, size as int, y_start, size as int);
    assert(same_extent(encoded, forward));
    lemma_same_extent_covers(encoded, forward, x_start, size as int, y_start, size as int);
    lemma_forward_undoes_inverse(encoded, x_start, y_start, size);
    lemma_truncate_idempotent(forward, number, x_start, size as int, y_start, size as int);
}

/// The forward transform leaves the magnitudes of the samples of the
/// rectangle within the limit they were in.
pub proof fn lemma_forward_within(
    plane: Seq<Seq<int>>,
    x_start: int,
    x_length: nat,
    y_start: int,
    y_length: nat,
    x_outer: int,
    y_outer: int,
    limit: int,
)
    requires
        x_length <= x_outer,
        y_length <= y_outer,
        0 <= limit,
        covers(plane, x_start, x_outer, y_start, y_outer),
        within(plane, x_start, x_outer, y_start, y_outer, limit),
    ensures
        covers(
            dwt_forward(plane, x_start, x_length, y_start, y_length),
            x_start,
            x_outer,
            y_start,
            y_outer,
        ),
        within(
            dwt_forward(plane, x_start, x_length, y_start, y_length),
            x_start,
            x_outer,
            y_start,
            y_outer,
            limit,
        ),
    decreases x_length + y_length,
{
    if !(x_length <= 1 && y_length <= 1) {
        lemma_dwt_step_within(
            plane,
            true,
            x_start,
            x_length as int,
            y_start,
            y_length as int,
            x_outer,
            y_outer,
            limit,
        );
        let rows = dwt_step(plane, true, x_start, x_length as int, y_start, y_length as int);
        lemma_dwt_step_within(
            rows,
            false,
            x_start,
            x_length as int,
            y_start,
            y_length as int,
            x_outer,
            y_outer,
            limit,
        );
        let columns = dwt_step(rows, false, x_start, x_length as int, y_start, y_length as int);
        lemma_forward_within(
            columns,
            x_start,
            x_length / 2,
            y_start,
            y_length / 2,
            x_outer,
            y_outer,
            limit,
        );
    }
}

/// The transform under a budget leaves the magnitudes of the samples of the
/// rectangle within the limit they were in.
pub proof fn lemma_encoded_within(
    plane: Seq<Seq<int>>,
    number: nat,
    x_start: int,
    x_length: nat,
    y_start: int,
    y_length: nat,
    limit: int,
)
    requires
        0 <= limit,
        covers(plane, x_start, x_length as int, y_start, y_length as int),
        within(plane, x_start, x_length as int, y_start, y_length as int, limit),
    ensures
        within(
            dwt_encoded(plane, number, x_start, x_length, y_start, y_length),
            x_start,
            x_length as int,
            y_start,
            y_length as int,
            limit,
        ),
{
    lemma_forward_within(
        plane,
        x_start,
        x_length,
        y_start,
        y_length,
        x_length as int,
        y_length as int,
        limit,
    );
    let forward = dwt_forward(plane, x_start, x_length, y_start, y_length);
    let encoded = dwt_encoded(plane, number, x_start, x_length, y_start, y_length);
    assert forall|x: int, y: int|
        in_rect(x_start, x_length as int, y_start, y_length as int, x, y) implies -limit <= (
    #[trigger] encoded[y][x]) <= limit by {
        assert(x_start + x_length <= forward[y].len());
        assert(-limit <= forward[y][x] <= limit);
    }
}

} // verus!
