//! How a coefficient budget is laid over a transformed block.
//!
//! The budget keeps a square of coefficients at the origin of the block
//! whole, and shares what is left among the three squares of the same size
//! to its right, below it and diagonally below it. The square below is served
//! first, then the one to the right; the diagonal one gets coefficients only
//! when both others are full. Within a square the coefficients are kept in
//! zigzag order. Everything farther out is dropped.

use vstd::prelude::*;
use crate::pow2::is_pow2;
use crate::zigzag::zigzag_rank;

verus! {

/// The side of the square that a budget keeps whole: zero for no budget,
/// else the power of two whose square is below the budget and at least a
/// quarter of it, and one for a budget of one.
pub open spec fn budget_side(number: nat) -> nat
    decreases number,
{
    if number == 0 {
        0
    } else if number <= 4 {
        1
    } else {
        2 * budget_side((number + 3) / 4)
    }
}

/// The number of coefficients in the square that a budget keeps whole.
pub open spec fn budget_area(number: nat) -> nat {
    budget_side(number) * budget_side(number)
}

/// The smaller of two numbers.
pub open spec fn least(a: int, b: int) -> int {
    if a <= b {
        a
    } else {
        b
    }
}

/// The number of coefficients that a budget keeps in the square below: what
/// the square at the origin leaves of the budget, as far as the square holds
/// it.
pub open spec fn budget_down(number: nat) -> nat {
    least(number - budget_area(number), budget_area(number) as int) as nat
}

/// The number of coefficients that a budget keeps in the square to the
/// right: what the square below leaves of the budget, as far as the square
/// holds it.
pub open spec fn budget_right(number: nat) -> nat {
    least(
        number - budget_area(number) - budget_down(number),
        budget_area(number) as int,
    ) as nat
}

/// The number of coefficients that a budget keeps in the diagonal square:
/// what the other three squares leave of the budget.
pub open spec fn budget_diagonal(number: nat) -> nat {
    (number - budget_area(number) - budget_down(number) - budget_right(number)) as nat
}

/// Whether a budget drops the coefficient at the place `(u, v)` of a block.
pub open spec fn dwt_dropped(number: nat, u: int, v: int) -> bool {
    let side = budget_side(number) as int;
    if u >= 2 * side || v >= 2 * side {
        true
    } else if u < side && v < side {
        false
    } else if v < side {
        zigzag_rank(side, side, u - side, v) >= budget_right(number)
    } else if u < side {
        zigzag_rank(side, side, u, v - side) >= budget_down(number)
    } else {
        zigzag_rank(side, side, u - side, v - side) >= budget_diagonal(number)
    }
}

/// The square that a budget keeps whole has a power of two as its side and
/// holds at least a quarter of the budget, but less than a budget of two or
/// more.
pub proof fn lemma_budget_side(number: nat)
    requires
        number >= 1,
    ensures
        is_pow2(budget_side(number) as int),
        budget_area(number) <= number <= 4 * budget_area(number),
        number >= 2 ==> budget_area(number) < number,
    decreases number,
{
    if number > 4 {
        let m = (number + 3) / 4;
        lemma_budget_side(m);
        let s = budget_side(m);
        assert((2 * s) * (2 * s) == 4 * (s * s)) by (nonlinear_arith);
        assert(is_pow2(2 * s as int)) by {
            assert((2 * s as int) / 2 == s as int);
        }
    } else {
        assert(1nat * 1nat == 1nat);
    }
}

/// No square gets more coefficients than it holds, and the four squares
/// together get the whole budget.
pub proof fn lemma_budget_split(number: nat)
    ensures
        budget_right(number) <= budget_area(number),
        budget_down(number) <= budget_area(number),
        budget_diagonal(number) <= budget_area(number),
        budget_area(number) + budget_right(number) + budget_down(number) + budget_diagonal(number)
            == number,
{
    if number >= 1 {
        lemma_budget_side(number);
    } else {
        assert(0nat * 0nat == 0nat);
    }
}

/// How many coefficients a budget keeps in each of the four squares.
#[derive(Clone, Copy, Debug)]
pub struct BudgetSplit {
    /// The side of each square.
    pub side_length: usize,
    /// The number kept in the square to the right.
    pub right: usize,
    /// The number kept in the square below.
    pub down: usize,
    /// The number kept in the diagonal square.
    pub diagonal: usize,
}

/// Lays the budget `number` over a block.
pub fn dwt_budget_split(number: usize) -> (split: BudgetSplit)
    ensures
        split.side_length == budget_side(number as nat),
        split.right == budget_right(number as nat),
        split.down == budget_down(number as nat),
        split.diagonal == budget_diagonal(number as nat),
        split.right <= split.side_length * split.side_length,
        split.down <= split.side_length * split.side_length,
        split.diagonal <= split.side_length * split.side_length,
        split.side_length * split.side_length + split.right + split.down + split.diagonal
            == number,
        number >= 1 ==> is_pow2(split.side_length as int),
{
    if number == 0 {
        assert(0nat * 0nat == 0nat);
        return BudgetSplit { side_length: 0, right: 0, down: 0, diagonal: 0 };
    }
    let mut side_length: usize = 1;
    let mut n: usize = number;
    assert((n - 1) * (1 * 1) < number) by (nonlinear_arith)
        requires
            n == number,
    ;
    assert(budget_side(number as nat) == 1 * budget_side(n as nat));
    while n > 4
        invariant
            1 <= n <= number,
            1 <= side_length,
            budget_side(number as nat) == side_length * budget_side(n as nat),
            (n - 1) * (side_length * side_length) < number,
        decreases n,
    {
        let ghost m = n;
        let ghost s = side_length;
        n = (n - 1) / 4 + 1;
        assert(n as nat == (m + 3) as nat / 4);
        assert(4 * (n - 1) <= m - 1);
        assert((n - 1) * ((2 * s) * (2 * s)) <= (m - 1) * (s * s)) by (nonlinear_arith)
            requires
                4 * (n - 1) <= m - 1,
                0 <= n - 1,
        ;
        assert(2 * s <= (n - 1) * ((2 * s) * (2 * s))) by (nonlinear_arith)
            requires
                n >= 2,
                s >= 1,
        ;
        side_length = 2 * side_length;
        assert(s * (2 * budget_side(n as nat)) == (2 * s) * budget_side(n as nat))
            by (nonlinear_arith);
    }
    proof {
        lemma_budget_side(number as nat);
        lemma_budget_split(number as nat);
        assert(side_length * 1 == side_length) by (nonlinear_arith);
    }
    assert(side_length == budget_side(number as nat));
    let area: usize = side_length * side_length;
    let rest: usize = number - area;
    let down: usize = if rest < area {
        rest
    } else {
        area
    };
    let rest: usize = rest - down;
    let right: usize = if rest < area {
        rest
    } else {
        area
    };
    BudgetSplit { side_length, right, down, diagonal: rest - right }
}

} // verus!
