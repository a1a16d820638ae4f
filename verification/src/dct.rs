//! Block cosine transform: which coefficients of a block are computed, which
//! are dropped, and where the results go.
//!
//! The transform is generic in the type of its coefficients. The caller
//! hands in the two kernels: the forward kernel computes one coefficient of a
//! block of samples, the inverse kernel one sample from a block of
//! coefficients. This module decides, from the budget and the zigzag order,
//! which coefficients are kept, and places every result.

use vstd::prelude::*;
use crate::channel::Channel;
use crate::grid::{has_rect, in_grid, in_rect, put, same_shape, value_at};
use crate::pixel::Pixel;
use crate::zigzag::{
    in_block, lemma_zigzag_rank_bounds, lemma_zigzag_rank_injective, zigzag_rank, Zigzag,
};

verus! {

/// Whether `value` may stand at the place `(u, v)` of an encoded block: one of
/// the first `number` places in zigzag order holds what the kernel returned
/// for it, every other place holds `zero`.
pub open spec fn dct_encoded<
    T,
    K: Fn(&Vec<Vec<Pixel<u8>>>, usize, usize, Channel, usize, usize, usize, usize) -> T,
>(
    kernel: &K,
    block: &Vec<Vec<Pixel<u8>>>,
    number: usize,
    block_size: usize,
    x_start: usize,
    x_length: usize,
    y_start: usize,
    y_length: usize,
    zero: T,
    u: int,
    v: int,
    c: Channel,
    value: T,
) -> bool {
    if zigzag_rank(block_size as int, block_size as int, u, v) < number {
        kernel.ensures(
            (block, u as usize, v as usize, c, x_start, x_length, y_start, y_length),
            value,
        )
    } else {
        value == zero
    }
}

/// Fills the block of `frequencies` that starts at `(x_start, y_start)` and is
/// `block_size` wide and high. The first `number` coefficients in zigzag order
/// are computed by `kernel` from `block`, one call for each channel; the
/// others are set to `zero`. The rest of the grid is left as it is.
pub fn dct_encode_block<T: Copy, K>(
    block: &Vec<Vec<Pixel<u8>>>,
    frequencies: &mut Vec<Vec<Pixel<T>>>,
    number: usize,
    block_size: usize,
    x_start: usize,
    x_length: usize,
    y_start: usize,
    y_length: usize,
    zero: T,
    kernel: &K,
) where K: Fn(&Vec<Vec<Pixel<u8>>>, usize, usize, Channel, usize, usize, usize, usize) -> T
    requires
        block_size * block_size <= usize::MAX,
        has_rect(
            old(frequencies)@,
            x_start as int,
            block_size as int,
            y_start as int,
            block_size as int,
        ),
        forall|u: usize, v: usize, c: Channel|
            u < block_size && v < block_size ==> #[trigger] kernel.requires(
                (block, u, v, c, x_start, x_length, y_start, y_length),
            ),
    ensures
        same_shape(final(frequencies)@, old(frequencies)@),
        forall|x: int, y: int|
            in_grid(old(frequencies)@, x, y) && !in_rect(
                x_start as int,
                block_size as int,
                y_start as int,
                block_size as int,
                x,
                y,
            ) ==> #[trigger] final(frequencies)@[y]@[x] == old(frequencies)@[y]@[x],
        forall|x: int, y: int, c: Channel|
            in_rect(x_start as int, block_size as int, y_start as int, block_size as int, x, y)
                ==> dct_encoded(
                kernel,
                block,
                number,
                block_size,
                x_start,
                x_length,
                y_start,
                y_length,
                zero,
                x - x_start,
                y - y_start,
                c,
                #[trigger] value_at(final(frequencies)@, x, y, c),
            ),
{
    let channels = Channel::iterator();
    let mut zigzag = Zigzag::new(block_size * block_size, block_size, block_size);
    let mut taken: usize = 0;
    proof {
        assert forall|x: int, y: int|
            in_rect(
                x_start as int,
                block_size as int,
                y_start as int,
                block_size as int,
                x,
                y,
            ) implies 0 <= #[trigger] zigzag_rank(
            block_size as int,
            block_size as int,
            x - x_start,
            y - y_start,
        ) by {
            lemma_zigzag_rank_bounds(block_size as int, block_size as int, x - x_start, y - y_start);
        }
    }
    while taken < number
        invariant_except_break
            zigzag.position() == taken,
        invariant
            taken <= number,
            zigzag.position() <= block_size * block_size,
            zigzag.width() == block_size,
            zigzag.height() == block_size,
            zigzag.limit() == block_size * block_size,
            channels@ == seq![Channel::R, Channel::G, Channel::B],
            has_rect(
                frequencies@,
                x_start as int,
                block_size as int,
                y_start as int,
                block_size as int,
            ),
            same_shape(frequencies@, old(frequencies)@),
            forall|u: usize, v: usize, c: Channel|
                u < block_size && v < block_size ==> #[trigger] kernel.requires(
                    (block, u, v, c, x_start, x_length, y_start, y_length),
                ),
            forall|x: int, y: int|
                in_grid(old(frequencies)@, x, y) && !in_rect(
                    x_start as int,
                    block_size as int,
                    y_start as int,
                    block_size as int,
                    x,
                    y,
                ) ==> #[trigger] frequencies@[y]@[x] == old(frequencies)@[y]@[x],
            forall|x: int, y: int, c: Channel|
                in_rect(x_start as int, block_size as int, y_start as int, block_size as int, x, y)
                    && zigzag_rank(block_size as int, block_size as int, x - x_start, y - y_start)
                    < zigzag.position() ==> dct_encoded(
                    kernel,
                    block,
                    number,
                    block_size,
                    x_start,
                    x_length,
                    y_start,
                    y_length,
                    zero,
                    x - x_start,
                    y - y_start,
                    c,
                    #[trigger] value_at(frequencies@, x, y, c),
                ),
        ensures
            zigzag.position() >= number || zigzag.position() >= block_size * block_size,
        decreases number - taken,
    {
        let ghost before = frequencies@;
        let ghost rank = zigzag.position();
        match zigzag.next() {
            Some((u, v)) => {
                assert(y_start + block_size <= frequencies.len());
                assert(x_start + block_size <= frequencies@[y_start + v].len());
                let x_cell: usize = x_start + u;
                let y_cell: usize = y_start + v;
                let mut k: usize = 0;
                while k < 3
                    invariant
                        k <= 3,
                        u < block_size,
                        v < block_size,
                        x_cell == x_start + u,
                        y_cell == y_start + v,
                        in_grid(frequencies@, x_cell as int, y_cell as int),
                        channels@ == seq![Channel::R, Channel::G, Channel::B],
                        kernel.requires((block, u, v, Channel::R, x_start, x_length, y_start, y_length)),
                        kernel.requires((block, u, v, Channel::G, x_start, x_length, y_start, y_length)),
                        kernel.requires((block, u, v, Channel::B, x_start, x_length, y_start, y_length)),
                        has_rect(
                frequencies@,
                x_start as int,
                block_size as int,
                y_start as int,
                block_size as int,
            ),
                        same_shape(frequencies@, before),
                        forall|x: int, y: int|
                            in_grid(before, x, y) && !(x == x_start + u && y == y_start + v)
                                ==> #[trigger] frequencies@[y]@[x] == before[y]@[x],
                        forall|j: int|
                            0 <= j < k ==> kernel.ensures(
                                (
                                    block,
                                    u,
                                    v,
                                    #[trigger] channels@[j],
                                    x_start,
                                    x_length,
                                    y_start,
                                    y_length,
                                ),
                                value_at(frequencies@, x_start + u, y_start + v, channels@[j]),
                            ),
                    decreases 3 - k,
                {
                    let c = channels[k];
                    let value = kernel(block, u, v, c, x_start, x_length, y_start, y_length);
                    put(frequencies, x_cell, y_cell, &c, value);
                    k += 1;
                }
                proof {
                    assert forall|x: int, y: int, c: Channel|
                        in_rect(
                            x_start as int,
                            block_size as int,
                            y_start as int,
                            block_size as int,
                            x,
                            y,
                        ) && zigzag_rank(
                            block_size as int,
                            block_size as int,
                            x - x_start,
                            y - y_start,
                        ) < zigzag.position() implies dct_encoded(
                        kernel,
                        block,
                        number,
                        block_size,
                        x_start,
                        x_length,
                        y_start,
                        y_length,
                        zero,
                        x - x_start,
                        y - y_start,
                        c,
                        #[trigger] value_at(frequencies@, x, y, c),
                    ) by {
                        if x == x_start + u && y == y_start + v {
                            assert(c == channels@[0] || c == channels@[1] || c == channels@[2]);
                        } else {
                            let side = block_size as int;
                            if zigzag_rank(side, side, x - x_start, y - y_start) == rank {
                                lemma_zigzag_rank_injective(
                                    side,
                                    side,
                                    x - x_start,
                                    y - y_start,
                                    u as int,
                                    v as int,
                                );
                            }
                            assert(frequencies@[y]@[x] == before[y]@[x]);
                            assert(value_at(frequencies@, x, y, c) == value_at(before, x, y, c));
                        }
                    }
                }
            },
            None => {
                break;
            },
        }
        taken += 1;
    }
    loop
        invariant
            zigzag.position() >= number || zigzag.position() >= block_size * block_size,
            zigzag.position() <= block_size * block_size,
            zigzag.width() == block_size,
            zigzag.height() == block_size,
            zigzag.limit() == block_size * block_size,
            has_rect(
                frequencies@,
                x_start as int,
                block_size as int,
                y_start as int,
                block_size as int,
            ),
            same_shape(frequencies@, old(frequencies)@),
            forall|x: int, y: int|
                in_grid(old(frequencies)@, x, y) && !in_rect(
                    x_start as int,
                    block_size as int,
                    y_start as int,
                    block_size as int,
                    x,
                    y,
                ) ==> #[trigger] frequencies@[y]@[x] == old(frequencies)@[y]@[x],
            forall|x: int, y: int, c: Channel|
                in_rect(x_start as int, block_size as int, y_start as int, block_size as int, x, y)
                    && zigzag_rank(block_size as int, block_size as int, x - x_start, y - y_start)
                    < zigzag.position() ==> dct_encoded(
                    kernel,
                    block,
                    number,
                    block_size,
                    x_start,
                    x_length,
                    y_start,
                    y_length,
                    zero,
                    x - x_start,
                    y - y_start,
                    c,
                    #[trigger] value_at(frequencies@, x, y, c),
                ),
        ensures
            zigzag.position() >= block_size * block_size,
        decreases block_size * block_size - zigzag.position(),
    {
        let ghost before = frequencies@;
        let ghost rank = zigzag.position();
        match zigzag.next() {
            Some((u, v)) => {
                assert(y_start + block_size <= frequencies.len());
                assert(x_start + block_size <= frequencies@[y_start + v].len());
                let x_cell: usize = x_start + u;
                let y_cell: usize = y_start + v;
                put(frequencies, x_cell, y_cell, &Channel::R, zero);
                put(frequencies, x_cell, y_cell, &Channel::G, zero);
                put(frequencies, x_cell, y_cell, &Channel::B, zero);
                proof {
                    assert forall|x: int, y: int, c: Channel|
                        in_rect(
                            x_start as int,
                            block_size as int,
                            y_start as int,
                            block_size as int,
                            x,
                            y,
                        ) && zigzag_rank(
                            block_size as int,
                            block_size as int,
                            x - x_start,
                            y - y_start,
                        ) < zigzag.position() implies dct_encoded(
                        kernel,
                        block,
                        number,
                        block_size,
                        x_start,
                        x_length,
                        y_start,
                        y_length,
                        zero,
                        x - x_start,
                        y - y_start,
                        c,
                        #[trigger] value_at(frequencies@, x, y, c),
                    ) by {
                        if x == x_start + u && y == y_start + v {
                        } else {
                            let side = block_size as int;
                            if zigzag_rank(side, side, x - x_start, y - y_start) == rank {
                                lemma_zigzag_rank_injective(
                                    side,
                                    side,
                                    x - x_start,
                                    y - y_start,
                                    u as int,
                                    v as int,
                                );
                            }
                            assert(frequencies@[y]@[x] == before[y]@[x]);
                            assert(value_at(frequencies@, x, y, c) == value_at(before, x, y, c));
                        }
                    }
                }
            },
            None => {
                break;
            },
        }
    }
    proof {
        assert forall|x: int, y: int, c: Channel|
            in_rect(
                x_start as int,
                block_size as int,
                y_start as int,
                block_size as int,
                x,
                y,
            ) implies dct_encoded(
            kernel,
            block,
            number,
            block_size,
            x_start,
            x_length,
            y_start,
            y_length,
            zero,
            x - x_start,
            y - y_start,
            c,
            #[trigger] value_at(frequencies@, x, y, c),
        ) by {
            lemma_zigzag_rank_bounds(block_size as int, block_size as int, x - x_start, y - y_start);
        }
    }
}

/// No budget: under a budget of zero every place of an encoded block holds
/// `zero`.
pub proof fn lemma_dct_zero_budget<
    T,
    K: Fn(&Vec<Vec<Pixel<u8>>>, usize, usize, Channel, usize, usize, usize, usize) -> T,
>(
    kernel: &K,
    block: &Vec<Vec<Pixel<u8>>>,
    block_size: usize,
    x_start: usize,
    x_length: usize,
    y_start: usize,
    y_length: usize,
    zero: T,
    u: int,
    v: int,
    c: Channel,
    value: T,
)
    requires
        in_block(block_size as int, block_size as int, u, v),
        dct_encoded(
            kernel,
            block,
            0,
            block_size,
            x_start,
            x_length,
            y_start,
            y_length,
            zero,
            u,
            v,
            c,
            value,
        ),
    ensures
        value == zero,
{
    lemma_zigzag_rank_bounds(block_size as int, block_size as int, u, v);
}

/// Full budget: under a budget of at least the number of places of a block
/// every place of the encoded block holds what the kernel returned for it.
pub proof fn lemma_dct_full_budget<
    T,
    K: Fn(&Vec<Vec<Pixel<u8>>>, usize, usize, Channel, usize, usize, usize, usize) -> T,
>(
    kernel: &K,
    block: &Vec<Vec<Pixel<u8>>>,
    number: usize,
    block_size: usize,
    x_start: usize,
    x_length: usize,
    y_start: usize,
    y_length: usize,
    zero: T,
    u: int,
    v: int,
    c: Channel,
    value: T,
)
    requires
        in_block(block_size as int, block_size as int, u, v),
        number >= block_size * block_size,
        dct_encoded(
            kernel,
            block,
            number,
            block_size,
            x_start,
            x_length,
            y_start,
            y_length,
            zero,
            u,
            v,
            c,
            value,
        ),
    ensures
        kernel.ensures(
            (block, u as usize, v as usize, c, x_start, x_length, y_start, y_length),
            value,
        ),
{
    lemma_zigzag_rank_bounds(block_size as int, block_size as int, u, v);
}

/// The byte that stands for a rounded sample: the sample, limited to the
/// range of a byte.
pub open spec fn clamped(rounded: int) -> int {
    if rounded < 0 {
        0
    } else if rounded > 255 {
        255
    } else {
        rounded
    }
}

/// The byte that stands for a rounded sample.
pub fn clamp_to_byte(rounded: i64) -> (level: u8)
    ensures
        level == clamped(rounded as int),
{
    if rounded < 0 {
        0
    } else if rounded > 255 {
        255
    } else {
        rounded as u8
    }
}

/// Whether `value` may stand at the place `(x, y)` of a decoded block: it is
/// the byte for a rounded sample that the kernel returned for the place.
pub open spec fn dct_decoded<
    T,
    K: Fn(&Vec<Vec<Pixel<T>>>, usize, usize, Channel, usize, usize, usize, usize) -> i64,
>(
    kernel: &K,
    frequencies: &Vec<Vec<Pixel<T>>>,
    x_start: usize,
    x_length: usize,
    y_start: usize,
    y_length: usize,
    x: int,
    y: int,
    c: Channel,
    value: u8,
) -> bool {
    exists|rounded: i64|
        #[trigger] kernel.ensures(
            (frequencies, x as usize, y as usize, c, x_start, x_length, y_start, y_length),
            rounded,
        ) && value == clamped(rounded as int)
}

/// Fills the rectangle of `block` with the samples that `kernel` computes
/// from `frequencies`, one call for each cell and channel: the kernel returns
/// a rounded sample, and the cell gets the byte that stands for it. The rest
/// of the grid is left as it is.
pub fn dct_decode_block<T, K>(
    block: &mut Vec<Vec<Pixel<u8>>>,
    frequencies: &Vec<Vec<Pixel<T>>>,
    x_start: usize,
    x_length: usize,
    y_start: usize,
    y_length: usize,
    kernel: &K,
) where K: Fn(&Vec<Vec<Pixel<T>>>, usize, usize, Channel, usize, usize, usize, usize) -> i64
    requires
        has_rect(old(block)@, x_start as int, x_length as int, y_start as int, y_length as int),
        forall|x: usize, y: usize, c: Channel|
            x < x_length && y < y_length ==> #[trigger] kernel.requires(
                (frequencies, x, y, c, x_start, x_length, y_start, y_length),
            ),
    ensures
        same_shape(final(block)@, old(block)@),
        forall|x: int, y: int|
            in_grid(old(block)@, x, y) && !in_rect(
                x_start as int,
                x_length as int,
                y_start as int,
                y_length as int,
                x,
                y,
            ) ==> #[trigger] final(block)@[y]@[x] == old(block)@[y]@[x],
        forall|x: int, y: int, c: Channel|
            in_rect(x_start as int, x_length as int, y_start as int, y_length as int, x, y)
                ==> dct_decoded(
                kernel,
                frequencies,
                x_start,
                x_length,
                y_start,
                y_length,
                x - x_start,
                y - y_start,
                c,
                #[trigger] value_at(final(block)@, x, y, c),
            ),
{
    let channels = Channel::iterator();
    let mut y: usize = 0;
    while y < y_length
        invariant
            y <= y_length,
            channels@ == seq![Channel::R, Channel::G, Channel::B],
            has_rect(block@, x_start as int, x_length as int, y_start as int, y_length as int),
            same_shape(block@, old(block)@),
            forall|x: usize, y: usize, c: Channel|
                x < x_length && y < y_length ==> #[trigger] kernel.requires(
                    (frequencies, x, y, c, x_start, x_length, y_start, y_length),
                ),
            forall|i: int, j: int|
                in_grid(old(block)@, i, j) && !in_rect(
                    x_start as int,
                    x_length as int,
                    y_start as int,
                    y as int,
                    i,
                    j,
                ) ==> #[trigger] block@[j]@[i] == old(block)@[j]@[i],
            forall|i: int, j: int, c: Channel|
                in_rect(x_start as int, x_length as int, y_start as int, y as int, i, j)
                    ==> dct_decoded(
                    kernel,
                    frequencies,
                    x_start,
                    x_length,
                    y_start,
                    y_length,
                    i - x_start,
                    j - y_start,
                    c,
                    #[trigger] value_at(block@, i, j, c),
                ),
        decreases y_length - y,
    {
        assert(y_start + y_length <= block.len());
        assert(x_start + x_length <= block@[y_start + y].len());
        let mut x: usize = 0;
        while x < x_length
            invariant
                y < y_length,
                x <= x_length,
                y_start + y < block.len(),
                x_start + x_length <= block@[y_start + y].len(),
                channels@ == seq![Channel::R, Channel::G, Channel::B],
                has_rect(block@, x_start as int, x_length as int, y_start as int, y_length as int),
                same_shape(block@, old(block)@),
                forall|x: usize, y: usize, c: Channel|
                    x < x_length && y < y_length ==> #[trigger] kernel.requires(
                        (frequencies, x, y, c, x_start, x_length, y_start, y_length),
                    ),
                forall|i: int, j: int|
                    in_grid(old(block)@, i, j) && !in_rect(
                        x_start as int,
                        x_length as int,
                        y_start as int,
                        y as int,
                        i,
                        j,
                    ) && !(j == y_start + y && x_start <= i < x_start + x)
                        ==> #[trigger] block@[j]@[i] == old(block)@[j]@[i],
                forall|i: int, j: int, c: Channel|
                    in_rect(x_start as int, x_length as int, y_start as int, y as int, i, j) || (j
                        == y_start + y && x_start <= i < x_start + x) ==> dct_decoded(
                        kernel,
                        frequencies,
                        x_start,
                        x_length,
                        y_start,
                        y_length,
                        i - x_start,
                        j - y_start,
                        c,
                        #[trigger] value_at(block@, i, j, c),
                    ),
            decreases x_length - x,
        {
            let ghost before = block@;
            let x_cell: usize = x_start + x;
            let y_cell: usize = y_start + y;
            let mut k: usize = 0;
            while k < 3
                invariant
                    k <= 3,
                    y < y_length,
                    x < x_length,
                    x_cell == x_start + x,
                    y_cell == y_start + y,
                    in_grid(block@, x_cell as int, y_cell as int),
                    channels@ == seq![Channel::R, Channel::G, Channel::B],
                    kernel.requires(
                        (frequencies, x, y, Channel::R, x_start, x_length, y_start, y_length),
                    ),
                    kernel.requires(
                        (frequencies, x, y, Channel::G, x_start, x_length, y_start, y_length),
                    ),
                    kernel.requires(
                        (frequencies, x, y, Channel::B, x_start, x_length, y_start, y_length),
                    ),
                    same_shape(block@, before),
                    forall|i: int, j: int|
                        in_grid(before, i, j) && !(i == x_cell && j == y_cell)
                            ==> #[trigger] block@[j]@[i] == before[j]@[i],
                    forall|done: Channel|
                        done.index() < k ==> dct_decoded(
                            kernel,
                            frequencies,
                            x_start,
                            x_length,
                            y_start,
                            y_length,
                            x as int,
                            y as int,
                            done,
                            #[trigger] value_at(block@, x_cell as int, y_cell as int, done),
                        ),
                decreases 3 - k,
            {
                let c = channels[k];
                assert(c.index() == k);
                let rounded = kernel(frequencies, x, y, c, x_start, x_length, y_start, y_length);
                let ghost earlier = block@;
                put(block, x_cell, y_cell, &c, clamp_to_byte(rounded));
                proof {
                    assert forall|done: Channel| done.index() < k + 1 implies dct_decoded(
                        kernel,
                        frequencies,
                        x_start,
                        x_length,
                        y_start,
                        y_length,
                        x as int,
                        y as int,
                        done,
                        #[trigger] value_at(block@, x_cell as int, y_cell as int, done),
                    ) by {
                        if done.index() == k {
                            assert(done == c);
                            assert(kernel.ensures(
                                (frequencies, x, y, c, x_start, x_length, y_start, y_length),
                                rounded,
                            ));
                        } else {
                            assert(value_at(block@, x_cell as int, y_cell as int, done) == value_at(
                                earlier,
                                x_cell as int,
                                y_cell as int,
                                done,
                            ));
                        }
                    }
                }
                k += 1;
            }
            proof {
                assert forall|i: int, j: int, c: Channel|
                    in_rect(x_start as int, x_length as int, y_start as int, y as int, i, j) || (j
                        == y_start + y && x_start <= i < x_start + x + 1) implies dct_decoded(
                    kernel,
                    frequencies,
                    x_start,
                    x_length,
                    y_start,
                    y_length,
                    i - x_start,
                    j - y_start,
                    c,
                    #[trigger] value_at(block@, i, j, c),
                ) by {
                    if i == x_start + x && j == y_start + y {
                    } else {
                        assert(in_grid(before, i, j));
                        assert(block@[j]@[i] == before[j]@[i]);
                        assert(value_at(block@, i, j, c) == value_at(before, i, j, c));
                    }
                }
            }
            x += 1;
        }
        y += 1;
    }
}

/// The budget of one block when `coefficient` is shared evenly among
/// `blocks` blocks: the quotient, rounded to the nearest number, halves up.
pub open spec fn block_budget(coefficient: nat, blocks: nat) -> nat {
    (2 * coefficient + blocks) / (2 * blocks)
}

/// The budget of one block when `coefficient` is shared evenly among
/// `blocks` blocks.
pub fn dct_block_budget(coefficient: usize, blocks: usize) -> (number: usize)
    requires
        blocks > 0,
    ensures
        number == block_budget(coefficient as nat, blocks as nat),
        2 * coefficient - blocks < 2 * (blocks * number) <= 2 * coefficient + blocks,
{
    let quotient = coefficient / blocks;
    let remainder = coefficient % blocks;
    proof {
        let c = coefficient as int;
        let n = blocks as int;
        let q = quotient as int;
        let r = remainder as int;
        assert(c == n * q + r) by {
            vstd::arithmetic::div_mod::lemma_fundamental_div_mod(c, n);
        }
        assert(q * n <= c) by (nonlinear_arith)
            requires
                c == n * q + r,
                r >= 0,
        ;
        if r >= n - r {
            assert(2 * c + n == (2 * n) * (q + 1) + (2 * r - n)) by (nonlinear_arith)
                requires
                    c == n * q + r,
            ;
            vstd::arithmetic::div_mod::lemma_fundamental_div_mod_converse(
                2 * c + n,
                2 * n,
                q + 1,
                2 * r - n,
            );
            assert(q + 1 <= usize::MAX) by (nonlinear_arith)
                requires
                    q * n <= c,
                    c <= usize::MAX,
                    r >= n - r,
                    r < n,
                    c == n * q + r,
                    n >= 1,
            ;
        } else {
            assert(2 * c + n == (2 * n) * q + (2 * r + n)) by (nonlinear_arith)
                requires
                    c == n * q + r,
            ;
            vstd::arithmetic::div_mod::lemma_fundamental_div_mod_converse(
                2 * c + n,
                2 * n,
                q,
                2 * r + n,
            );
        }
    }
    if remainder >= blocks - remainder {
        assert(blocks * (quotient + 1) == blocks * quotient + blocks) by (nonlinear_arith);
        quotient + 1
    } else {
        quotient
    }
}

} // verus!
