//! What holds of the wavelet transform of an image: what the inverse
//! transform gives back under a full budget and under a budget of zero, and
//! what the transform makes of it again.

use vstd::prelude::*;
use crate::channel::Channel;
use crate::dwt::{decode_side, dwt_encoded, dwt_inverse};
use crate::dwt_laws::{
    lemma_dwt_encode_again, lemma_dwt_round_trip, lemma_dwt_zero_budget, lemma_forward_extent,
    lemma_inverse_extent,
};
use crate::grid::{in_rect, is_rectangular, levels, value_at};
use crate::image::{fixed, level_of, EXACT_SIDE, SAMPLE_ONE};
use crate::pixel::Pixel;
use crate::plane::{covers, multiples};
use crate::pow2::{is_pow2, lemma_pow2_divides, lemma_pow2_square};

verus! {

/// A sample that stands for a whole number is a multiple of every number
/// that divides `SAMPLE_ONE`.
proof fn lemma_whole_sample_multiple(level: int, quotient: int, m: int)
    requires
        m >= 1,
        quotient * m == SAMPLE_ONE,
    ensures
        (level * SAMPLE_ONE) % m == 0,
{
    assert(level * SAMPLE_ONE == (level * quotient) * m) by (nonlinear_arith)
        requires
            quotient * m == SAMPLE_ONE,
    ;
    vstd::arithmetic::div_mod::lemma_mod_multiples_basic(level * quotient, m);
}

/// The samples that stand for the bytes of a square image within the exact
/// side are multiples of the square of the side.
pub proof fn lemma_fixed_multiples(pixels: Seq<Vec<Pixel<u8>>>, c: Channel, size: nat)
    requires
        is_pow2(size as int),
        size <= EXACT_SIDE,
        is_rectangular(pixels, size as int, size as int),
    ensures
        covers(fixed(levels(pixels, c)), 0, size as int, 0, size as int),
        multiples(fixed(levels(pixels, c)), 0, size as int, 0, size as int, (size * size) as int),
{
    let plane = fixed(levels(pixels, c));
    let m = (size * size) as int;
    let quotient = SAMPLE_ONE as int / m;
    assert(1 <= m <= SAMPLE_ONE) by (nonlinear_arith)
        requires
            m == size * size,
            1 <= size <= 0x1000_0000,
    ;
    assert(is_pow2(SAMPLE_ONE as int)) by {
        assert(is_pow2(0x80)) by {
            reveal_with_fuel(is_pow2, 8);
        }
        lemma_pow2_square(0x80);
        lemma_pow2_square(0x4000);
        lemma_pow2_square(0x1000_0000);
    }
    lemma_pow2_square(size as int);
    lemma_pow2_divides(m, SAMPLE_ONE as int);
    assert forall|y: int| 0 <= y < size implies size <= (#[trigger] plane[y]).len() by {
        assert(pixels[y].len() == size);
    }
    assert forall|x: int, y: int| in_rect(0, size as int, 0, size as int, x, y) implies (
    #[trigger] plane[y][x]) % m == 0 by {
        assert(pixels[y].len() == size);
        lemma_whole_sample_multiple(levels(pixels, c)[y][x], quotient, m);
    }
}

/// Full budget: a square image whose side is a power of two within the exact
/// side comes back byte for byte from the wavelet transform under a budget
/// of at least the number of its pixels and the inverse transform.
pub proof fn lemma_image_dwt_round_trip(
    pixels: Seq<Vec<Pixel<u8>>>,
    c: Channel,
    number: nat,
    size: nat,
)
    requires
        is_pow2(size as int),
        size <= EXACT_SIDE,
        number >= size * size,
        is_rectangular(pixels, size as int, size as int),
    ensures
        forall|x: int, y: int|
            0 <= x < size && 0 <= y < size ==> level_of(
                #[trigger] dwt_inverse(
                    dwt_encoded(fixed(levels(pixels, c)), number, 0, size, 0, size),
                    0,
                    0,
                    decode_side(size, size),
                )[y][x],
            ) == value_at(pixels, x, y, c),
{
    lemma_fixed_multiples(pixels, c, size);
    lemma_dwt_round_trip(fixed(levels(pixels, c)), number, 0, 0, size);
    assert forall|x: int, y: int| 0 <= x < size && 0 <= y < size implies level_of(
        #[trigger] fixed(levels(pixels, c))[y][x],
    ) == value_at(pixels, x, y, c) by {
        assert(pixels[y].len() == size);
    }
}

/// No budget: a square image whose side is a power of two comes back black
/// from the wavelet transform under a budget of zero and the inverse
/// transform.
pub proof fn lemma_image_dwt_zero_budget(pixels: Seq<Vec<Pixel<u8>>>, c: Channel, size: nat)
    requires
        is_pow2(size as int),
        is_rectangular(pixels, size as int, size as int),
    ensures
        forall|x: int, y: int|
            0 <= x < size && 0 <= y < size ==> level_of(
                #[trigger] dwt_inverse(
                    dwt_encoded(fixed(levels(pixels, c)), 0, 0, size, 0, size),
                    0,
                    0,
                    decode_side(size, size),
                )[y][x],
            ) == 0,
{
    let plane = fixed(levels(pixels, c));
    assert forall|y: int| 0 <= y < size implies size <= (#[trigger] plane[y]).len() by {
        assert(pixels[y].len() == size);
    }
    lemma_dwt_zero_budget(plane, 0, 0, size);
    let decoded = dwt_inverse(
        dwt_encoded(plane, 0, 0, size, 0, size),
        0,
        0,
        decode_side(size, size),
    );
    assert forall|x: int, y: int| 0 <= x < size && 0 <= y < size implies level_of(
        #[trigger] decoded[y][x],
    ) == 0 by {
        assert(in_rect(0, size as int, 0, size as int, x, y));
    }
}

/// Encoding again: where the inverse wavelet transform of a square image,
/// whose side is a power of two, gave samples that stand for whole bytes, so
/// that the rounding to bytes changed nothing, the bytes have under the same
/// budget the coefficients that the image had.
pub proof fn lemma_image_dwt_encode_again(
    pixels: Seq<Vec<Pixel<u8>>>,
    decoded: Seq<Vec<Pixel<u8>>>,
    c: Channel,
    number: nat,
    size: nat,
)
    requires
        is_pow2(size as int),
        is_rectangular(pixels, size as int, size as int),
        is_rectangular(decoded, size as int, size as int),
        forall|x: int, y: int|
            0 <= x < size && 0 <= y < size ==> #[trigger] dwt_inverse(
                dwt_encoded(fixed(levels(pixels, c)), number, 0, size, 0, size),
                0,
                0,
                decode_side(size, size),
            )[y][x] == value_at(decoded, x, y, c) * SAMPLE_ONE,
    ensures
        dwt_encoded(fixed(levels(decoded, c)), number, 0, size, 0, size) == dwt_encoded(
            fixed(levels(pixels, c)),
            number,
            0,
            size,
            0,
            size,
        ),
{
    let plane = fixed(levels(pixels, c));
    let encoded = dwt_encoded(plane, number, 0, size, 0, size);
    let restored = dwt_inverse(encoded, 0, 0, decode_side(size, size));
    let again = fixed(levels(decoded, c));
    assert forall|y: int| 0 <= y < size implies size <= (#[trigger] plane[y]).len() by {
        assert(pixels[y].len() == size);
    }
    lemma_forward_extent(plane, 0, size, 0, size);
    lemma_inverse_extent(encoded, 0, 0, decode_side(size, size));
    assert(restored.len() == again.len());
    assert forall|y: int| 0 <= y < size implies #[trigger] restored[y] =~= again[y] by {
        assert(pixels[y].len() == size);
        assert(decoded[y].len() == size);
        assert(restored[y].len() == encoded[y].len());
        assert forall|x: int| 0 <= x < size implies restored[y][x] == again[y][x] by {
            assert(restored[y][x] == value_at(decoded, x, y, c) * SAMPLE_ONE);
        }
    }
    assert(restored =~~= again);
    lemma_dwt_encode_again(plane, number, 0, 0, size);
}

} // verus!
