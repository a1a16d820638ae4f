//! An image that lives in one of two domains: as a grid of bytes, or as a
//! grid of transform coefficients of the same extent. A transform takes the
//! image from one domain to the other and leaves nothing behind in the domain
//! it came from.

use vstd::prelude::*;
use crate::channel::Channel;
use crate::dct::{
    block_budget, dct_block_budget, dct_decode_block, dct_decoded, dct_encode_block, dct_encoded,
};
use crate::dwt::{
    decode_limit, decode_side, dwt_decodable, dwt_decode_block, dwt_encode_block, dwt_encoded,
    dwt_inverse, grown, lemma_growth, lemma_grown_reaches, lemma_not_decodable, SAMPLE_LIMIT,
};
use crate::dwt_laws::{lemma_decode_side_pow2, lemma_encoded_within};
use crate::grid::{
    copied, filled, has_rect, in_rect, is_rectangular, levels, put, rows, samples, value_at,
};
use crate::pixel::Pixel;
use crate::plane::{lemma_samples_cover, within};
use crate::pow2::is_pow2;

verus! {

/// Why an image could not be made.
#[derive(Clone, Copy, Debug, PartialEq, Eq, Structural)]
pub enum ImageError {
    /// The buffer does not hold three bytes for every pixel.
    BufferLength,
}

/// Where an image lives.
enum Domain<F> {
    /// Nowhere: the image has no grid.
    Empty,
    /// In the domain of bytes.
    Spatial(Vec<Vec<Pixel<u8>>>),
    /// In the domain of coefficients.
    Frequency(Vec<Vec<Pixel<F>>>),
}

/// An image `width` wide and `height` high with its coefficient budget and
/// the side of the blocks that the cosine transform works on. `F` is the type
/// of a coefficient.
pub struct Image<F> {
    width: usize,
    height: usize,
    coefficient: usize,
    blocksize: usize,
    state: Domain<F>,
}

impl<F> Image<F> {
    /// The grid, where there is one, has the extent of the image, and the
    /// image fits a buffer.
    #[verifier::type_invariant]
    pub closed spec fn well_formed(self) -> bool {
        &&& self.width * self.height * 3 <= usize::MAX
        &&& match self.state {
            Domain::Empty => true,
            Domain::Spatial(pixels) => is_rectangular(
                pixels@,
                self.width as int,
                self.height as int,
            ),
            Domain::Frequency(frequencies) => is_rectangular(
                frequencies@,
                self.width as int,
                self.height as int,
            ),
        }
    }

    /// The width of the image.
    pub closed spec fn width(self) -> nat {
        self.width as nat
    }

    /// The height of the image.
    pub closed spec fn height(self) -> nat {
        self.height as nat
    }

    /// The coefficient budget.
    pub closed spec fn coefficient(self) -> nat {
        self.coefficient as nat
    }

    /// The side of a block of the cosine transform.
    pub closed spec fn blocksize(self) -> nat {
        self.blocksize as nat
    }

    /// The grid of bytes, if the image has one.
    pub closed spec fn spatial(self) -> Option<Vec<Vec<Pixel<u8>>>> {
        match self.state {
            Domain::Spatial(pixels) => Some(pixels),
            _ => None,
        }
    }

    /// The grid of coefficients, if the image has one.
    pub closed spec fn frequency(self) -> Option<Vec<Vec<Pixel<F>>>> {
        match self.state {
            Domain::Frequency(frequencies) => Some(frequencies),
            _ => None,
        }
    }

    /// The grid of bytes.
    fn pixels(&self) -> (pixels: &Vec<Vec<Pixel<u8>>>)
        requires
            self.spatial().is_some(),
        ensures
            *pixels == self.spatial().unwrap(),
            is_rectangular(pixels@, self.width() as int, self.height() as int),
    {
        proof {
            use_type_invariant(self);
        }
        match &self.state {
            Domain::Spatial(pixels) => pixels,
            _ => vstd::pervasive::unreached(),
        }
    }

    /// The grid of coefficients.
    fn frequencies(&self) -> (frequencies: &Vec<Vec<Pixel<F>>>)
        requires
            self.frequency().is_some(),
        ensures
            *frequencies == self.frequency().unwrap(),
            is_rectangular(frequencies@, self.width() as int, self.height() as int),
    {
        proof {
            use_type_invariant(self);
        }
        match &self.state {
            Domain::Frequency(frequencies) => frequencies,
            _ => vstd::pervasive::unreached(),
        }
    }

    /// The coefficient budget.
    pub fn get_coefficient(&self) -> (coefficient: usize)
        ensures
            coefficient == self.coefficient(),
    {
        self.coefficient
    }

    /// Sets the coefficient budget and changes nothing else.
    pub fn set_coefficient(&mut self, coefficent: usize) -> (image: &mut Self)
        ensures
            image.coefficient() == coefficent,
            image.width() == old(self).width(),
            image.height() == old(self).height(),
            image.blocksize() == old(self).blocksize(),
            image.spatial() == old(self).spatial(),
            image.frequency() == old(self).frequency(),
            *final(self) == *final(image),
    {
        proof {
            use_type_invariant(&*self);
        }
        self.coefficient = coefficent;
        self
    }

    /// An image without pixels.
    pub fn new() -> (image: Self)
        ensures
            image.width() == 0,
            image.height() == 0,
            image.coefficient() == 0,
            image.blocksize() == 0,
            image.spatial().is_none(),
            image.frequency().is_none(),
    {
        Self { width: 0, height: 0, coefficient: 0, blocksize: 0, state: Domain::Empty }
    }
}

impl<F> Image<F> {
    /// An image in the domain of bytes, made from a buffer of three planes,
    /// one for each channel in canonical order, each holding the rows of the
    /// image one after the other. A buffer of any other length than three
    /// bytes for every pixel is refused.
    pub fn new_from_rgb(
        width: usize,
        height: usize,
        coefficient: usize,
        blocksize: usize,
        data: &[u8],
    ) -> (result: Result<Self, ImageError>)
        ensures
            match result {
                Ok(image) => {
                    &&& data@.len() == width * height * 3
                    &&& image.width() == width
                    &&& image.height() == height
                    &&& image.coefficient() == coefficient
                    &&& image.blocksize() == blocksize
                    &&& image.frequency().is_none()
                    &&& image.spatial().is_some()
                    &&& is_rectangular(image.spatial().unwrap()@, width as int, height as int)
                    &&& forall|x: int, y: int, c: Channel|
                        0 <= x < width && 0 <= y < height ==> #[trigger] value_at(
                            image.spatial().unwrap()@,
                            x,
                            y,
                            c,
                        ) == data@[c.index() * (width * height) + y * width + x]
                },
                Err(error) => error == ImageError::BufferLength && data@.len() != width * height * 3,
            },
    {
        let actual = data.len();
        assert(width * height * 3 >= width * height) by (nonlinear_arith);
        let area: usize = match width.checked_mul(height) {
            Some(area) => area,
            None => {
                return Err(ImageError::BufferLength);
            },
        };
        match area.checked_mul(3) {
            Some(length) => {
                if length != actual {
                    return Err(ImageError::BufferLength);
                }
            },
            None => {
                return Err(ImageError::BufferLength);
            },
        }
        let channels = Channel::iterator();
        let mut pixels: Vec<Vec<Pixel<u8>>> = filled(Pixel { r: 0u8, g: 0u8, b: 0u8 }, width, height);
        let mut k: usize = 0;
        while k < 3
            invariant
                k <= 3,
                channels@ == seq![Channel::R, Channel::G, Channel::B],
                area == width * height,
                data@.len() == area * 3,
                area * 3 <= usize::MAX,
                is_rectangular(pixels@, width as int, height as int),
                forall|x: int, y: int, done: Channel|
                    0 <= x < width && 0 <= y < height && done.index() < k ==> #[trigger] value_at(
                        pixels@,
                        x,
                        y,
                        done,
                    ) == data@[done.index() * area + y * width + x],
            decreases 3 - k,
        {
            let c = channels[k];
            let mut y: usize = 0;
            while y < height
                invariant
                    k < 3,
                    y <= height,
                    c.index() == k,
                    area == width * height,
                    data@.len() == area * 3,
                    area * 3 <= usize::MAX,
                    is_rectangular(pixels@, width as int, height as int),
                    forall|x: int, y: int, done: Channel|
                        0 <= x < width && 0 <= y < height && done.index() < k
                            ==> #[trigger] value_at(pixels@, x, y, done) == data@[done.index() * area
                            + y * width + x],
                    forall|x: int, yy: int|
                        0 <= x < width && 0 <= yy < y ==> #[trigger] value_at(pixels@, x, yy, c)
                            == data@[k * area + yy * width + x],
                decreases height - y,
            {
                assert((y + 1) * width <= height * width) by (nonlinear_arith)
                    requires
                        y < height,
                ;
                assert((y + 1) * width == y * width + width) by (nonlinear_arith);
                assert(height * width == width * height) by (nonlinear_arith);
                let mut x: usize = 0;
                while x < width
                    invariant
                        k < 3,
                        y < height,
                        x <= width,
                        c.index() == k,
                        area == width * height,
                        y * width + width <= area,
                        data@.len() == area * 3,
                        area * 3 <= usize::MAX,
                        is_rectangular(pixels@, width as int, height as int),
                        forall|x: int, y: int, done: Channel|
                            0 <= x < width && 0 <= y < height && done.index() < k
                                ==> #[trigger] value_at(pixels@, x, y, done) == data@[done.index()
                                * area + y * width + x],
                        forall|xx: int, yy: int|
                            0 <= xx < width && 0 <= yy < y ==> #[trigger] value_at(
                                pixels@,
                                xx,
                                yy,
                                c,
                            ) == data@[k * area + yy * width + xx],
                        forall|xx: int|
                            0 <= xx < x ==> #[trigger] value_at(pixels@, xx, y as int, c) == data@[k
                                * area + y * width + xx],
                    decreases width - x,
                {
                    assert(k * area <= 2 * area) by (nonlinear_arith)
                        requires
                            k <= 2,
                            area >= 0,
                    ;
                    let index = c.to_number() * area + y * width + x;
                    let ghost before = pixels@;
                    put(&mut pixels, x, y, &c, data[index]);
                    proof {
                        assert(before[y as int].len() == width);
                        assert forall|xx: int, yy: int, cc: Channel|
                            0 <= xx < width && 0 <= yy < height implies #[trigger] value_at(
                            pixels@,
                            xx,
                            yy,
                            cc,
                        ) == if xx == x && yy == y && cc == c {
                            data@[index as int]
                        } else {
                            value_at(before, xx, yy, cc)
                        } by {
                            assert(before[yy].len() == width);
                        }
                    }
                    x += 1;
                }
                y += 1;
            }
            k += 1;
        }
        proof {
            assert(width * height * 3 == area * 3);
        }
        Ok(Self { width, height, coefficient, blocksize, state: Domain::Spatial(pixels) })
    }

    /// The bytes of the image, pixel by pixel and row by row, the three
    /// channels of a pixel side by side.
    pub fn to_1d_vec(&self) -> (ret: Vec<u8>)
        requires
            self.spatial().is_some(),
        ensures
            ret@.len() == self.width() * self.height() * 3,
            forall|x: int, y: int, c: Channel|
                0 <= x < self.width() && 0 <= y < self.height() ==> ret@[y * (self.width() * 3) + 3
                    * x + c.index()] == #[trigger] value_at(self.spatial().unwrap()@, x, y, c),
    {
        proof {
            use_type_invariant(self);
        }
        let channels = Channel::iterator();
        let mut ret: Vec<u8> = Vec::new();
        if self.height == 0 {
            assert(self.width * self.height * 3 == 0) by (nonlinear_arith)
                requires
                    self.height == 0,
            ;
            return ret;
        }
        assert(self.width * 3 <= self.width * self.height * 3) by (nonlinear_arith)
            requires
                self.height >= 1,
        ;
        let stride = self.width * 3;
        let pixels = self.pixels();
        let mut y: usize = 0;
        while y < self.height
            invariant
                y <= self.height,
                stride == self.width * 3,
                channels@ == seq![Channel::R, Channel::G, Channel::B],
                is_rectangular(pixels@, self.width as int, self.height as int),
                ret@.len() == y * stride,
                forall|xx: int, yy: int, c: Channel|
                    0 <= xx < self.width && 0 <= yy < y ==> ret@[yy * stride + 3 * xx + c.index()]
                        == #[trigger] value_at(pixels@, xx, yy, c),
            decreases self.height - y,
        {
            assert((y + 1) * stride == y * stride + stride) by (nonlinear_arith);
            let ghost done = ret@;
            let mut x: usize = 0;
            while x < self.width
                invariant
                    y < self.height,
                    x <= self.width,
                    stride == self.width * 3,
                    channels@ == seq![Channel::R, Channel::G, Channel::B],
                    is_rectangular(pixels@, self.width as int, self.height as int),
                    ret@.len() == y * stride + 3 * x,
                    done.len() == y * stride,
                    forall|i: int| 0 <= i < done.len() ==> ret@[i] == done[i],
                    forall|xx: int, c: Channel|
                        0 <= xx < x ==> ret@[y * stride + 3 * xx + c.index()] == #[trigger] value_at(
                            pixels@,
                            xx,
                            y as int,
                            c,
                        ),
                decreases self.width - x,
            {
                assert(pixels@[y as int].len() == self.width);
                let pixel = &pixels[y][x];
                ret.push(pixel.r);
                ret.push(pixel.g);
                ret.push(pixel.b);
                x += 1;
            }
            proof {
                assert forall|xx: int, yy: int, c: Channel|
                    0 <= xx < self.width && 0 <= yy < y + 1 implies ret@[yy * stride + 3 * xx
                    + c.index()] == #[trigger] value_at(pixels@, xx, yy, c) by {
                    if yy < y {
                        assert((yy + 1) * stride <= y * stride) by (nonlinear_arith)
                            requires
                                yy + 1 <= y,
                                stride >= 0,
                        ;
                        assert((yy + 1) * stride == yy * stride + stride) by (nonlinear_arith);
                        assert(done[yy * stride + 3 * xx + c.index()] == value_at(
                            pixels@,
                            xx,
                            yy,
                            c,
                        ));
                    }
                }
            }
            y += 1;
        }
        proof {
            assert(self.height * stride == self.width * self.height * 3) by (nonlinear_arith)
                requires
                    stride == self.width * 3,
            ;
            assert forall|x: int, y: int, c: Channel|
                0 <= x < self.width() && 0 <= y < self.height() implies ret@[y * (self.width() * 3)
                + 3 * x + c.index()] == #[trigger] value_at(self.spatial().unwrap()@, x, y, c) by {
                assert(ret@[y * stride + 3 * x + c.index()] == value_at(pixels@, x, y, c));
            }
        }
        ret
    }
}

/// Whether `value` may stand for channel `c` in the cell `(x, y)` of the
/// coefficients of an image after the cosine transform. The image is cut into
/// blocks of side `blocksize`, from the origin, and each block gets an even
/// share of the budget `coefficient`. A cell of a block holds what the
/// transform of that block leaves there; a cell beyond the last whole block
/// holds `zero`.
pub open spec fn dct_image_encoded<
    F,
    K: Fn(&Vec<Vec<Pixel<u8>>>, usize, usize, Channel, usize, usize, usize, usize) -> F,
>(
    kernel: &K,
    pixels: &Vec<Vec<Pixel<u8>>>,
    coefficient: usize,
    width: usize,
    height: usize,
    blocksize: usize,
    zero: F,
    x: int,
    y: int,
    c: Channel,
    value: F,
) -> bool {
    let columns = width as int / blocksize as int;
    let rows = height as int / blocksize as int;
    if x < columns * blocksize && y < rows * blocksize {
        dct_encoded(
            kernel,
            pixels,
            block_budget(coefficient as nat, (columns * rows) as nat) as usize,
            blocksize,
            (x - x % (blocksize as int)) as usize,
            blocksize,
            (y - y % (blocksize as int)) as usize,
            blocksize,
            zero,
            x % (blocksize as int),
            y % (blocksize as int),
            c,
            value,
        )
    } else {
        value == zero
    }
}

/// Whether `value` may stand for channel `c` in the cell `(x, y)` of the
/// bytes of an image after the inverse cosine transform. A cell of a block
/// holds what the inverse transform of that block leaves there; a cell
/// beyond the last whole block holds zero.
pub open spec fn dct_image_decoded<
    F,
    K: Fn(&Vec<Vec<Pixel<F>>>, usize, usize, Channel, usize, usize, usize, usize) -> i64,
>(
    kernel: &K,
    frequencies: &Vec<Vec<Pixel<F>>>,
    width: usize,
    height: usize,
    blocksize: usize,
    x: int,
    y: int,
    c: Channel,
    value: u8,
) -> bool {
    let columns = width as int / blocksize as int;
    let rows = height as int / blocksize as int;
    if x < columns * blocksize && y < rows * blocksize {
        dct_decoded(
            kernel,
            frequencies,
            (x - x % (blocksize as int)) as usize,
            blocksize,
            (y - y % (blocksize as int)) as usize,
            blocksize,
            x % (blocksize as int),
            y % (blocksize as int),
            c,
            value,
        )
    } else {
        value == 0
    }
}

/// A cell of the block with the number `index` along an axis lies `offset`
/// from the start of that block.
pub proof fn lemma_block_of_cell(position: int, blocksize: int, index: int)
    requires
        blocksize > 0,
        index * blocksize <= position < index * blocksize + blocksize,
    ensures
        position / blocksize == index,
        position % blocksize == position - index * blocksize,
{
    vstd::arithmetic::div_mod::lemma_fundamental_div_mod_converse(
        position,
        blocksize,
        index,
        position - index * blocksize,
    );
}

impl<F: Copy> Image<F> {
    /// Takes the image to the domain of coefficients by the cosine
    /// transform. `kernel` computes one coefficient of a block; `zero` stands
    /// for a coefficient that is dropped.
    pub fn dct_encode<K>(&mut self, zero: F, kernel: &K) where
        K: Fn(&Vec<Vec<Pixel<u8>>>, usize, usize, Channel, usize, usize, usize, usize) -> F,

        requires
            old(self).spatial().is_some(),
            old(self).blocksize() > 0,
            forall|u: usize, v: usize, c: Channel, x_start: usize, y_start: usize|
                u < old(self).blocksize() && v < old(self).blocksize() && x_start + old(
                    self,
                ).blocksize() <= old(self).width() && y_start + old(self).blocksize() <= old(
                    self,
                ).height() ==> #[trigger] kernel.requires(
                    (
                        &old(self).spatial().unwrap(),
                        u,
                        v,
                        c,
                        x_start,
                        old(self).blocksize() as usize,
                        y_start,
                        old(self).blocksize() as usize,
                    ),
                ),
        ensures
            final(self).width() == old(self).width(),
            final(self).height() == old(self).height(),
            final(self).coefficient() == old(self).coefficient(),
            final(self).blocksize() == old(self).blocksize(),
            final(self).spatial().is_none(),
            final(self).frequency().is_some(),
            is_rectangular(
                final(self).frequency().unwrap()@,
                old(self).width() as int,
                old(self).height() as int,
            ),
            forall|x: int, y: int, c: Channel|
                0 <= x < old(self).width() && 0 <= y < old(self).height() ==> dct_image_encoded(
                    kernel,
                    &old(self).spatial().unwrap(),
                    old(self).coefficient() as usize,
                    old(self).width() as usize,
                    old(self).height() as usize,
                    old(self).blocksize() as usize,
                    zero,
                    x,
                    y,
                    c,
                    #[trigger] value_at(final(self).frequency().unwrap()@, x, y, c),
                ),
    {
        proof {
            use_type_invariant(&*self);
        }
        let width = self.width;
        let height = self.height;
        let blocksize = self.blocksize;
        let coefficient = self.coefficient;
        let mut frequencies: Vec<Vec<Pixel<F>>> = filled(
            Pixel { r: zero, g: zero, b: zero },
            width,
            height,
        );
        let columns = width / blocksize;
        let rows = height / blocksize;
        proof {
            let w = width as int;
            let h = height as int;
            let b = blocksize as int;
            vstd::arithmetic::div_mod::lemma_fundamental_div_mod(w, b);
            vstd::arithmetic::div_mod::lemma_fundamental_div_mod(h, b);
            assert((w / b) * b <= w) by (nonlinear_arith)
                requires
                    w == b * (w / b) + w % b,
                    w % b >= 0,
            ;
            assert((h / b) * b <= h) by (nonlinear_arith)
                requires
                    h == b * (h / b) + h % b,
                    h % b >= 0,
            ;
            assert(0 <= (w / b) * (h / b) <= w * h) by (nonlinear_arith)
                requires
                    0 <= (w / b) * b <= w,
                    0 <= (h / b) * b <= h,
                    0 <= w / b,
                    0 <= h / b,
                    b >= 1,
            ;
            assert(w * h <= w * h * 3) by (nonlinear_arith)
                requires
                    w >= 0,
                    h >= 0,
            ;
            if columns > 0 && rows > 0 {
                assert(b <= (w / b) * b && b <= (h / b) * b && (w / b) * (h / b) > 0)
                    by (nonlinear_arith)
                    requires
                        w / b >= 1,
                        h / b >= 1,
                        b >= 1,
                ;
                assert(b * b <= w * h) by (nonlinear_arith)
                    requires
                        b <= w,
                        b <= h,
                        b >= 0,
                ;
            }
        }
        if columns > 0 && rows > 0 {
            let pixels = self.pixels();
            assert(*pixels == old(self).spatial().unwrap());
            assert(old(self).blocksize() as usize == blocksize);
            let number = dct_block_budget(coefficient, columns * rows);
            let mut y_block: usize = 0;
            while y_block < rows
                invariant
                    y_block <= rows,
                    blocksize > 0,
                    columns == width as int / blocksize as int,
                    rows == height as int / blocksize as int,
                    columns * blocksize <= width,
                    rows * blocksize <= height,
                    blocksize * blocksize <= usize::MAX,
                    number == block_budget(coefficient as nat, (columns * rows) as nat),
                    is_rectangular(frequencies@, width as int, height as int),
                    forall|u: usize, v: usize, c: Channel, x_start: usize, y_start: usize|
                        u < blocksize && v < blocksize && x_start + blocksize <= width && y_start
                            + blocksize <= height ==> #[trigger] kernel.requires(
                            (pixels, u, v, c, x_start, blocksize, y_start, blocksize),
                        ),
                    forall|x: int, y: int, c: Channel|
                        0 <= x < width && 0 <= y < height ==> if y < y_block * blocksize {
                            dct_image_encoded(
                                kernel,
                                pixels,
                                coefficient,
                                width,
                                height,
                                blocksize,
                                zero,
                                x,
                                y,
                                c,
                                #[trigger] value_at(frequencies@, x, y, c),
                            )
                        } else {
                            value_at(frequencies@, x, y, c) == zero
                        },
                decreases rows - y_block,
            {
                assert((y_block + 1) * blocksize <= rows * blocksize) by (nonlinear_arith)
                    requires
                        y_block < rows,
                        blocksize >= 0,
                ;
                assert((y_block + 1) * blocksize == y_block * blocksize + blocksize)
                    by (nonlinear_arith);
                let y_start = y_block * blocksize;
                let mut x_block: usize = 0;
                while x_block < columns
                    invariant
                        y_block < rows,
                        x_block <= columns,
                        blocksize > 0,
                        y_start == y_block * blocksize,
                        y_start + blocksize <= rows * blocksize,
                        columns == width as int / blocksize as int,
                        rows == height as int / blocksize as int,
                        columns * blocksize <= width,
                        rows * blocksize <= height,
                        blocksize * blocksize <= usize::MAX,
                        number == block_budget(coefficient as nat, (columns * rows) as nat),
                        is_rectangular(frequencies@, width as int, height as int),
                        forall|u: usize, v: usize, c: Channel, x_start: usize, y_start: usize|
                            u < blocksize && v < blocksize && x_start + blocksize <= width
                                && y_start + blocksize <= height ==> #[trigger] kernel.requires(
                                (pixels, u, v, c, x_start, blocksize, y_start, blocksize),
                            ),
                        forall|x: int, y: int, c: Channel|
                            0 <= x < width && 0 <= y < height ==> if y < y_start || (y < y_start
                                + blocksize && x < x_block * blocksize) {
                                dct_image_encoded(
                                    kernel,
                                    pixels,
                                    coefficient,
                                    width,
                                    height,
                                    blocksize,
                                    zero,
                                    x,
                                    y,
                                    c,
                                    #[trigger] value_at(frequencies@, x, y, c),
                                )
                            } else {
                                value_at(frequencies@, x, y, c) == zero
                            },
                    decreases columns - x_block,
                {
                    assert((x_block + 1) * blocksize <= columns * blocksize) by (nonlinear_arith)
                        requires
                            x_block < columns,
                            blocksize >= 0,
                    ;
                    assert((x_block + 1) * blocksize == x_block * blocksize + blocksize)
                        by (nonlinear_arith);
                    let x_start = x_block * blocksize;
                    let ghost before = frequencies@;
                    dct_encode_block(
                        pixels,
                        &mut frequencies,
                        number,
                        blocksize,
                        x_start,
                        blocksize,
                        y_start,
                        blocksize,
                        zero,
                        kernel,
                    );
                    proof {
                        assert forall|x: int, y: int, c: Channel|
                            0 <= x < width && 0 <= y < height implies if y < y_start || (y < y_start
                            + blocksize && x < (x_block + 1) * blocksize) {
                            dct_image_encoded(
                                kernel,
                                pixels,
                                coefficient,
                                width,
                                height,
                                blocksize,
                                zero,
                                x,
                                y,
                                c,
                                #[trigger] value_at(frequencies@, x, y, c),
                            )
                        } else {
                            value_at(frequencies@, x, y, c) == zero
                        } by {
                            assert(before[y].len() == width);
                            if in_rect(
                                x_start as int,
                                blocksize as int,
                                y_start as int,
                                blocksize as int,
                                x,
                                y,
                            ) {
                                lemma_block_of_cell(x, blocksize as int, x_block as int);
                                lemma_block_of_cell(y, blocksize as int, y_block as int);
                            } else {
                                assert(frequencies@[y]@[x] == before[y]@[x]);
                                assert(value_at(frequencies@, x, y, c) == value_at(before, x, y, c));
                            }
                        }
                    }
                    x_block += 1;
                }
                y_block += 1;
            }
        }
        self.state = Domain::Frequency(frequencies);
    }

    /// Takes the image back to the domain of bytes by the inverse cosine
    /// transform. `kernel` computes one rounded sample of a block.
    pub fn dct_decode<K>(&mut self, kernel: &K) where
        K: Fn(&Vec<Vec<Pixel<F>>>, usize, usize, Channel, usize, usize, usize, usize) -> i64,

        requires
            old(self).frequency().is_some(),
            old(self).blocksize() > 0,
            forall|x: usize, y: usize, c: Channel, x_start: usize, y_start: usize|
                x < old(self).blocksize() && y < old(self).blocksize() && x_start + old(
                    self,
                ).blocksize() <= old(self).width() && y_start + old(self).blocksize() <= old(
                    self,
                ).height() ==> #[trigger] kernel.requires(
                    (
                        &old(self).frequency().unwrap(),
                        x,
                        y,
                        c,
                        x_start,
                        old(self).blocksize() as usize,
                        y_start,
                        old(self).blocksize() as usize,
                    ),
                ),
        ensures
            final(self).width() == old(self).width(),
            final(self).height() == old(self).height(),
            final(self).coefficient() == old(self).coefficient(),
            final(self).blocksize() == old(self).blocksize(),
            final(self).frequency().is_none(),
            final(self).spatial().is_some(),
            is_rectangular(
                final(self).spatial().unwrap()@,
                old(self).width() as int,
                old(self).height() as int,
            ),
            forall|x: int, y: int, c: Channel|
                0 <= x < old(self).width() && 0 <= y < old(self).height() ==> dct_image_decoded(
                    kernel,
                    &old(self).frequency().unwrap(),
                    old(self).width() as usize,
                    old(self).height() as usize,
                    old(self).blocksize() as usize,
                    x,
                    y,
                    c,
                    #[trigger] value_at(final(self).spatial().unwrap()@, x, y, c),
                ),
    {
        proof {
            use_type_invariant(&*self);
        }
        let width = self.width;
        let height = self.height;
        let blocksize = self.blocksize;
        let mut pixels: Vec<Vec<Pixel<u8>>> = filled(Pixel { r: 0u8, g: 0u8, b: 0u8 }, width, height);
        let columns = width / blocksize;
        let rows = height / blocksize;
        proof {
            let w = width as int;
            let h = height as int;
            let b = blocksize as int;
            vstd::arithmetic::div_mod::lemma_fundamental_div_mod(w, b);
            vstd::arithmetic::div_mod::lemma_fundamental_div_mod(h, b);
            assert((w / b) * b <= w) by (nonlinear_arith)
                requires
                    w == b * (w / b) + w % b,
                    w % b >= 0,
            ;
            assert((h / b) * b <= h) by (nonlinear_arith)
                requires
                    h == b * (h / b) + h % b,
                    h % b >= 0,
            ;
        }
        let frequencies = self.frequencies();
        assert(*frequencies == old(self).frequency().unwrap());
        assert(old(self).blocksize() as usize == blocksize);
        let mut y_block: usize = 0;
        while y_block < rows
            invariant
                y_block <= rows,
                blocksize > 0,
                columns == width as int / blocksize as int,
                rows == height as int / blocksize as int,
                columns * blocksize <= width,
                rows * blocksize <= height,
                is_rectangular(pixels@, width as int, height as int),
                forall|x: usize, y: usize, c: Channel, x_start: usize, y_start: usize|
                    x < blocksize && y < blocksize && x_start + blocksize <= width && y_start
                        + blocksize <= height ==> #[trigger] kernel.requires(
                        (frequencies, x, y, c, x_start, blocksize, y_start, blocksize),
                    ),
                forall|x: int, y: int, c: Channel|
                    0 <= x < width && 0 <= y < height ==> if y < y_block * blocksize {
                        dct_image_decoded(
                            kernel,
                            frequencies,
                            width,
                            height,
                            blocksize,
                            x,
                            y,
                            c,
                            #[trigger] value_at(pixels@, x, y, c),
                        )
                    } else {
                        value_at(pixels@, x, y, c) == 0
                    },
            decreases rows - y_block,
        {
            assert((y_block + 1) * blocksize <= rows * blocksize) by (nonlinear_arith)
                requires
                    y_block < rows,
                    blocksize >= 0,
            ;
            assert((y_block + 1) * blocksize == y_block * blocksize + blocksize)
                by (nonlinear_arith);
            let y_start = y_block * blocksize;
            let mut x_block: usize = 0;
            while x_block < columns
                invariant
                    y_block < rows,
                    x_block <= columns,
                    blocksize > 0,
                    y_start == y_block * blocksize,
                    y_start + blocksize <= rows * blocksize,
                    columns == width as int / blocksize as int,
                    rows == height as int / blocksize as int,
                    columns * blocksize <= width,
                    rows * blocksize <= height,
                    is_rectangular(pixels@, width as int, height as int),
                    forall|x: usize, y: usize, c: Channel, x_start: usize, y_start: usize|
                        x < blocksize && y < blocksize && x_start + blocksize <= width && y_start
                            + blocksize <= height ==> #[trigger] kernel.requires(
                            (frequencies, x, y, c, x_start, blocksize, y_start, blocksize),
                        ),
                    forall|x: int, y: int, c: Channel|
                        0 <= x < width && 0 <= y < height ==> if y < y_start || (y < y_start
                            + blocksize && x < x_block * blocksize) {
                            dct_image_decoded(
                                kernel,
                                frequencies,
                                width,
                                height,
                                blocksize,
                                x,
                                y,
                                c,
                                #[trigger] value_at(pixels@, x, y, c),
                            )
                        } else {
                            value_at(pixels@, x, y, c) == 0
                        },
                decreases columns - x_block,
            {
                assert((x_block + 1) * blocksize <= columns * blocksize) by (nonlinear_arith)
                    requires
                        x_block < columns,
                        blocksize >= 0,
                ;
                assert((x_block + 1) * blocksize == x_block * blocksize + blocksize)
                    by (nonlinear_arith);
                let x_start = x_block * blocksize;
                let ghost before = pixels@;
                dct_decode_block(
                    &mut pixels,
                    frequencies,
                    x_start,
                    blocksize,
                    y_start,
                    blocksize,
                    kernel,
                );
                proof {
                    assert forall|x: int, y: int, c: Channel|
                        0 <= x < width && 0 <= y < height implies if y < y_start || (y < y_start
                        + blocksize && x < (x_block + 1) * blocksize) {
                        dct_image_decoded(
                            kernel,
                            frequencies,
                            width,
                            height,
                            blocksize,
                            x,
                            y,
                            c,
                            #[trigger] value_at(pixels@, x, y, c),
                        )
                    } else {
                        value_at(pixels@, x, y, c) == 0
                    } by {
                        assert(before[y].len() == width);
                        if in_rect(
                            x_start as int,
                            blocksize as int,
                            y_start as int,
                            blocksize as int,
                            x,
                            y,
                        ) {
                            lemma_block_of_cell(x, blocksize as int, x_block as int);
                            lemma_block_of_cell(y, blocksize as int, y_block as int);
                        } else {
                            assert(pixels@[y]@[x] == before[y]@[x]);
                            assert(value_at(pixels@, x, y, c) == value_at(before, x, y, c));
                        }
                    }
                }
                x_block += 1;
            }
            y_block += 1;
        }
        self.state = Domain::Spatial(pixels);
    }
}

/// The fixed-point sample that stands for the number one: samples count in
/// units of one part in 2 to the power of 56.
pub const SAMPLE_ONE: i128 = 0x100_0000_0000_0000;

/// The largest side of a square image whose wavelet transform is exact: the
/// square of the side divides `SAMPLE_ONE`.
pub const EXACT_SIDE: usize = 0x1000_0000;

/// The plane of fixed-point samples that stand for the levels of a plane.
pub open spec fn fixed(plane: Seq<Seq<int>>) -> Seq<Seq<int>> {
    Seq::new(
        plane.len(),
        |y: int| Seq::new(plane[y].len(), |x: int| plane[y][x] * (SAMPLE_ONE as int)),
    )
}

/// The byte that stands for a fixed-point sample: the nearest whole number,
/// halves up, limited to the range of a byte.
pub open spec fn level_of(sample: int) -> int {
    if sample < 0 {
        0
    } else if sample > 255 * SAMPLE_ONE {
        255
    } else {
        (sample + SAMPLE_ONE / 2) / (SAMPLE_ONE as int)
    }
}

/// The byte that stands for a fixed-point sample.
pub fn to_level(sample: i128) -> (level: u8)
    ensures
        level == level_of(sample as int),
{
    if sample < 0 {
        0
    } else if sample > 255 * SAMPLE_ONE {
        255
    } else {
        ((sample + SAMPLE_ONE / 2) / SAMPLE_ONE) as u8
    }
}

impl Image<i128> {
    /// Whether the coefficients of the image can be taken back by the
    /// inverse wavelet transform: for each channel, the square that the
    /// transform works on is the image and its samples are within the limit.
    pub open spec fn dwt_decodable(self) -> bool {
        &&& self.frequency().is_some()
        &&& forall|c: Channel|
            dwt_decodable(
                self.frequency().unwrap()@,
                c,
                0,
                self.width(),
                0,
                self.height(),
            )
    }

    /// Whether the coefficients of the image can be taken back by the
    /// inverse wavelet transform.
    pub fn can_dwt_decode(&self) -> (decodable: bool)
        ensures
            decodable == self.dwt_decodable(),
    {
        proof {
            use_type_invariant(self);
        }
        let frequencies = match &self.state {
            Domain::Frequency(frequencies) => frequencies,
            _ => {
                return false;
            },
        };
        let width = self.width;
        let height = self.height;
        let ghost target: nat = if width >= height {
            width as nat
        } else {
            height as nat
        };
        let ghost goal = decode_side(width as nat, height as nat);
        assert(*frequencies == self.frequency().unwrap());
        assert(self.width() == width as nat && self.height() == height as nat);
        if width <= 1 && height <= 1 {
            return true;
        }
        proof {
            lemma_growth(1, target);
            lemma_grown_reaches(1, target);
        }
        if width != height {
            proof {
                lemma_not_decodable(frequencies@, width as nat, height as nat);
                assert(!dwt_decodable(
                    frequencies@,
                    Channel::R,
                    0,
                    width as nat,
                    0,
                    height as nat,
                ));
            }
            return false;
        }
        let mut side: usize = 1;
        while side < width
            invariant
                1 <= side <= width,
                width == height,
                width > 1,
                target == width,
                goal == decode_side(width as nat, height as nat),
                grown(side as nat, target) == goal,
                is_rectangular(frequencies@, width as int, height as int),
                *frequencies == self.frequency().unwrap(),
                self.width() == width as nat,
                self.height() == height as nat,
            decreases width - side,
        {
            if side > width - side {
                proof {
                    lemma_growth(2 * side as nat, target);
                    lemma_not_decodable(frequencies@, width as nat, height as nat);
                    assert(!dwt_decodable(
                        frequencies@,
                        Channel::R,
                        0,
                        width as nat,
                        0,
                        height as nat,
                    ));
                }
                return false;
            }
            side = 2 * side;
        }
        assert(width * height <= width * height * 3) by (nonlinear_arith);
        assert(side * side >= 1) by (nonlinear_arith)
            requires
                side >= 1,
        ;
        let area: usize = side * side;
        let limit: i128 = SAMPLE_LIMIT / (area as i128);
        assert(limit == decode_limit(side as nat));
        assert(0 <= limit <= SAMPLE_LIMIT);
        let mut y: usize = 0;
        while y < height
            invariant
                y <= height,
                side == width,
                side == height,
                side > 1,
                goal == side,
                goal == decode_side(width as nat, height as nat),
                limit == decode_limit(side as nat),
                0 <= limit <= SAMPLE_LIMIT,
                *frequencies == self.frequency().unwrap(),
                self.width() == width as nat,
                self.height() == height as nat,
                is_rectangular(frequencies@, width as int, height as int),
                forall|i: int, j: int, c: Channel|
                    0 <= i < width && 0 <= j < y ==> -limit <= #[trigger] samples(
                        frequencies@,
                        c,
                    )[j][i] <= limit,
            decreases height - y,
        {
            let mut x: usize = 0;
            assert(frequencies@[y as int].len() == width);
            while x < width
                invariant
                    y < height,
                    x <= width,
                    side == width,
                    side == height,
                    side > 1,
                    goal == side,
                    goal == decode_side(width as nat, height as nat),
                    limit == decode_limit(side as nat),
                    0 <= limit <= SAMPLE_LIMIT,
                    *frequencies == self.frequency().unwrap(),
                    self.width() == width as nat,
                    self.height() == height as nat,
                    is_rectangular(frequencies@, width as int, height as int),
                    forall|i: int, c: Channel|
                        0 <= i < x ==> -limit <= #[trigger] samples(frequencies@, c)[y as int][i]
                            <= limit,
                decreases width - x,
            {
                let p = &frequencies[y][x];
                let fits_r = -limit <= p.r && p.r <= limit;
                let fits_g = -limit <= p.g && p.g <= limit;
                let fits_b = -limit <= p.b && p.b <= limit;
                if !(fits_r && fits_g && fits_b) {
                    proof {
                        let c = if !fits_r {
                            Channel::R
                        } else if !fits_g {
                            Channel::G
                        } else {
                            Channel::B
                        };
                        assert(samples(frequencies@, c)[y as int][x as int] == p.channel(c));
                        assert(in_rect(0, side as int, 0, side as int, x as int, y as int));
                        assert(!within(
                            samples(frequencies@, c),
                            0,
                            side as int,
                            0,
                            side as int,
                            decode_limit(side as nat),
                        ));
                        assert(!dwt_decodable(
                            frequencies@,
                            c,
                            0,
                            width as nat,
                            0,
                            height as nat,
                        ));
                    }
                    return false;
                }
                proof {
                    assert forall|i: int, c: Channel| 0 <= i < x + 1 implies -limit
                        <= #[trigger] samples(frequencies@, c)[y as int][i] <= limit by {
                        if i == x {
                            assert(samples(frequencies@, c)[y as int][i] == p.channel(c));
                        }
                    }
                }
                x += 1;
            }
            y += 1;
        }
        proof {
            assert forall|c: Channel|
                dwt_decodable(frequencies@, c, 0, width as nat, 0, height as nat) by {
                assert(within(
                    samples(frequencies@, c),
                    0,
                    side as int,
                    0,
                    side as int,
                    limit as int,
                ));
            }
        }
        true
    }

    /// Takes the image to the domain of coefficients by the wavelet
    /// transform of each channel under the budget of the image.
    pub fn dwt_encode(&mut self)
        requires
            old(self).spatial().is_some(),
        ensures
            final(self).width() == old(self).width(),
            final(self).height() == old(self).height(),
            final(self).coefficient() == old(self).coefficient(),
            final(self).blocksize() == old(self).blocksize(),
            final(self).spatial().is_none(),
            final(self).frequency().is_some(),
            is_rectangular(
                final(self).frequency().unwrap()@,
                old(self).width() as int,
                old(self).height() as int,
            ),
            forall|c: Channel|
                #[trigger] samples(final(self).frequency().unwrap()@, c) == dwt_encoded(
                    fixed(levels(old(self).spatial().unwrap()@, c)),
                    old(self).coefficient(),
                    0,
                    old(self).width(),
                    0,
                    old(self).height(),
                ),
            forall|c: Channel|
                within(
                    #[trigger] samples(final(self).frequency().unwrap()@, c),
                    0,
                    old(self).width() as int,
                    0,
                    old(self).height() as int,
                    255 * SAMPLE_ONE,
                ),
            old(self).width() == old(self).height() && is_pow2(old(self).width() as int) && old(
                self,
            ).width() <= EXACT_SIDE ==> final(self).dwt_decodable(),
    {
        proof {
            use_type_invariant(&*self);
        }
        let width = self.width;
        let height = self.height;
        let coefficient = self.coefficient;
        let pixels = self.pixels();
        let mut frequencies: Vec<Vec<Pixel<i128>>> = Vec::new();
        let mut y: usize = 0;
        while y < height
            invariant
                y <= height,
                is_rectangular(pixels@, width as int, height as int),
                frequencies@.len() == y,
                forall|j: int| 0 <= j < y ==> (#[trigger] frequencies@[j])@.len() == width,
                forall|i: int, j: int, c: Channel|
                    0 <= j < y && 0 <= i < width ==> #[trigger] value_at(frequencies@, i, j, c)
                        == value_at(pixels@, i, j, c) * SAMPLE_ONE,
            decreases height - y,
        {
            let mut row: Vec<Pixel<i128>> = Vec::new();
            let mut x: usize = 0;
            assert(pixels@[y as int].len() == width);
            while x < width
                invariant
                    y < height,
                    x <= width,
                    pixels@.len() == height,
                    pixels@[y as int].len() == width,
                    row@.len() == x,
                    forall|i: int, c: Channel|
                        0 <= i < x ==> #[trigger] row@[i].channel(c) == value_at(
                            pixels@,
                            i,
                            y as int,
                            c,
                        ) * SAMPLE_ONE,
                decreases width - x,
            {
                let p = &pixels[y][x];
                row.push(
                    Pixel {
                        r: (p.r as i128) * SAMPLE_ONE,
                        g: (p.g as i128) * SAMPLE_ONE,
                        b: (p.b as i128) * SAMPLE_ONE,
                    },
                );
                x += 1;
            }
            let ghost earlier = frequencies@;
            frequencies.push(row);
            proof {
                assert forall|i: int, j: int, c: Channel|
                    0 <= j < y + 1 && 0 <= i < width implies #[trigger] value_at(
                    frequencies@,
                    i,
                    j,
                    c,
                ) == value_at(pixels@, i, j, c) * SAMPLE_ONE by {
                    if j < y {
                        assert(frequencies@[j] == earlier[j]);
                        assert(value_at(frequencies@, i, j, c) == value_at(earlier, i, j, c));
                    } else {
                        assert(frequencies@[j] == row);
                        assert(value_at(frequencies@, i, j, c) == row@[i].channel(c));
                    }
                }
            }
            y += 1;
        }
        let ghost start = frequencies@;
        proof {
            assert forall|c: Channel| #[trigger] samples(start, c) == fixed(levels(pixels@, c)) by {
                assert forall|j: int| 0 <= j < height implies #[trigger] samples(start, c)[j]
                    =~= fixed(levels(pixels@, c))[j] by {
                    assert(pixels@[j].len() == width);
                    assert forall|i: int| 0 <= i < width implies samples(start, c)[j][i] == fixed(
                        levels(pixels@, c),
                    )[j][i] by {
                        assert(value_at(start, i, j, c) == value_at(pixels@, i, j, c) * SAMPLE_ONE);
                    }
                }
                assert(samples(start, c) =~~= fixed(levels(pixels@, c)));
            }
            assert forall|c: Channel|
                within(
                    #[trigger] samples(start, c),
                    0,
                    width as int,
                    0,
                    height as int,
                    255 * SAMPLE_ONE,
                ) by {
                assert forall|i: int, j: int|
                    in_rect(0, width as int, 0, height as int, i, j) implies -(255 * SAMPLE_ONE) <= (
                #[trigger] samples(start, c)[j][i]) <= 255 * SAMPLE_ONE by {
                    assert(value_at(start, i, j, c) == value_at(pixels@, i, j, c) * SAMPLE_ONE);
                }
            }
        }
        let channels = Channel::iterator();
        let mut k: usize = 0;
        while k < 3
            invariant
                k <= 3,
                channels@ == seq![Channel::R, Channel::G, Channel::B],
                is_rectangular(start, width as int, height as int),
                is_rectangular(frequencies@, width as int, height as int),
                forall|c: Channel|
                    within(
                        #[trigger] samples(start, c),
                        0,
                        width as int,
                        0,
                        height as int,
                        255 * SAMPLE_ONE,
                    ),
                forall|c: Channel|
                    #[trigger] samples(frequencies@, c) == if c.index() < k {
                        dwt_encoded(
                            samples(start, c),
                            coefficient as nat,
                            0,
                            width as nat,
                            0,
                            height as nat,
                        )
                    } else {
                        samples(start, c)
                    },
            decreases 3 - k,
        {
            let c = channels[k];
            assert(c.index() == k);
            let ghost before = frequencies@;
            proof {
                assert(within(
                    samples(before, c),
                    0,
                    width as int,
                    0,
                    height as int,
                    255 * SAMPLE_ONE,
                ));
                assert(within(
                    samples(before, c),
                    0,
                    width as int,
                    0,
                    height as int,
                    SAMPLE_LIMIT as int,
                ));
            }
            dwt_encode_block(&mut frequencies, coefficient, &c, 0, width, 0, height);
            proof {
                assert forall|other: Channel|
                    #[trigger] samples(frequencies@, other) == if other.index() < k + 1 {
                        dwt_encoded(
                            samples(start, other),
                            coefficient as nat,
                            0,
                            width as nat,
                            0,
                            height as nat,
                        )
                    } else {
                        samples(start, other)
                    } by {
                    if other != c {
                        assert(samples(frequencies@, other) == samples(before, other));
                    }
                }
            }
            k += 1;
        }
        proof {
            assert forall|c: Channel|
                within(
                    #[trigger] samples(frequencies@, c),
                    0,
                    width as int,
                    0,
                    height as int,
                    255 * SAMPLE_ONE,
                ) by {
                lemma_samples_cover(start, c, 0, width as int, 0, height as int);
                lemma_encoded_within(
                    samples(start, c),
                    coefficient as nat,
                    0,
                    width as nat,
                    0,
                    height as nat,
                    255 * SAMPLE_ONE,
                );
            }
            if width == height && is_pow2(width as int) && width <= EXACT_SIDE {
                lemma_decode_side_pow2(width as nat);
                lemma_exact_side_limit(width as nat);
            }
        }
        self.state = Domain::Frequency(frequencies);
    }

    /// Takes the image back to the domain of bytes: the inverse wavelet
    /// transform of each channel, then each sample rounded to a byte.
    pub fn dwt_decode(&mut self)
        requires
            old(self).dwt_decodable(),
        ensures
            final(self).width() == old(self).width(),
            final(self).height() == old(self).height(),
            final(self).coefficient() == old(self).coefficient(),
            final(self).blocksize() == old(self).blocksize(),
            final(self).frequency().is_none(),
            final(self).spatial().is_some(),
            is_rectangular(
                final(self).spatial().unwrap()@,
                old(self).width() as int,
                old(self).height() as int,
            ),
            forall|x: int, y: int, c: Channel|
                0 <= x < old(self).width() && 0 <= y < old(self).height() ==> #[trigger] value_at(
                    final(self).spatial().unwrap()@,
                    x,
                    y,
                    c,
                ) == level_of(
                    dwt_inverse(
                        samples(old(self).frequency().unwrap()@, c),
                        0,
                        0,
                        decode_side(old(self).width(), old(self).height()),
                    )[y][x],
                ),
    {
        proof {
            use_type_invariant(&*self);
        }
        let mut taken = Image::new();
        core::mem::swap(self, &mut taken);
        let Image { width, height, coefficient, blocksize, state } = taken;
        let mut frequencies = match state {
            Domain::Frequency(frequencies) => frequencies,
            _ => vstd::pervasive::unreached(),
        };
        let ghost start = frequencies@;
        proof {
            assert(old(self).width() == width as nat && old(self).height() == height as nat);
            assert(start == old(self).frequency().unwrap()@);
        }
        let channels = Channel::iterator();
        let mut k: usize = 0;
        while k < 3
            invariant
                k <= 3,
                channels@ == seq![Channel::R, Channel::G, Channel::B],
                is_rectangular(start, width as int, height as int),
                is_rectangular(frequencies@, width as int, height as int),
                forall|c: Channel|
                    dwt_decodable(start, c, 0, width as nat, 0, height as nat),
                forall|c: Channel|
                    #[trigger] samples(frequencies@, c) == if c.index() < k {
                        dwt_inverse(
                            samples(start, c),
                            0,
                            0,
                            decode_side(width as nat, height as nat),
                        )
                    } else {
                        samples(start, c)
                    },
            decreases 3 - k,
        {
            let c = channels[k];
            assert(c.index() == k);
            let ghost before = frequencies@;
            proof {
                assert(dwt_decodable(start, c, 0, width as nat, 0, height as nat));
                assert(samples(before, c) == samples(start, c));
                let side = decode_side(width as nat, height as nat) as int;
                if side > 1 {
                    assert(has_rect(start, 0, side, 0, side));
                    assert forall|j: int| 0 <= j < side implies side <= (#[trigger] before[j]).len() by {
                        assert(start[j].len() == width);
                    }
                }
            }
            dwt_decode_block(&mut frequencies, &c, 0, width, 0, height);
            proof {
                assert forall|other: Channel|
                    #[trigger] samples(frequencies@, other) == if other.index() < k + 1 {
                        dwt_inverse(
                            samples(start, other),
                            0,
                            0,
                            decode_side(width as nat, height as nat),
                        )
                    } else {
                        samples(start, other)
                    } by {
                    if other != c {
                        assert(samples(frequencies@, other) == samples(before, other));
                    }
                }
            }
            k += 1;
        }
        let mut pixels: Vec<Vec<Pixel<u8>>> = Vec::new();
        let mut y: usize = 0;
        while y < height
            invariant
                y <= height,
                is_rectangular(frequencies@, width as int, height as int),
                pixels@.len() == y,
                forall|j: int| 0 <= j < y ==> (#[trigger] pixels@[j])@.len() == width,
                forall|i: int, j: int, c: Channel|
                    0 <= j < y && 0 <= i < width ==> #[trigger] value_at(pixels@, i, j, c)
                        == level_of(samples(frequencies@, c)[j][i]),
            decreases height - y,
        {
            let mut row: Vec<Pixel<u8>> = Vec::new();
            let mut x: usize = 0;
            assert(frequencies@[y as int].len() == width);
            while x < width
                invariant
                    y < height,
                    x <= width,
                    is_rectangular(frequencies@, width as int, height as int),
                    frequencies@[y as int].len() == width,
                    row@.len() == x,
                    forall|i: int, c: Channel|
                        0 <= i < x ==> #[trigger] row@[i].channel(c) == level_of(
                            samples(frequencies@, c)[y as int][i],
                        ),
                decreases width - x,
            {
                let p = &frequencies[y][x];
                row.push(Pixel { r: to_level(p.r), g: to_level(p.g), b: to_level(p.b) });
                x += 1;
            }
            let ghost earlier = pixels@;
            pixels.push(row);
            proof {
                assert forall|i: int, j: int, c: Channel|
                    0 <= j < y + 1 && 0 <= i < width implies #[trigger] value_at(pixels@, i, j, c)
                    == level_of(samples(frequencies@, c)[j][i]) by {
                    if j < y {
                        assert(pixels@[j] == earlier[j]);
                        assert(value_at(pixels@, i, j, c) == value_at(earlier, i, j, c));
                    } else {
                        assert(pixels@[j] == row);
                        assert(value_at(pixels@, i, j, c) == row@[i].channel(c));
                    }
                }
            }
            y += 1;
        }
        *self = Image { width, height, coefficient, blocksize, state: Domain::Spatial(pixels) };
    }
}

/// The samples of a square image within the exact side are within the limit
/// of the inverse transform, where they are within the range that the
/// forward transform of bytes leaves.
pub proof fn lemma_exact_side_limit(side: nat)
    requires
        1 <= side <= EXACT_SIDE,
    ensures
        255 * SAMPLE_ONE <= decode_limit(side),
{
    assert(1 <= side * side <= 0x100_0000_0000_0000) by (nonlinear_arith)
        requires
            1 <= side <= 0x1000_0000,
    ;
    vstd::arithmetic::div_mod::lemma_div_is_ordered_by_denominator(
        SAMPLE_LIMIT as int,
        (side * side) as int,
        0x100_0000_0000_0000,
    );
}

impl<F: Copy> Clone for Image<F> {
    /// A copy of the image with a grid of its own that holds the same values.
    fn clone(&self) -> (image: Self)
        ensures
            image.width() == self.width(),
            image.height() == self.height(),
            image.coefficient() == self.coefficient(),
            image.blocksize() == self.blocksize(),
            image.spatial().is_some() == self.spatial().is_some(),
            image.frequency().is_some() == self.frequency().is_some(),
            self.spatial().is_some() ==> rows(image.spatial().unwrap()@) == rows(
                self.spatial().unwrap()@,
            ),
            self.frequency().is_some() ==> rows(image.frequency().unwrap()@) == rows(
                self.frequency().unwrap()@,
            ),
    {
        proof {
            use_type_invariant(self);
        }
        let state = match &self.state {
            Domain::Empty => Domain::Empty,
            Domain::Spatial(pixels) => {
                let copy = copied(pixels);
                assert(rows(copy@) =~= rows(pixels@));
                Domain::Spatial(copy)
            },
            Domain::Frequency(frequencies) => {
                let copy = copied(frequencies);
                assert(rows(copy@) =~= rows(frequencies@));
                Domain::Frequency(copy)
            },
        };
        Image {
            width: self.width,
            height: self.height,
            coefficient: self.coefficient,
            blocksize: self.blocksize,
            state,
        }
    }
}

} // verus!
