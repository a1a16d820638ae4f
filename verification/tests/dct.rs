use block_codec::channel::Channel;
use block_codec::dct::{clamp_to_byte, dct_block_budget, dct_decode_block, dct_encode_block};
use block_codec::image::Image;
use block_codec::pixel::Pixel;

fn scale(u: usize, v: usize) -> f64 {
    match (u, v) {
        (0, 0) => 1.0 / 2.0,
        (0, _) => (1.0f64 / 2.0).sqrt(),
        (_, 0) => (1.0f64 / 2.0).sqrt(),
        _ => 1.0,
    }
}

fn cosine(position: usize, frequency: usize) -> f64 {
    ((((2 * position + 1) * frequency) as f64) * std::f64::consts::PI / 16.0).cos()
}

fn forward(
    block: &Vec<Vec<Pixel<u8>>>,
    u: usize,
    v: usize,
    c: Channel,
    x_start: usize,
    x_length: usize,
    y_start: usize,
    y_length: usize,
) -> f64 {
    let mut f_uv = 0.0;
    for y in 0..y_length {
        for x in 0..x_length {
            let f_xy = block[y + y_start][x + x_start][&c];
            f_uv += f64::from(f_xy) * cosine(x, u) * cosine(y, v);
        }
    }
    f_uv * (1.0 / 4.0 * scale(u, v))
}

fn inverse(
    frequencies: &Vec<Vec<Pixel<f64>>>,
    x: usize,
    y: usize,
    c: Channel,
    x_start: usize,
    x_length: usize,
    y_start: usize,
    y_length: usize,
) -> i64 {
    let mut f_xy = 0.0;
    for v in 0..y_length {
        for u in 0..x_length {
            let f_uv = frequencies[v + y_start][u + x_start][&c];
            f_xy += scale(u, v) * f_uv * cosine(x, u) * cosine(y, v);
        }
    }
    f_xy *= 1.0 / 4.0;
    f_xy.round() as i64
}

fn planar(width: usize, height: usize, f: impl Fn(usize, usize, usize) -> u8) -> Vec<u8> {
    let mut data = vec![0u8; width * height * 3];
    for c in 0..3 {
        for y in 0..height {
            for x in 0..width {
                data[c * width * height + y * width + x] = f(x, y, c);
            }
        }
    }
    data
}

fn interleaved(width: usize, height: usize, f: impl Fn(usize, usize, usize) -> u8) -> Vec<u8> {
    let mut data = vec![0u8; width * height * 3];
    for y in 0..height {
        for x in 0..width {
            for c in 0..3 {
                data[y * width * 3 + 3 * x + c] = f(x, y, c);
            }
        }
    }
    data
}

fn pattern(x: usize, y: usize, c: usize) -> u8 {
    ((x * 31 + y * 57 + c * 101 + x * y * 7) % 256) as u8
}

#[test]
fn uniform_block_at_full_budget() {
    let data = vec![128u8; 8 * 8 * 3];
    let mut image: Image<f64> = Image::new_from_rgb(8, 8, 64, 8, &data).unwrap();
    image.dct_encode(0.0, &forward);
    image.dct_decode(&inverse);
    assert_eq!(image.to_1d_vec(), vec![128u8; 8 * 8 * 3]);
}

#[test]
fn cosine_round_trip_at_full_budget() {
    let data = planar(16, 8, pattern);
    let mut image: Image<f64> = Image::new_from_rgb(16, 8, 128, 8, &data).unwrap();
    image.dct_encode(0.0, &forward);
    image.dct_decode(&inverse);
    let got = image.to_1d_vec();
    let expected = interleaved(16, 8, pattern);
    for i in 0..expected.len() {
        let difference = (i32::from(got[i]) - i32::from(expected[i])).abs();
        assert!(difference <= 1);
    }
}

#[test]
fn cosine_zero_budget_gives_black() {
    let data = planar(8, 8, pattern);
    let mut image: Image<f64> = Image::new_from_rgb(8, 8, 0, 8, &data).unwrap();
    image.dct_encode(0.0, &forward);
    image.dct_decode(&inverse);
    assert_eq!(image.to_1d_vec(), vec![0u8; 8 * 8 * 3]);
}

#[test]
fn budget_of_one_keeps_the_mean() {
    // one coefficient for the one block: the mean of the block
    let data = vec![77u8; 8 * 8 * 3];
    let mut image: Image<f64> = Image::new_from_rgb(8, 8, 1, 8, &data).unwrap();
    image.dct_encode(0.0, &forward);
    image.dct_decode(&inverse);
    assert_eq!(image.to_1d_vec(), vec![77u8; 8 * 8 * 3]);
}

#[test]
fn cells_beyond_the_last_whole_block_are_zero() {
    let data = vec![200u8; 10 * 9 * 3];
    let mut image: Image<f64> = Image::new_from_rgb(10, 9, 64, 8, &data).unwrap();
    image.dct_encode(0.0, &forward);
    image.dct_decode(&inverse);
    let got = image.to_1d_vec();
    for y in 0..9 {
        for x in 0..10 {
            for c in 0..3 {
                let expected = if x < 8 && y < 8 { 200 } else { 0 };
                assert_eq!(got[y * 30 + 3 * x + c], expected);
            }
        }
    }
}

#[test]
fn block_budget_is_rounded_quotient() {
    assert_eq!(dct_block_budget(0, 1), 0);
    assert_eq!(dct_block_budget(64, 1), 64);
    assert_eq!(dct_block_budget(10, 4), 3); // 2.5 rounds up
    assert_eq!(dct_block_budget(9, 4), 2); // 2.25
    assert_eq!(dct_block_budget(11, 4), 3); // 2.75
    assert_eq!(dct_block_budget(1, 3), 0); // 0.33
    assert_eq!(dct_block_budget(2, 3), 1); // 0.67
    assert_eq!(dct_block_budget(4096, 4096), 1);
    assert_eq!(dct_block_budget(262144, 4096), 64);
    assert_eq!(dct_block_budget(usize::MAX, 1), usize::MAX);
    assert_eq!(dct_block_budget(usize::MAX, 2), usize::MAX / 2 + 1);
    assert_eq!(dct_block_budget(usize::MAX, usize::MAX), 1);
}

fn place(
    _block: &Vec<Vec<Pixel<u8>>>,
    u: usize,
    v: usize,
    c: Channel,
    _x_start: usize,
    _x_length: usize,
    _y_start: usize,
    _y_length: usize,
) -> i32 {
    (100 * c.to_number() + 10 * v + u + 1) as i32
}

#[test]
fn encode_block_keeps_the_first_places_in_zigzag_order() {
    let block = vec![vec![Pixel { r: 0u8, g: 0, b: 0 }; 6]; 6];
    let mut frequencies = vec![vec![Pixel { r: -1, g: -1, b: -1 }; 6]; 6];
    dct_encode_block(&block, &mut frequencies, 4, 3, 2, 3, 1, 3, 0, &place);
    // the first four places of a 3x3 block: (0,0), (1,0), (0,1), (0,2)
    let kept = [(0usize, 0usize), (1, 0), (0, 1), (0, 2)];
    for y in 0..6 {
        for x in 0..6 {
            let p = frequencies[y][x];
            if x >= 2 && x < 5 && y >= 1 && y < 4 {
                let (u, v) = (x - 2, y - 1);
                if kept.contains(&(u, v)) {
                    assert_eq!(p.r, (10 * v + u + 1) as i32);
                    assert_eq!(p.g, (100 + 10 * v + u + 1) as i32);
                    assert_eq!(p.b, (200 + 10 * v + u + 1) as i32);
                } else {
                    assert_eq!((p.r, p.g, p.b), (0, 0, 0));
                }
            } else {
                assert_eq!((p.r, p.g, p.b), (-1, -1, -1));
            }
        }
    }
}

fn sample_place(
    _frequencies: &Vec<Vec<Pixel<i32>>>,
    x: usize,
    y: usize,
    c: Channel,
    _x_start: usize,
    _x_length: usize,
    _y_start: usize,
    _y_length: usize,
) -> i64 {
    (100 * c.to_number() + 70 * y + 30 * x) as i64 - 60
}

#[test]
fn decode_block_fills_its_rectangle_only() {
    let frequencies = vec![vec![Pixel { r: 0i32, g: 0, b: 0 }; 5]; 4];
    let mut block = vec![vec![Pixel { r: 9u8, g: 9, b: 9 }; 5]; 4];
    dct_decode_block(&mut block, &frequencies, 1, 3, 2, 2, &sample_place);
    for y in 0..4 {
        for x in 0..5 {
            let p = block[y][x];
            if x >= 1 && x < 4 && y >= 2 {
                let (u, v) = ((x - 1) as i64, (y - 2) as i64);
                // rounded samples below zero and above 255 are limited
                assert_eq!(i64::from(p.r), (70 * v + 30 * u - 60).clamp(0, 255));
                assert_eq!(i64::from(p.g), (100 + 70 * v + 30 * u - 60).clamp(0, 255));
                assert_eq!(i64::from(p.b), (200 + 70 * v + 30 * u - 60).clamp(0, 255));
            } else {
                assert_eq!((p.r, p.g, p.b), (9, 9, 9));
            }
        }
    }
    assert_eq!(block[2][1].r, 0);
    assert_eq!(block[3][3].b, 255);
}

#[test]
fn rounded_samples_are_limited_to_bytes() {
    assert_eq!(clamp_to_byte(i64::MIN), 0);
    assert_eq!(clamp_to_byte(-1), 0);
    assert_eq!(clamp_to_byte(0), 0);
    assert_eq!(clamp_to_byte(1), 1);
    assert_eq!(clamp_to_byte(254), 254);
    assert_eq!(clamp_to_byte(255), 255);
    assert_eq!(clamp_to_byte(256), 255);
    assert_eq!(clamp_to_byte(i64::MAX), 255);
}
