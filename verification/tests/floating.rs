//! The wavelet transform in fixed point against the same transform computed
//! in floating point.

use block_codec::image::Image;
use block_codec::zigzag::Zigzag;

fn step(plane: &mut Vec<Vec<f64>>, by_row: bool, size: usize) {
    let mut next = vec![vec![0.0; size]; size];
    for y in 0..size {
        for x in 0..size {
            let (a, b, first) = if by_row {
                let k = x % (size / 2);
                (plane[y][2 * k], plane[y][2 * k + 1], x < size / 2)
            } else {
                let k = y % (size / 2);
                (plane[2 * k][x], plane[2 * k + 1][x], y < size / 2)
            };
            next[y][x] = if first { (a + b) / 2.0 } else { (a - b) / 2.0 };
        }
    }
    for y in 0..size {
        for x in 0..size {
            plane[y][x] = next[y][x];
        }
    }
}

fn inverse_step(plane: &mut Vec<Vec<f64>>, by_row: bool, size: usize) {
    let mut next = vec![vec![0.0; size]; size];
    for y in 0..size {
        for x in 0..size {
            let (average, difference, even) = if by_row {
                (plane[y][x / 2], plane[y][size / 2 + x / 2], x % 2 == 0)
            } else {
                (plane[y / 2][x], plane[size / 2 + y / 2][x], y % 2 == 0)
            };
            next[y][x] = if even { average + difference } else { average - difference };
        }
    }
    for y in 0..size {
        for x in 0..size {
            plane[y][x] = next[y][x];
        }
    }
}

fn drop_tail(plane: &mut Vec<Vec<f64>>, x_offset: usize, y_offset: usize, side: usize, keep: usize) {
    let mut zigzag = Zigzag::new(side * side, side, side);
    let mut rank = 0;
    while let Some((x, y)) = zigzag.next() {
        if rank >= keep {
            plane[y + y_offset][x + x_offset] = 0.0;
        }
        rank += 1;
    }
}

fn through_floating(plane: &Vec<Vec<u8>>, number: usize) -> Vec<Vec<u8>> {
    let size = plane.len();
    let mut f: Vec<Vec<f64>> = plane
        .iter()
        .map(|row| row.iter().map(|v| f64::from(*v)).collect())
        .collect();
    let mut s = size;
    while s > 1 {
        step(&mut f, true, s);
        step(&mut f, false, s);
        s /= 2;
    }
    if number == 0 {
        for row in f.iter_mut() {
            for v in row.iter_mut() {
                *v = 0.0;
            }
        }
    } else {
        let mut side = 1;
        while number > 4 * side * side {
            side *= 2;
        }
        let area = side * side;
        if 2 * side <= size {
            if number > 3 * area {
                drop_tail(&mut f, side, side, side, number - 3 * area);
            } else {
                let down = (number - area).min(area);
                let right = number - area - down;
                drop_tail(&mut f, side, 0, side, right);
                drop_tail(&mut f, 0, side, side, down);
                drop_tail(&mut f, side, side, side, 0);
            }
        }
        for y in 0..size {
            for x in 0..size {
                if x >= 2 * side || y >= 2 * side {
                    f[y][x] = 0.0;
                }
            }
        }
    }
    let mut s = 2;
    while s <= size {
        inverse_step(&mut f, false, s);
        inverse_step(&mut f, true, s);
        s *= 2;
    }
    f.iter()
        .map(|row| {
            row.iter()
                .map(|v| {
                    if *v < 0.0 {
                        0
                    } else if *v > 255.0 {
                        255
                    } else {
                        v.round() as u8
                    }
                })
                .collect()
        })
        .collect()
}

fn level(x: usize, y: usize, c: usize, seed: usize) -> u8 {
    let mut h = (x * 7919 + y * 104729 + c * 1299709 + seed * 15485863) as u64;
    h ^= h >> 13;
    h = h.wrapping_mul(0x9E37_79B9_7F4A_7C15);
    h ^= h >> 29;
    (h % 256) as u8
}

fn compare(size: usize, number: usize, seed: usize) {
    let mut data = vec![0u8; size * size * 3];
    for c in 0..3 {
        for y in 0..size {
            for x in 0..size {
                data[c * size * size + y * size + x] = level(x, y, c, seed);
            }
        }
    }
    let mut image: Image<i128> = Image::new_from_rgb(size, size, number, 8, &data).unwrap();
    image.dwt_encode();
    assert!(image.can_dwt_decode());
    image.dwt_decode();
    let got = image.to_1d_vec();
    for c in 0..3 {
        let plane: Vec<Vec<u8>> = (0..size)
            .map(|y| (0..size).map(|x| level(x, y, c, seed)).collect())
            .collect();
        let expected = through_floating(&plane, number);
        for y in 0..size {
            for x in 0..size {
                assert_eq!(got[y * size * 3 + 3 * x + c], expected[y][x]);
            }
        }
    }
}

#[test]
fn fixed_point_agrees_with_floating_point_on_small_images() {
    for size in [1usize, 2, 4, 8] {
        for number in 0..=size * size {
            compare(size, number, number);
        }
    }
}

#[test]
fn fixed_point_agrees_with_floating_point_on_larger_images() {
    for (size, numbers) in [
        (16usize, vec![0usize, 1, 2, 3, 4, 5, 16, 17, 63, 64, 65, 100, 192, 193, 255, 256]),
        (32, vec![1, 7, 64, 200, 257, 768, 769, 1000, 1024]),
        (64, vec![5, 1024, 3000, 4096]),
    ] {
        for number in numbers {
            compare(size, number, size + number);
        }
    }
}
