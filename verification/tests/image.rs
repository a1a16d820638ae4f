use block_codec::channel::Channel;
use block_codec::image::{to_level, Image, ImageError, SAMPLE_ONE};

fn planar(width: usize, height: usize, f: impl Fn(usize, usize, usize) -> u8) -> Vec<u8> {
    let mut data = vec![0u8; width * height * 3];
    for c in 0..3 {
        for y in 0..height {
            for x in 0..width {
                data[c * width * height + y * width + x] = f(x, y, c);
            }
        }
    }
    data
}

fn interleaved(width: usize, height: usize, f: impl Fn(usize, usize, usize) -> u8) -> Vec<u8> {
    let mut data = vec![0u8; width * height * 3];
    for y in 0..height {
        for x in 0..width {
            for c in 0..3 {
                data[y * width * 3 + 3 * x + c] = f(x, y, c);
            }
        }
    }
    data
}

fn pattern(x: usize, y: usize, c: usize) -> u8 {
    ((x * 31 + y * 57 + c * 101 + x * y * 7) % 256) as u8
}

#[test]
fn new_image_is_empty() {
    let image: Image<i128> = Image::new();
    assert_eq!(image.get_coefficient(), 0);
}

#[test]
fn planes_become_interleaved_pixels() {
    let data = planar(3, 2, pattern);
    let image: Image<i128> = Image::new_from_rgb(3, 2, 5, 8, &data).unwrap();
    assert_eq!(image.get_coefficient(), 5);
    assert_eq!(image.to_1d_vec(), interleaved(3, 2, pattern));
}

#[test]
fn exact_layout_of_a_two_by_one_image() {
    // planes: R = [1, 2], G = [3, 4], B = [5, 6]
    let image: Image<i128> = Image::new_from_rgb(2, 1, 0, 1, &[1, 2, 3, 4, 5, 6]).unwrap();
    assert_eq!(image.to_1d_vec(), vec![1, 3, 5, 2, 4, 6]);
}

#[test]
fn wrong_buffer_length_is_refused() {
    let short: Result<Image<i128>, ImageError> = Image::new_from_rgb(2, 2, 0, 1, &[0u8; 11]);
    assert!(matches!(short, Err(ImageError::BufferLength)));
    let long: Result<Image<i128>, ImageError> = Image::new_from_rgb(2, 2, 0, 1, &[0u8; 13]);
    assert!(matches!(long, Err(ImageError::BufferLength)));
    let huge: Result<Image<i128>, ImageError> = Image::new_from_rgb(usize::MAX, 2, 0, 1, &[0u8; 12]);
    assert!(matches!(huge, Err(ImageError::BufferLength)));
    let empty: Result<Image<i128>, ImageError> = Image::new_from_rgb(0, 7, 0, 1, &[]);
    assert!(empty.is_ok());
}

#[test]
fn set_coefficient_changes_the_budget_only() {
    let data = planar(2, 2, pattern);
    let mut image: Image<i128> = Image::new_from_rgb(2, 2, 1, 2, &data).unwrap();
    image.set_coefficient(9).set_coefficient(4);
    assert_eq!(image.get_coefficient(), 4);
    assert_eq!(image.to_1d_vec(), interleaved(2, 2, pattern));
}

#[test]
fn clone_is_independent() {
    let data = planar(4, 4, pattern);
    let mut image: Image<i128> = Image::new_from_rgb(4, 4, 16, 2, &data).unwrap();
    let copy = image.clone();
    image.set_coefficient(0);
    image.dwt_encode();
    image.dwt_decode();
    assert_eq!(image.to_1d_vec(), vec![0u8; 48]);
    assert_eq!(copy.get_coefficient(), 16);
    assert_eq!(copy.to_1d_vec(), interleaved(4, 4, pattern));
}

#[test]
fn wavelet_round_trip_at_full_budget() {
    for (side, budget) in [(1usize, 1usize), (2, 4), (4, 16), (8, 64), (16, 256), (8, 100_000)] {
        let data = planar(side, side, pattern);
        let mut image: Image<i128> = Image::new_from_rgb(side, side, budget, 8, &data).unwrap();
        image.dwt_encode();
        assert!(image.can_dwt_decode());
        image.dwt_decode();
        assert_eq!(image.to_1d_vec(), interleaved(side, side, pattern));
    }
}

#[test]
fn wavelet_zero_budget_gives_black() {
    let data = planar(8, 8, pattern);
    let mut image: Image<i128> = Image::new_from_rgb(8, 8, 0, 8, &data).unwrap();
    image.dwt_encode();
    image.dwt_decode();
    assert_eq!(image.to_1d_vec(), vec![0u8; 8 * 8 * 3]);
}

#[test]
fn wavelet_uniform_image_survives_any_budget() {
    for budget in 1..=16 {
        let data = vec![4u8; 4 * 4 * 3];
        let mut image: Image<i128> = Image::new_from_rgb(4, 4, budget, 8, &data).unwrap();
        image.dwt_encode();
        image.dwt_decode();
        assert_eq!(image.to_1d_vec(), vec![4u8; 4 * 4 * 3]);
    }
}

#[test]
fn wavelet_budget_of_one_gives_the_mean() {
    // R plane of a 2x2 image: 10, 20, 30, 41: mean 25.25, G: all 7, B: 0, 0, 0, 2: mean 0.5
    let data = [10, 20, 30, 41, 7, 7, 7, 7, 0, 0, 0, 2];
    let mut image: Image<i128> = Image::new_from_rgb(2, 2, 1, 8, &data).unwrap();
    image.dwt_encode();
    image.dwt_decode();
    // 25.25 rounds to 25, 0.5 rounds up to 1
    assert_eq!(image.to_1d_vec(), vec![25, 7, 1, 25, 7, 1, 25, 7, 1, 25, 7, 1]);
}

#[test]
fn rounding_and_limits_of_levels() {
    assert_eq!(to_level(0), 0);
    assert_eq!(to_level(-1), 0);
    assert_eq!(to_level(i128::MIN), 0);
    assert_eq!(to_level(SAMPLE_ONE / 2 - 1), 0);
    assert_eq!(to_level(SAMPLE_ONE / 2), 1);
    assert_eq!(to_level(200 * SAMPLE_ONE + SAMPLE_ONE / 2 - 1), 200);
    assert_eq!(to_level(200 * SAMPLE_ONE + SAMPLE_ONE / 2), 201);
    assert_eq!(to_level(255 * SAMPLE_ONE), 255);
    assert_eq!(to_level(255 * SAMPLE_ONE + 1), 255);
    assert_eq!(to_level(i128::MAX), 255);
}

#[test]
fn channels_in_canonical_order() {
    let channels = Channel::iterator();
    assert_eq!(channels, [Channel::R, Channel::G, Channel::B]);
    assert_eq!(channels[0].to_number(), 0);
    assert_eq!(channels[1].to_number(), 1);
    assert_eq!(channels[2].to_number(), 2);
}

#[test]
fn images_that_cannot_be_taken_back() {
    let no_coefficients: Image<i128> = Image::new_from_rgb(4, 4, 16, 8, &[0u8; 48]).unwrap();
    assert!(!no_coefficients.can_dwt_decode());

    let data = planar(4, 2, pattern);
    let mut wide: Image<i128> = Image::new_from_rgb(4, 2, 8, 8, &data).unwrap();
    wide.dwt_encode();
    assert!(!wide.can_dwt_decode());

    let data = planar(3, 3, pattern);
    let mut odd: Image<i128> = Image::new_from_rgb(3, 3, 9, 8, &data).unwrap();
    odd.dwt_encode();
    assert!(!odd.can_dwt_decode());

    let mut empty: Image<i128> = Image::new_from_rgb(0, 0, 0, 8, &[]).unwrap();
    empty.dwt_encode();
    assert!(empty.can_dwt_decode());
    empty.dwt_decode();
    assert_eq!(empty.to_1d_vec(), Vec::<u8>::new());
}

#[test]
fn wavelet_keeps_more_with_a_larger_budget() {
    let data = planar(8, 8, pattern);
    let expected = interleaved(8, 8, pattern);
    let mut last_error = u64::MAX;
    for budget in [1usize, 4, 16, 64] {
        let mut image: Image<i128> = Image::new_from_rgb(8, 8, budget, 8, &data).unwrap();
        image.dwt_encode();
        image.dwt_decode();
        let got = image.to_1d_vec();
        let error: u64 = got
            .iter()
            .zip(expected.iter())
            .map(|(a, b)| (i64::from(*a) - i64::from(*b)).pow(2) as u64)
            .sum();
        assert!(error <= last_error);
        last_error = error;
    }
    assert_eq!(last_error, 0);
}

#[test]
fn clone_of_an_encoded_image_decodes_alike() {
    let data = planar(8, 8, pattern);
    let mut image: Image<i128> = Image::new_from_rgb(8, 8, 20, 8, &data).unwrap();
    image.dwt_encode();
    let mut copy = image.clone();
    image.dwt_decode();
    copy.dwt_decode();
    assert_eq!(image.to_1d_vec(), copy.to_1d_vec());
}
