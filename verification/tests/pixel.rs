use block_codec::channel::Channel;
use block_codec::pixel::Pixel;

#[test]
fn index_pixel() {
    let pixel = Pixel { r: 14, g: 9, b: 10 };
    assert_eq!(pixel[&Channel::R], 14);
    assert_eq!(pixel[&Channel::G], 9);
    assert_eq!(pixel[&Channel::B], 10);
}
