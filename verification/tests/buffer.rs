use srgb_blend::buffer::ImgBuf;
use srgb_blend::color::LinearRGB;
use srgb_blend::transfer::srgb_encode_byte;
use srgb_blend::FP_ONE;

#[test]
fn new_buffer_is_opaque_white() {
    let buf = ImgBuf::new(3, 2);
    assert_eq!(buf.width(), 3);
    assert_eq!(buf.height(), 2);
    assert_eq!(buf.data().len(), 3 * 2 * 4);
    assert!(buf.data().iter().all(|&b| b == 255));
}

#[test]
fn write_isolation() {
    let mut buf = ImgBuf::new(4, 3);
    let color = LinearRGB::from_srgb(10, 20, 30);
    buf.set_pixel(1, 2, color);
    let off = 4 * (2 * 4 + 1);
    let data = buf.data();
    for (i, &b) in data.iter().enumerate() {
        if i == off {
            assert_eq!(b, srgb_encode_byte(color.r));
        } else if i == off + 1 {
            assert_eq!(b, srgb_encode_byte(color.g));
        } else if i == off + 2 {
            assert_eq!(b, srgb_encode_byte(color.b));
        } else {
            // the alpha byte and every other pixel stay untouched
            assert_eq!(b, 255, "byte {} changed", i);
        }
    }
}

#[test]
fn end_to_end_two_pixel_export() {
    let mut buf = ImgBuf::new(2, 1);
    buf.set_pixel(0, 0, LinearRGB { r: FP_ONE, g: FP_ONE, b: FP_ONE });
    buf.set_pixel(1, 0, LinearRGB { r: 0, g: 0, b: 0 });
    assert_eq!(buf.data().as_slice(), &[255, 255, 255, 255, 0, 0, 0, 255]);
}
