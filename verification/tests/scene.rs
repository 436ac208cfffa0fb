use srgb_blend::color::LinearRGB;
use srgb_blend::scene::make_blend;
use srgb_blend::transfer::srgb_encode_byte;
use srgb_blend::transfer::srgb_inv_gamma;
use srgb_blend::FP_ONE;

#[test]
fn scene_dimensions() {
    let buf = make_blend();
    assert_eq!(buf.width(), 640);
    assert_eq!(buf.height(), 600);
    assert_eq!(buf.data().len(), 640 * 600 * 4);
}

#[test]
fn scene_top_rows_are_black() {
    let buf = make_blend();
    for x in 0..640usize {
        for y in 0..2usize {
            let off = (y * 640 + x) * 4;
            assert_eq!(&buf.data()[off..off + 4], &[0, 0, 0, 255]);
        }
    }
}

#[test]
fn scene_pixels_follow_rule() {
    let buf = make_blend();
    let top = LinearRGB::from_srgb(255, 128, 0);
    for (x, y) in [(0usize, 300usize), (40, 300), (639, 599), (5, 2), (100, 100)] {
        let g = srgb_inv_gamma((x as u32) * FP_ONE / 640);
        let base = LinearRGB { r: g, g, b: g };
        let alpha = FP_ONE - ((y % 600) as u32) * FP_ONE / 600;
        let expect = if y % 600 < 2 {
            LinearRGB::from_srgb(0, 0, 0)
        } else if x % 64 > 32 {
            base.kubelka_blend(top, alpha)
        } else {
            base.alpha_blend(top, alpha)
        };
        let off = (y * 640 + x) * 4;
        let px = &buf.data()[off..off + 4];
        assert_eq!(px[0], srgb_encode_byte(expect.r));
        assert_eq!(px[1], srgb_encode_byte(expect.g));
        assert_eq!(px[2], srgb_encode_byte(expect.b));
        assert_eq!(px[3], 255);
    }
}

#[test]
fn scene_alpha_channel_all_opaque() {
    let buf = make_blend();
    for i in (3..buf.data().len()).step_by(4) {
        assert_eq!(buf.data()[i], 255);
    }
}
