use srgb_blend::color::LinearRGB;
use srgb_blend::transfer::srgb_encode_byte;
use srgb_blend::FP_ONE;

#[test]
fn alpha_blend_zero_keeps_base() {
    let base = LinearRGB::from_srgb(10, 200, 30);
    let top = LinearRGB::from_srgb(255, 128, 0);
    assert_eq!(base.alpha_blend(top, 0), base);
}

#[test]
fn alpha_blend_one_takes_overlay() {
    let base = LinearRGB::from_srgb(10, 200, 30);
    let top = LinearRGB::from_srgb(255, 128, 0);
    assert_eq!(base.alpha_blend(top, FP_ONE), top);
}

#[test]
fn kubelka_blend_zero_keeps_base() {
    let base = LinearRGB::from_srgb(77, 5, 250);
    let top = LinearRGB::from_srgb(255, 128, 0);
    assert_eq!(base.kubelka_blend(top, 0), base);
}

#[test]
fn kubelka_degenerate_input_is_bounded() {
    // base and overlay at full intensity with full coverage: the blend's
    // denominator is zero and the defined limiting value is full intensity
    let white = LinearRGB { r: FP_ONE, g: FP_ONE, b: FP_ONE };
    let out = white.kubelka_blend(white, FP_ONE);
    assert_eq!(out, white);
    assert_eq!(srgb_encode_byte(out.r), 255);
}

#[test]
fn blends_are_per_channel() {
    // each channel obeys the same formula with that channel's inputs only
    let base = LinearRGB { r: 1000, g: 2000, b: 3000 };
    let top = LinearRGB { r: 4000, g: 5000, b: 6000 };
    let t = 12345;
    let a = base.alpha_blend(top, t);
    let r_only = LinearRGB { r: 1000, g: 0, b: 0 }
        .alpha_blend(LinearRGB { r: 4000, g: 0, b: 0 }, t);
    assert_eq!(a.r, r_only.r);
    let k = base.kubelka_blend(top, t);
    let kr_only = LinearRGB { r: 1000, g: 0, b: 0 }
        .kubelka_blend(LinearRGB { r: 4000, g: 0, b: 0 }, t);
    assert_eq!(k.r, kr_only.r);
}

#[test]
fn from_srgb_decodes_each_channel() {
    let c = LinearRGB::from_srgb(255, 0, 255);
    assert_eq!(c.r, FP_ONE);
    assert_eq!(c.g, 0);
    assert_eq!(c.b, FP_ONE);
}

#[test]
fn blend_exact_values() {
    let base = LinearRGB { r: 1000, g: 1000, b: 1000 };
    let top = LinearRGB { r: 4000, g: 4000, b: 4000 };
    assert_eq!(base.alpha_blend(top, 12345).r, 1565);
    assert_eq!(base.kubelka_blend(top, 12345).r, 1555);
}
