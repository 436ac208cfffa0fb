use srgb_blend::transfer::srgb_encode_byte;
use srgb_blend::transfer::srgb_gamma;
use srgb_blend::transfer::srgb_inv_gamma;
use srgb_blend::FP_ONE;

#[test]
fn round_trip_named_bytes_exact() {
    for b in [0u8, 1, 128, 254, 255] {
        let u = (b as u32) * FP_ONE / 255;
        let back = srgb_encode_byte(srgb_inv_gamma(u));
        assert_eq!(back, b);
    }
}

#[test]
fn round_trip_all_bytes_within_one() {
    for b in 0..=255u32 {
        let u = b * FP_ONE / 255;
        let back = srgb_encode_byte(srgb_inv_gamma(u)) as i32;
        assert!((back - b as i32).abs() <= 1, "byte {} came back as {}", b, back);
    }
}

#[test]
fn decode_monotone_over_domain() {
    let mut prev = 0u32;
    for u in 0..=FP_ONE {
        let d = srgb_inv_gamma(u);
        assert!(d >= prev, "decode dipped at {}", u);
        prev = d;
    }
}

#[test]
fn gamma_monotone_over_domain() {
    let mut prev = 0u32;
    for z in 0..=FP_ONE {
        let g = srgb_gamma(z);
        assert!(g >= prev, "gamma dipped at {}", z);
        prev = g;
    }
}

#[test]
fn decode_endpoints() {
    assert_eq!(srgb_inv_gamma(0), 0);
    assert_eq!(srgb_inv_gamma(FP_ONE), FP_ONE);
}

#[test]
fn gamma_endpoints_and_clamp() {
    assert_eq!(srgb_gamma(0), 0);
    assert_eq!(srgb_gamma(FP_ONE), FP_ONE);
    // linear values past 1.0 encode like 1.0: the clamp bounds them
    assert_eq!(srgb_gamma(u32::MAX), FP_ONE);
    assert_eq!(srgb_encode_byte(u32::MAX), 255);
    assert_eq!(srgb_encode_byte(0), 0);
    assert_eq!(srgb_encode_byte(FP_ONE), 255);
}

#[test]
fn decode_exact_values() {
    // the fixed-point rendering of the sRGB curve at a mid gray
    assert_eq!(srgb_inv_gamma(32896), 14145);
    // the two sides of the piecewise threshold agree
    assert_eq!(srgb_inv_gamma(2651), 205);
    assert_eq!(srgb_inv_gamma(2652), 205);
}

#[test]
fn gamma_exact_values() {
    assert_eq!(srgb_gamma(14147), 32893);
    assert_eq!(srgb_encode_byte(14147), 128);
}
