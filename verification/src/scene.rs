//! The demonstration scene: a horizontal gradient composited with an
//! orange overlay, alpha-blended on some columns and Kubelka-Munk-blended
//! on others, with a black rule at the top of the stripe.
//!
//! The scene is illustrative scaffolding for the compositing engine; its
//! contract pins every byte of the produced buffer to the per-pixel rule
//! below.

use vstd::prelude::*;

verus! {

use crate::buffer::ImgBuf;
use crate::color::LinearRGB;
use crate::color::spec_from_srgb_chan;
use crate::color::spec_kubelka;
use crate::color::spec_lerp;
use crate::transfer::spec_decode;
use crate::transfer::spec_encode_byte;
use crate::transfer::srgb_inv_gamma;
use vstd::arithmetic::div_mod::lemma_div_is_ordered;
use vstd::arithmetic::div_mod::lemma_mod_multiples_vanish;

/// The overlay's coverage at row `y`: full at the top of the stripe,
/// fading linearly to zero at the bottom.
pub open spec fn scene_alpha(y: int) -> int {
    65536 - (y % 600) * 65536 / 600
}

/// The base gradient at column `x`: a gray whose linear intensity is the
/// decoded column fraction, the same in all three channels.
pub open spec fn scene_base_chan(x: int) -> int {
    spec_decode(x * 65536 / 640)
}

/// One channel of the scene's color at `(x, y)`, where `ts` is that
/// channel's byte in the orange overlay color (255, 128, 0): the top two
/// rows of the stripe are black, and the rest blends the gradient with the
/// overlay, subtractively on the right half of each 64-column band and
/// linearly on the left.
pub open spec fn scene_chan(x: int, y: int, ts: int) -> int {
    if y % 600 < 2 {
        spec_from_srgb_chan(0)
    } else if x % 64 > 32 {
        spec_kubelka(scene_base_chan(x), spec_from_srgb_chan(ts), scene_alpha(y))
    } else {
        spec_lerp(scene_base_chan(x), spec_from_srgb_chan(ts), scene_alpha(y))
    }
}

/// The four stored bytes of pixel `(x, y)` are the gamma-encoded scene
/// color and an opaque alpha.
pub open spec fn pixel_ok(s: Seq<u8>, x: int, y: int) -> bool {
    s[(y * 640 + x) * 4] == spec_encode_byte(scene_chan(x, y, 255))
        && s[(y * 640 + x) * 4 + 1] == spec_encode_byte(scene_chan(x, y, 128))
        && s[(y * 640 + x) * 4 + 2] == spec_encode_byte(scene_chan(x, y, 0))
        && s[(y * 640 + x) * 4 + 3] == 255
}

/// Renders the demonstration scene into a fresh 640 x 600 buffer.
#[verifier::loop_isolation(false)]
pub fn make_blend() -> (buf: ImgBuf)
    ensures
        buf.wf(),
        buf.spec_width() == 640,
        buf.spec_height() == 600,
        forall|x: int, y: int|
            0 <= x < 640 && 0 <= y < 600 ==> #[trigger] pixel_ok(buf.spec_data(), x, y),
{
    let width: usize = 640;
    let height: usize = 600;
    let stripe: usize = 600;
    let mut buf = ImgBuf::new(width, height);
    let top = LinearRGB::from_srgb(255, 128, 0);
    let mut y: usize = 0;
    while y < height
        invariant
            y <= 600,
            buf.wf(),
            buf.spec_width() == 640,
            buf.spec_height() == 600,
            forall|i: int|
                0 <= i < buf.spec_data().len() && i % 4 == 3
                    ==> #[trigger] buf.spec_data()[i] == 255,
            forall|xx: int, yy: int|
                0 <= xx < 640 && 0 <= yy < y ==> #[trigger] pixel_ok(buf.spec_data(), xx, yy),
        decreases 600 - y,
    {
        let mut x: usize = 0;
        while x < width
            invariant
                x <= 640,
                y < 600,
                buf.wf(),
                buf.spec_width() == 640,
                buf.spec_height() == 600,
                forall|i: int|
                    0 <= i < buf.spec_data().len() && i % 4 == 3
                        ==> #[trigger] buf.spec_data()[i] == 255,
                forall|xx: int, yy: int|
                    0 <= xx < 640 && 0 <= yy < y
                        ==> #[trigger] pixel_ok(buf.spec_data(), xx, yy),
                forall|xx: int|
                    0 <= xx < x ==> #[trigger] pixel_ok(buf.spec_data(), xx, y as int),
            decreases 640 - x,
        {
            let u: u32 = ((x as u32) * 65536) / 640;
            assert(u <= 65536) by {
                lemma_div_is_ordered(x as int * 65536, 639int * 65536, 640int);
            };
            let g: u32 = srgb_inv_gamma(u);
            let base_color = LinearRGB { r: g, g: g, b: g };
            let ys: usize = y % stripe;
            let frac: u32 = ((ys as u32) * 65536) / 600;
            assert(frac <= 65536) by {
                lemma_div_is_ordered(ys as int * 65536, 599int * 65536, 600int);
            };
            let alpha: u32 = 65536 - frac;
            let color = if ys < 2 {
                LinearRGB::from_srgb(0, 0, 0)
            } else if x % 64 > 32 {
                base_color.kubelka_blend(top, alpha)
            } else {
                base_color.alpha_blend(top, alpha)
            };
            proof {
                assert(color.r == scene_chan(x as int, y as int, 255));
                assert(color.g == scene_chan(x as int, y as int, 128));
                assert(color.b == scene_chan(x as int, y as int, 0));
            }
            let ghost prev = buf.spec_data();
            buf.set_pixel(x, y, color);
            proof {
                let m = y as int * 640 + x as int;
                let base = buf.pixel_base(x as int, y as int);
                assert(base == m * 4);
                lemma_mod_multiples_vanish(m, 0, 4);
                lemma_mod_multiples_vanish(m, 1, 4);
                lemma_mod_multiples_vanish(m, 2, 4);
                assert(4 * m + 3 == base + 3 && (base + 3) % 4 == 3) by {
                    lemma_mod_multiples_vanish(m, 3, 4);
                };
                assert(buf.spec_data()[base + 3] == 255);
                assert(pixel_ok(buf.spec_data(), x as int, y as int));
                assert forall|xx: int, yy: int|
                    0 <= xx < 640 && 0 <= yy < 600 && (yy < y || (yy == y && xx < x))
                        && pixel_ok(prev, xx, yy)
                        implies #[trigger] pixel_ok(buf.spec_data(), xx, yy) by {
                    let mm = yy * 640 + xx;
                    assert(mm < m);
                    assert(mm * 4 + 3 < m * 4);
                    assert(0 <= mm * 4 && m * 4 + 3 < buf.spec_data().len());
                };
            }
            x = x + 1;
        }
        y = y + 1;
    }
    buf
}

} // verus!
