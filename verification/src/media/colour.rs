//! What the packed pictures show: the colour matrices of the standards, and
//! the place of each pixel.

use crate::media::decoder::{is_601, matrix_for};
use crate::media::pixels::{
    bgra_at, bgra_of, bgra_row, bgra_rows, channel_of, lemma_row_fits, plane_rows, uyvy_row, uyvy_rows, YUV_RGB_601, YUV_RGB_709,
};
use crate::vmx::frame::{plane_holds, Frame, PixelFormat, Plane};
use crate::vmx::lanes::{diff16, down16, high16, sum16};
use vstd::prelude::*;

verus! {

// ---------------------------------------------------------------------------
// Colour
// ---------------------------------------------------------------------------

/// `byte` is `x` ten-thousandths, held between 0 and 255, to within 7/10.
pub open spec fn shows_level(byte: u8, x: int) -> bool {
    let held = if x < 0 {
        0
    } else if x > 2_550_000 {
        2_550_000
    } else {
        x
    };
    -7_000 <= 10_000 * byte - held <= 7_000
}

/// How far the luma is above black, which is 16.
pub open spec fn above_black(y: u8) -> int {
    if y < 16 {
        0
    } else {
        y - 16
    }
}


/// Every pixel is converted by the BT.709 matrix for studio levels:
///
/// ```text
/// R = 1.1644 (Y - 16)                    + 1.7927 (V - 128)
/// G = 1.1644 (Y - 16) - 0.2132 (U - 128) - 0.5329 (V - 128)
/// B = 1.1644 (Y - 16) + 2.1124 (U - 128)
/// ```
///
/// held between 0 and 255. Alpha passes through.
pub proof fn law_bt709(y: u8, u: u8, v: u8, a: u8)
    ensures
        ({
            let px = bgra_of(y, u, v, a, YUV_RGB_709@);
            let l = 11_644 * above_black(y);
            &&& px.len() == 4
            &&& shows_level(px[0], l + 21_124 * (u - 128))
            &&& shows_level(px[1], l - 2_132 * (u - 128) - 5_329 * (v - 128))
            &&& shows_level(px[2], l + 17_927 * (v - 128))
            &&& px[3] == a
        }),
{
    reveal(high16);
    reveal(sum16);
    reveal(diff16);
    reveal(down16);
    vstd::arithmetic::power2::lemma2_to64();
}

/// Every pixel is converted by the BT.601 matrix for studio levels:
///
/// ```text
/// R = 1.1644 (Y - 16)                    + 1.5960 (V - 128)
/// G = 1.1644 (Y - 16) - 0.3918 (U - 128) - 0.8130 (V - 128)
/// B = 1.1644 (Y - 16) + 2.0172 (U - 128)
/// ```
///
/// held between 0 and 255. Alpha passes through.
pub proof fn law_bt601(y: u8, u: u8, v: u8, a: u8)
    ensures
        ({
            let px = bgra_of(y, u, v, a, YUV_RGB_601@);
            let l = 11_644 * above_black(y);
            &&& px.len() == 4
            &&& shows_level(px[0], l + 20_172 * (u - 128))
            &&& shows_level(px[1], l - 3_918 * (u - 128) - 8_130 * (v - 128))
            &&& shows_level(px[2], l + 15_960 * (v - 128))
            &&& px[3] == a
        }),
{
    reveal(high16);
    reveal(sum16);
    reveal(diff16);
    reveal(down16);
    vstd::arithmetic::power2::lemma2_to64();
}

/// A larger sum gives no darker channel, and one larger by a level a brighter
/// one unless both are cut off.
proof fn lemma_channel_ordered(c: int, d: int)
    requires
        -25_000 <= c <= d <= 25_000,
    ensures
        channel_of(c) <= channel_of(d),
        d - c >= 16 ==> channel_of(c) < channel_of(d) || channel_of(c) == 255 || channel_of(d) == 0,
        0 <= channel_of(c) <= 255,
        0 <= channel_of(d) <= 255,
{
    reveal(sum16);
    reveal(down16);
    vstd::arithmetic::power2::lemma2_to64();
}

/// The high half of a product grows with a factor, by 16 for each 64 of it
/// where the other factor is large.
proof fn lemma_high_ordered(a: int, b: int, k: int)
    requires
        -16_384 <= a <= b <= 16_384,
        0 <= k <= 32_767,
    ensures
        -8_192 <= high16(a, k) <= high16(b, k) <= 8_192,
        b - a >= 64 && k >= 16_384 ==> high16(b, k) - high16(a, k) >= 16,
{
    reveal(high16);
    assert(a * k <= b * k) by (nonlinear_arith)
        requires
            a <= b,
            k >= 0,
    ;
    assert(-16_384 * 32_767 <= a * k && b * k <= 16_384 * 32_767) by (nonlinear_arith)
        requires
            -16_384 <= a <= b <= 16_384,
            0 <= k <= 32_767,
    ;
    if b - a >= 64 && k >= 16_384 {
        assert(b * k - a * k >= 64 * 16_384) by (nonlinear_arith)
            requires
                b - a >= 64,
                k >= 16_384,
        ;
    }
}

/// Of two pixels that differ in U alone the one with more U has more blue and
/// no more green; of two that differ in V alone the one with more V has more
/// red and no more green. Only at the ends of the range do blues or reds
/// coincide. A brighter luma makes no channel darker.
pub proof fn law_colours_ordered(y: u8, y2: u8, u: u8, u2: u8, v: u8, v2: u8, a: u8, color_space: i32, height: int)
    requires
        y <= y2,
        u < u2,
        v < v2,
    ensures
        ({
            let t = matrix_for(color_space, height);
            let px = bgra_of(y, u, v, a, t);
            let bluer = bgra_of(y, u2, v, a, t);
            let redder = bgra_of(y, u, v2, a, t);
            let brighter = bgra_of(y2, u, v, a, t);
            &&& px[0] <= bluer[0] && (px[0] < bluer[0] || px[0] == 255 || bluer[0] == 0)
            &&& bluer[1] <= px[1]
            &&& bluer[2] == px[2]
            &&& px[2] <= redder[2] && (px[2] < redder[2] || px[2] == 255 || redder[2] == 0)
            &&& redder[1] <= px[1]
            &&& redder[0] == px[0]
            &&& px[0] <= brighter[0]
            &&& px[1] <= brighter[1]
            &&& px[2] <= brighter[2]
        }),
{
    let t = matrix_for(color_space, height);
    if is_601(color_space, height) {
        assert(t == YUV_RGB_601@);
    }
    reveal(sum16);
    reveal(diff16);
    let (l, l2) = (64 * above_black(y), 64 * above_black(y2));
    let (du, du2) = (u - 128, u2 - 128);
    let (dv, dv2) = (v - 128, v2 - 128);
    lemma_high_ordered(l, l2, t[0] as int);
    lemma_high_ordered(dv * 64, dv2 * 64, t[1] as int);
    lemma_high_ordered(du * 64, du2 * 64, t[2] as int);
    lemma_high_ordered(dv * 64, dv2 * 64, t[3] as int);
    lemma_high_ordered(du * 128, du2 * 128, t[4] as int);
    let (luma, luma2) = (high16(l, t[0] as int), high16(l2, t[0] as int));
    let (r, r2) = (high16(dv * 64, t[1] as int), high16(dv2 * 64, t[1] as int));
    let (gu, gu2) = (high16(du * 64, t[2] as int), high16(du2 * 64, t[2] as int));
    let (gv, gv2) = (high16(dv * 64, t[3] as int), high16(dv2 * 64, t[3] as int));
    let (b, b2) = (high16(du * 128, t[4] as int), high16(du2 * 128, t[4] as int));
    lemma_channel_ordered(b + luma, b2 + luma);
    lemma_channel_ordered(b + luma, b + luma2);
    lemma_channel_ordered(r + luma, r2 + luma);
    lemma_channel_ordered(r + luma, r + luma2);
    lemma_channel_ordered(luma - gu2 - gv, luma - gu - gv);
    lemma_channel_ordered(luma - gu - gv2, luma - gu - gv);
    lemma_channel_ordered(luma - gu - gv, luma2 - gu - gv);
}

// ---------------------------------------------------------------------------
// Places
// ---------------------------------------------------------------------------

proof fn lemma_bgra_row_at(f: Frame, t: Seq<i16>, r: int, n: int, x: int, k: int)
    requires
        0 <= x < n,
        0 <= k < 4,
    ensures
        bgra_row(f, t, r, n).len() == 4 * n,
        bgra_row(f, t, r, n)[4 * x + k] == bgra_at(f, t, r, x)[k],
    decreases n,
{
    if n > 1 {
        lemma_bgra_row_at(f, t, r, n - 1, if x < n - 1 {
            x
        } else {
            0
        }, k);
    } else {
        reveal_with_fuel(bgra_row, 2);
    }
}

proof fn lemma_bgra_rows_at(f: Frame, t: Seq<i16>, n: int, r: int, x: int, k: int)
    requires
        0 <= r < n,
        0 <= x < f.width,
        0 <= k < 4,
    ensures
        bgra_rows(f, t, n).len() == 4 * (n * f.width),
        bgra_rows(f, t, n)[4 * (r * f.width + x) + k] == bgra_at(f, t, r, x)[k],
    decreases n,
{
    let w = f.width as int;
    lemma_bgra_row_at(f, t, n - 1, w, x, k);
    assert(n * w == (n - 1) * w + w) by (nonlinear_arith);
    assert(r < n - 1 ==> r * w + w <= (n - 1) * w) by (nonlinear_arith)
        requires
            w > 0,
    ;
    assert(r * w >= 0) by (nonlinear_arith)
        requires
            r >= 0,
            w > 0,
    ;
    if n > 1 {
        lemma_bgra_rows_at(f, t, n - 1, if r < n - 1 {
            r
        } else {
            0
        }, x, k);
    } else {
        reveal_with_fuel(bgra_rows, 2);
        assert(0 * w == 0);
    }
}

/// Pixel `x` of row `r` of a picture packed as B, G, R, A stands `r` rows of
/// four bytes a pixel and `x` pixels from the start. It is made of the luma
/// sample at that row and column, the chroma samples at that row and half that
/// column, and the alpha sample, which is opaque where there is none.
pub proof fn law_bgra_places(f: Frame, t: Seq<i16>, r: int, x: int, k: int)
    requires
        0 <= r < f.height,
        0 <= x < f.width,
        0 <= k < 4,
    ensures
        bgra_rows(f, t, f.height as int).len() == 4 * (f.height * f.width),
        bgra_rows(f, t, f.height as int)[4 * (r * f.width + x) + k] == bgra_of(
            f.planes@[0].data@[r * f.planes@[0].stride + x],
            f.planes@[1].data@[r * f.planes@[1].stride + x / 2],
            f.planes@[2].data@[r * f.planes@[2].stride + x / 2],
            if f.format == PixelFormat::Yuva422p {
                f.planes@[3].data@[r * f.planes@[3].stride + x]
            } else {
                255
            },
            t,
        )[k],
{
    lemma_bgra_rows_at(f, t, f.height as int, r, x, k);
}

proof fn lemma_uyvy_row_at(f: Frame, r: int, n: int, i: int)
    requires
        0 <= i < n,
    ensures
        uyvy_row(f, r, n).len() == 4 * n,
        uyvy_row(f, r, n)[4 * i] == f.planes@[1].data@[r * f.planes@[1].stride + i],
        uyvy_row(f, r, n)[4 * i + 1] == f.planes@[0].data@[r * f.planes@[0].stride + 2 * i],
        uyvy_row(f, r, n)[4 * i + 2] == f.planes@[2].data@[r * f.planes@[2].stride + i],
        uyvy_row(f, r, n)[4 * i + 3] == f.planes@[0].data@[r * f.planes@[0].stride + 2 * i + 1],
    decreases n,
{
    if n > 1 {
        lemma_uyvy_row_at(f, r, n - 1, if i < n - 1 {
            i
        } else {
            0
        });
    } else {
        reveal_with_fuel(uyvy_row, 2);
    }
}

proof fn lemma_uyvy_rows_at(f: Frame, n: int, r: int, i: int, k: int)
    requires
        0 <= r < n,
        0 <= i < f.width as int / 2,
        0 <= k < 4,
    ensures
        uyvy_rows(f, n).len() == 4 * (n * (f.width as int / 2)),
        uyvy_rows(f, n)[4 * (r * (f.width as int / 2) + i) + k] == uyvy_row(f, r, f.width as int / 2)[4 * i + k],
    decreases n,
{
    let w = f.width as int / 2;
    lemma_uyvy_row_at(f, n - 1, w, i);
    assert(n * w == (n - 1) * w + w) by (nonlinear_arith);
    assert(r < n - 1 ==> r * w + w <= (n - 1) * w) by (nonlinear_arith)
        requires
            w > 0,
    ;
    assert(r * w >= 0) by (nonlinear_arith)
        requires
            r >= 0,
            w > 0,
    ;
    if n > 1 {
        lemma_uyvy_rows_at(f, n - 1, if r < n - 1 {
            r
        } else {
            0
        }, i, k);
    } else {
        reveal_with_fuel(uyvy_rows, 2);
        assert(0 * w == 0);
    }
}

/// Pair `i` of row `r` of a picture packed as UYVY holds the two chroma
/// samples of that pair and the luma samples of its two pixels, at their own
/// row.
pub proof fn law_uyvy_places(f: Frame, r: int, i: int)
    requires
        0 <= r < f.height,
        0 <= i < f.width as int / 2,
    ensures
        ({
            let at = 4 * (r * (f.width as int / 2) + i);
            let packed = uyvy_rows(f, f.height as int);
            &&& packed.len() == 4 * (f.height * (f.width as int / 2))
            &&& packed[at] == f.planes@[1].data@[r * f.planes@[1].stride + i]
            &&& packed[at + 1] == f.planes@[0].data@[r * f.planes@[0].stride + 2 * i]
            &&& packed[at + 2] == f.planes@[2].data@[r * f.planes@[2].stride + i]
            &&& packed[at + 3] == f.planes@[0].data@[r * f.planes@[0].stride + 2 * i + 1]
        }),
{
    let h = f.height as int;
    lemma_uyvy_row_at(f, r, f.width as int / 2, i);
    lemma_uyvy_rows_at(f, h, r, i, 0);
    lemma_uyvy_rows_at(f, h, r, i, 1);
    lemma_uyvy_rows_at(f, h, r, i, 2);
    lemma_uyvy_rows_at(f, h, r, i, 3);
}

/// Sample `x` of row `r` of a plane that is copied out stands `r` rows and `x`
/// samples from the start.
pub proof fn law_plane_places(p: Plane, w: int, h: int, n: int, r: int, x: int)
    requires
        plane_holds(p, (w, h)),
        0 <= r < n <= h,
        0 <= x < w,
    ensures
        plane_rows(p, w, n).len() == n * w,
        plane_rows(p, w, n)[r * w + x] == p.data@[r * p.stride + x],
    decreases n,
{
    assert(n * w == (n - 1) * w + w) by (nonlinear_arith);
    assert(r < n - 1 ==> r * w + w <= (n - 1) * w) by (nonlinear_arith)
        requires
            w > 0,
    ;
    assert(r * w >= 0) by (nonlinear_arith)
        requires
            r >= 0,
            w > 0,
    ;
    lemma_row_fits(p, (w, h), n - 1);
    if n > 1 {
        law_plane_places(p, w, h, n - 1, if r < n - 1 {
            r
        } else {
            0
        }, x);
    } else {
        reveal_with_fuel(plane_rows, 2);
        assert(0 * w == 0);
    }
}

} // verus!
