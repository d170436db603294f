//! What test patterns, snapshots and pixels show.

use crate::image::{
    bar, bmp_header, bmp_pixels, bmp_row_len, bmp_rows, box_height, box_width, drawable, law_pattern_fills_the_picture,
    lemma_row_len, pair_bytes, pattern, pattern_rows, png_samples, row_pairs, Layout, Rgb,
};
use crate::media::colour::law_bt709;
use crate::media::decoder::planes_joined;
use crate::media::pixels::{bgra_of, YUV_RGB_709};
use crate::media::{VideoFormat, VideoFrame};
use crate::picture::{is_whole, pixel_at, Pixel};
use crate::vmx::convert::sample_of;
use crate::vmx::frame::{PixelFormat, Plane};
use vstd::prelude::*;

verus! {

// ---------------------------------------------------------------------------
// The test pattern
// ---------------------------------------------------------------------------

/// A channel that is on shows three quarters of the range, one that is off
/// nothing.
pub open spec fn lit(level: u8, on: bool) -> bool {
    if on {
        188 <= level <= 194
    } else {
        level <= 3
    }
}

/// The bars are the colours they are named after: white, yellow, cyan, green,
/// magenta, red, blue and black, each of the three channels on or off.
pub proof fn law_bars_are_colours(i: int)
    requires
        0 <= i < 8,
    ensures
        ({
            let (y, u, v) = bar(i);
            let px = bgra_of((y / 4) as u8, (u / 4) as u8, (v / 4) as u8, 255, YUV_RGB_709@);
            &&& lit(px[2], i == 0 || i == 1 || i == 4 || i == 5)
            &&& lit(px[1], i < 4)
            &&& lit(px[0], i % 2 == 0)
        }),
{
    let (y, u, v) = bar(i);
    law_bt709((y / 4) as u8, (u / 4) as u8, (v / 4) as u8, 255);
}

/// The eight bars stand side by side, each over an eighth of the width.
pub proof fn law_bars_side_by_side(w: int, h: int, x: int, y: int, flash: bool, x0: int)
    requires
        drawable(w, h),
        0 <= x < w,
        0 <= y < h * 2 / 3,
        y < h * 3 / 4 - box_height(h) / 2,
    ensures
        exists|k: int| 0 <= k < 8 && k * w <= 8 * x < k * w + w && pattern(w, h, x, y, flash, x0) == #[trigger] bar(k),
{
    let k = x * 8 / w;
    vstd::arithmetic::div_mod::lemma_fundamental_div_mod(x * 8, w);
    assert(0 <= (x * 8) % w < w) by (nonlinear_arith)
        requires
            w > 0,
    ;
    assert(k * w == w * k) by (nonlinear_arith);
    assert(0 <= k < 8) by (nonlinear_arith)
        requires
            x * 8 == w * k + (x * 8) % w,
            0 <= (x * 8) % w < w,
            0 <= x < w,
    ;
    assert(pattern(w, h, x, y, flash, x0) == bar(k));
}

/// The ramp in the lower third is grey, rises from black to white in
/// proportion to the column, and never falls.
pub proof fn law_ramp_rises(w: int, h: int, x: int, x2: int, y: int, flash: bool, x0: int)
    requires
        drawable(w, h),
        0 <= x <= x2 < w,
        h * 2 / 3 <= y < h,
        x2 < x0 || x >= x0 + box_width(w) || y < h * 3 / 4 - box_height(h) / 2 || y >= h * 3 / 4 - box_height(h) / 2
            + box_height(h),
    ensures
        ({
            let (a, b) = (pattern(w, h, x, y, flash, x0), pattern(w, h, x2, y, flash, x0));
            &&& a.1 == 512 && a.2 == 512
            &&& a.0 <= b.0
            &&& 64 <= a.0 < 940
            &&& (a.0 - 64) * w <= 876 * x < (a.0 - 64) * w + w
        }),
{
    let (p, q) = (x * 876 / w, x2 * 876 / w);
    vstd::arithmetic::div_mod::lemma_fundamental_div_mod(x * 876, w);
    vstd::arithmetic::div_mod::lemma_fundamental_div_mod(x2 * 876, w);
    assert(0 <= (x * 876) % w < w && 0 <= (x2 * 876) % w < w) by (nonlinear_arith)
        requires
            w > 0,
    ;
    assert(0 <= p <= q < 876) by (nonlinear_arith)
        requires
            x * 876 == w * p + (x * 876) % w,
            x2 * 876 == w * q + (x2 * 876) % w,
            0 <= (x * 876) % w < w,
            0 <= (x2 * 876) % w < w,
            0 <= x <= x2 < w,
    ;
    assert(p * w == w * p) by (nonlinear_arith);
}

/// The box is white while it flashes and black otherwise, and has an area.
pub proof fn law_box(w: int, h: int, x: int, y: int, flash: bool, x0: int)
    requires
        drawable(w, h),
        x0 <= x < x0 + box_width(w),
        h * 3 / 4 - box_height(h) / 2 <= y < h * 3 / 4 - box_height(h) / 2 + box_height(h),
    ensures
        pattern(w, h, x, y, flash, x0) == (if flash {
            (940u16, 512u16, 512u16)
        } else {
            (64u16, 512u16, 512u16)
        }),
        box_width(w) >= 2,
        box_width(w) % 2 == 0,
        box_width(w) <= w,
        box_height(h) >= 2,
{
}

proof fn lemma_pair_at(layout: Layout, w: int, h: int, y: int, flash: bool, x0: int, n: int, i: int, k: int)
    requires
        0 <= i < n,
        0 <= k < 4,
    ensures
        row_pairs(layout, w, h, y, flash, x0, n)[4 * i + k] == pair_bytes(
            layout,
            pattern(w, h, 2 * i, y, flash, x0),
        )[k],
    decreases n,
{
    lemma_row_len(layout, w, h, y, flash, x0, n - 1);
    lemma_row_len(layout, w, h, y, flash, x0, n);
    if i < n - 1 {
        lemma_pair_at(layout, w, h, y, flash, x0, n - 1, i, k);
    }
}

/// Pixel pair `i` of row `y` stands `y` rows and `i` pairs from the start.
pub proof fn law_pattern_places(
    layout: Layout,
    w: int,
    h: int,
    flash: bool,
    x0: int,
    n: int,
    y: int,
    i: int,
    k: int,
)
    requires
        drawable(w, h),
        0 <= y < n,
        0 <= i < w / 2,
        0 <= k < 4,
    ensures
        pattern_rows(layout, w, h, flash, x0, n)[2 * w * y + 4 * i + k] == pair_bytes(
            layout,
            pattern(w, h, 2 * i, y, flash, x0),
        )[k],
    decreases n,
{
    law_pattern_fills_the_picture(layout, w, h, flash, x0, n - 1);
    lemma_row_len(layout, w, h, n - 1, flash, x0, w / 2);
    assert(y < n - 1 ==> 2 * w * y + 2 * w <= 2 * w * (n - 1)) by (nonlinear_arith)
        requires
            w > 0,
    ;
    assert(2 * w * y >= 0) by (nonlinear_arith)
        requires
            w > 0,
            y >= 0,
    ;
    if y < n - 1 {
        law_pattern_places(layout, w, h, flash, x0, n - 1, y, i, k);
    } else {
        lemma_pair_at(layout, w, h, y, flash, x0, w / 2, i, k);
    }
}

// ---------------------------------------------------------------------------
// Snapshots
// ---------------------------------------------------------------------------

proof fn lemma_bmp_pixel_at(img: Rgb, y: int, n: int, x: int, c: int)
    requires
        0 <= x < n,
        0 <= c < 3,
    ensures
        bmp_pixels(img, y, n).len() == 3 * n,
        bmp_pixels(img, y, n)[3 * x + c] == img.samples@[(y * img.width + x) * img.channels() + 2 - c] as u8,
    decreases n,
{
    if n > 1 {
        lemma_bmp_pixel_at(img, y, n - 1, if x < n - 1 {
            x
        } else {
            0
        }, c);
    } else {
        reveal_with_fuel(bmp_pixels, 2);
    }
}

proof fn lemma_bmp_rows_at(img: Rgb, n: int, k: int, x: int, c: int)
    requires
        0 <= k < n <= img.height,
        0 <= x < img.width,
        0 <= c < 3,
    ensures
        bmp_rows(img, n).len() == n * bmp_row_len(img.width as int),
        bmp_rows(img, n)[k * bmp_row_len(img.width as int) + 3 * x + c] == bmp_pixels(
            img,
            img.height - 1 - k,
            img.width as int,
        )[3 * x + c],
    decreases n,
{
    let w = img.width as int;
    let len = bmp_row_len(w);
    assert(len >= 3 * w);
    lemma_bmp_pixel_at(img, img.height - n, w, x, c);
    assert(n * len == (n - 1) * len + len) by (nonlinear_arith);
    assert(k < n - 1 ==> k * len + len <= (n - 1) * len) by (nonlinear_arith)
        requires
            len > 0,
    ;
    assert(k * len >= 0) by (nonlinear_arith)
        requires
            len > 0,
            k >= 0,
    ;
    if n > 1 {
        lemma_bmp_rows_at(img, n - 1, if k < n - 1 {
            k
        } else {
            0
        }, x, c);
    } else {
        reveal_with_fuel(bmp_rows, 2);
        assert(0 * len == 0);
    }
}

/// Pixel `x` of row `y` of a picture stands in a BMP file behind the header and
/// the rows below it, blue, green and red, each row starting at a multiple of
/// four.
pub proof fn law_bmp_places(img: Rgb, x: int, y: int, c: int)
    requires
        0 <= x < img.width,
        0 <= y < img.height,
        0 <= c < 3,
    ensures
        ({
            let file = bmp_header(img.width as int, img.height as int) + bmp_rows(img, img.height as int);
            let len = bmp_row_len(img.width as int);
            let at = 54 + (img.height - 1 - y) * len + 3 * x + c;
            &&& len % 4 == 0
            &&& 3 * img.width <= len < 3 * img.width + 4
            &&& file.len() == 54 + img.height * len
            &&& at < file.len()
            &&& file[at] == img.samples@[(y * img.width + x) * img.channels() + 2 - c] as u8
        }),
{
    broadcast use crate::wire::group_le_len;

    let (w, h) = (img.width as int, img.height as int);
    let len = bmp_row_len(w);
    assert(bmp_header(w, h).len() == 54);
    let k = h - 1 - y;
    lemma_bmp_rows_at(img, h, k, x, c);
    lemma_bmp_pixel_at(img, y, w, x, c);
    assert(0 <= k * len && k * len + len <= h * len) by (nonlinear_arith)
        requires
            0 <= k < h,
            len > 0,
    ;
}

/// Sample `i` of a picture stands in the data of a PNG file at its own place:
/// one byte, or two with the high one first.
pub proof fn law_png_places(samples: Seq<u16>, sixteen: bool, i: int)
    requires
        0 <= i < samples.len(),
    ensures
        ({
            let d = png_samples(samples, sixteen);
            &&& d.len() == samples.len() * (if sixteen {
                2int
            } else {
                1
            })
            &&& sixteen ==> 256 * d[2 * i] + d[2 * i + 1] == samples[i]
            &&& !sixteen && samples[i] <= 255 ==> d[i] == samples[i]
        }),
    decreases samples.len(),
{
    let before = samples.drop_last();
    if before.len() > 0 {
        law_png_places(before, sixteen, if i < before.len() {
            i
        } else {
            0
        });
    } else {
        assert(png_samples(before, sixteen) =~= Seq::empty());
    }
}

// ---------------------------------------------------------------------------
// Pixels
// ---------------------------------------------------------------------------

/// The planes of a picture lie one behind the other.
pub open spec fn joined(planes: Seq<Plane>, v: VideoFrame) -> bool {
    let n = v.width * v.height;
    &&& v.data@ == planes_joined(planes, planes.len() as int)
    &&& planes.len() == (match v.format {
        VideoFormat::Uyvy => 1int,
        VideoFormat::Uyva => 2,
        VideoFormat::P216 => 2,
        VideoFormat::Pa16 => 3,
        VideoFormat::Bgra => 1,
    })
    &&& planes[0].data@.len() == 2 * n
    &&& planes[0].stride == 2 * v.width
    &&& v.format == VideoFormat::Uyva ==> planes[1].data@.len() == n && planes[1].stride == v.width
    &&& v.format == VideoFormat::P216 || v.format == VideoFormat::Pa16 ==> planes[1].data@.len() == 2 * n
        && planes[1].stride == 2 * v.width
    &&& v.format == VideoFormat::Pa16 ==> planes[2].data@.len() == 2 * n && planes[2].stride == 2 * v.width
}

/// The pixel format of a layout that is not BGRA.
pub open spec fn same_layout(f: VideoFormat) -> PixelFormat {
    match f {
        VideoFormat::Uyva => PixelFormat::Uyva,
        VideoFormat::P216 => PixelFormat::P216,
        VideoFormat::Pa16 => PixelFormat::Pa16,
        _ => PixelFormat::Uyvy,
    }
}

/// The pixel that is read at a column and a row is made of the samples that the
/// codec's planes hold there: luma and opacity of its own column, chroma of half
/// of it. A picture without opacity is opaque.
pub proof fn law_pixel_is_the_sample(v: VideoFrame, planes: Seq<Plane>, x: int, y: int)
    requires
        v.format != VideoFormat::Bgra,
        is_whole(v),
        joined(planes, v),
        0 <= x < v.width,
        0 <= y < v.height,
    ensures
        ({
            let f = same_layout(v.format);
            let deep = v.format == VideoFormat::P216 || v.format == VideoFormat::Pa16;
            let unit = if deep {
                64int
            } else {
                1
            };
            match pixel_at(v, x, y) {
                Pixel::Yuv { y: luma, cb, cr, alpha } => {
                    &&& luma == sample_of(f, planes, 0, y, x) as int / unit
                    &&& cb == sample_of(f, planes, 1, y, x / 2) as int / unit
                    &&& cr == sample_of(f, planes, 2, y, x / 2) as int / unit
                    &&& alpha == (match v.format {
                        VideoFormat::Uyva => sample_of(f, planes, 3, y, x) as int,
                        VideoFormat::Pa16 => sample_of(f, planes, 3, y, x) as int / 64,
                        VideoFormat::P216 => 1023,
                        _ => 255,
                    })
                },
                Pixel::Rgb { .. } => false,
            }
        }),
{
    reveal_with_fuel(planes_joined, 4);
    let w = v.width as int;
    let n = v.width * v.height;
    assert(0 <= y * w && y * w + w <= n) by (nonlinear_arith)
        requires
            0 <= y < v.height,
            w == v.width,
            n == v.width * v.height,
    ;
    assert(y * (2 * w) == 2 * (y * w)) by (nonlinear_arith);
    let i = y * w + x;
    assert(2 * (x / 2) == x - x % 2);
}

} // verus!
