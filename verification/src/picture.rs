//! The pixels of decoded frames, as whole numbers at the depth of the frame.

use crate::media::{VideoFormat, VideoFrame};
use crate::wire::le16_at;
use vstd::prelude::*;

verus! {

/// One pixel.
#[derive(Clone, Copy, Debug, PartialEq, Eq, Structural)]
pub enum Pixel {
    /// Luma and chroma, limited range, and opacity.
    Yuv { y: u16, cb: u16, cr: u16, alpha: u16 },
    /// Red, green, blue, full range, and opacity.
    Rgb { r: u16, g: u16, b: u16, alpha: u16 },
}

/// What the samples of a pixel stand for.
#[derive(Clone, Copy, Debug, PartialEq, Eq, Structural)]
pub struct Scale {
    /// The luma of black.
    pub black: u16,
    /// From the luma of black to that of white.
    pub luma: u16,
    /// The chroma of grey.
    pub neutral: u16,
    /// From the least chroma to the greatest.
    pub chroma: u16,
    /// The greatest sample, which is also the opacity of an opaque pixel.
    pub full: u16,
}

/// The scale of samples of 8 or 10 bits.
pub open spec fn scale_for(ten: bool) -> Scale {
    if ten {
        Scale { black: 64, luma: 876, neutral: 512, chroma: 896, full: 1023 }
    } else {
        Scale { black: 16, luma: 219, neutral: 128, chroma: 224, full: 255 }
    }
}

/// Whether pictures of a layout say how opaque a pixel is.
pub open spec fn carries_alpha(f: VideoFormat) -> bool {
    f == VideoFormat::Uyva || f == VideoFormat::Pa16 || f == VideoFormat::Bgra
}

/// Bytes of all planes for each pixel.
pub open spec fn pixel_bytes(f: VideoFormat) -> int {
    match f {
        VideoFormat::Uyvy => 2,
        VideoFormat::Uyva => 3,
        VideoFormat::Bgra => 4,
        VideoFormat::P216 => 4,
        VideoFormat::Pa16 => 6,
    }
}

/// The data holds the whole picture. Where two pixels share their chroma, a
/// row has an even number of pixels.
pub open spec fn is_whole(v: VideoFrame) -> bool {
    &&& v.format == VideoFormat::Bgra || v.width % 2 == 0
    &&& pixel_bytes(v.format) * (v.width * v.height) <= v.data@.len()
}

/// The ten significant bits of the word at a place.
pub open spec fn word10(data: Seq<u8>, at: int) -> u16 {
    (le16_at(data, at) / 64) as u16
}

/// Pixel `x` of row `y`. It shares its chroma with the other pixel of its
/// pair, which starts at an even place. Opacity and, in the 10-bit layouts,
/// chroma have planes of their own behind the first.
pub open spec fn pixel_at(v: VideoFrame, x: int, y: int) -> Pixel {
    let d = v.data@;
    let n = v.width * v.height;
    let i = y * v.width + x;
    let pair = i - x % 2;
    match v.format {
        VideoFormat::Uyvy => Pixel::Yuv {
            y: d[2 * i + 1] as u16,
            cb: d[2 * pair] as u16,
            cr: d[2 * pair + 2] as u16,
            alpha: 255,
        },
        VideoFormat::Uyva => Pixel::Yuv {
            y: d[2 * i + 1] as u16,
            cb: d[2 * pair] as u16,
            cr: d[2 * pair + 2] as u16,
            alpha: d[2 * n + i] as u16,
        },
        VideoFormat::P216 => Pixel::Yuv {
            y: word10(d, 2 * i),
            cb: word10(d, 2 * n + 2 * pair),
            cr: word10(d, 2 * n + 2 * pair + 2),
            alpha: 1023,
        },
        VideoFormat::Pa16 => Pixel::Yuv {
            y: word10(d, 2 * i),
            cb: word10(d, 2 * n + 2 * pair),
            cr: word10(d, 2 * n + 2 * pair + 2),
            alpha: word10(d, 4 * n + 2 * i),
        },
        VideoFormat::Bgra => Pixel::Rgb {
            r: d[4 * i + 2] as u16,
            g: d[4 * i + 1] as u16,
            b: d[4 * i] as u16,
            alpha: d[4 * i + 3] as u16,
        },
    }
}

/// The scale of the samples of a layout.
pub fn scale_of(f: VideoFormat) -> (r: Scale)
    ensures
        r == scale_for(f == VideoFormat::P216 || f == VideoFormat::Pa16),
{
    if f.is_10bit() {
        Scale { black: 64, luma: 876, neutral: 512, chroma: 896, full: 1023 }
    } else {
        Scale { black: 16, luma: 219, neutral: 128, chroma: 224, full: 255 }
    }
}

/// Whether pictures of a layout say how opaque a pixel is.
pub fn has_opacity(f: VideoFormat) -> (r: bool)
    ensures
        r == carries_alpha(f),
{
    matches!(f, VideoFormat::Uyva | VideoFormat::Pa16 | VideoFormat::Bgra)
}

/// Whether a frame holds the whole picture that it says it holds.
pub fn holds_whole(v: &VideoFrame) -> (r: bool)
    ensures
        r == is_whole(*v),
{
    if !matches!(v.format, VideoFormat::Bgra) && v.width % 2 != 0 {
        return false;
    }
    let each: usize = match v.format {
        VideoFormat::Uyvy => 2,
        VideoFormat::Uyva => 3,
        VideoFormat::Bgra => 4,
        VideoFormat::P216 => 4,
        VideoFormat::Pa16 => 6,
    };
    let len: usize = v.data.len();
    let ghost all = v.width * v.height;
    proof {
        assert(0 <= all && each * all >= all && all * each == each * all) by (nonlinear_arith)
            requires
                all == v.width * v.height,
                each >= 1,
        ;
    }
    match v.width.checked_mul(v.height) {
        Some(n) => match n.checked_mul(each) {
            Some(bytes) => bytes <= len,
            None => false,
        },
        None => false,
    }
}

/// The ten significant bits of the word at a place.
fn read_word10(data: &[u8], at: usize) -> (r: u16)
    requires
        at + 1 < data@.len(),
    ensures
        r == word10(data@, at as int),
{
    (data[at] as u16 + data[at + 1] as u16 * 256) / 64
}

/// The place of a pixel lies in the picture, and with it the other pixel of
/// its pair.
proof fn lemma_place(w: int, h: int, x: int, y: int)
    requires
        0 <= x < w,
        0 <= y < h,
    ensures
        0 <= y * w + x < w * h,
        w % 2 == 0 ==> (y * w + x) % 2 == x % 2,
        w % 2 == 0 ==> y * w + x - x % 2 + 1 < w * h,
        0 <= y * w,
{
    assert(y * w + w <= w * h) by (nonlinear_arith)
        requires
            y + 1 <= h,
            0 <= w,
    ;
    assert(0 <= y * w) by (nonlinear_arith)
        requires
            0 <= y,
            0 <= w,
    ;
    if w % 2 == 0 {
        let k = w / 2;
        assert(y * w == 2 * (y * k)) by (nonlinear_arith)
            requires
                w == 2 * k,
        ;
        assert(w * h == 2 * (k * h)) by (nonlinear_arith)
            requires
                w == 2 * k,
        ;
    }
}

/// Pixel `x` of row `y`.
pub fn pixel(v: &VideoFrame, x: usize, y: usize) -> (r: Pixel)
    requires
        is_whole(*v),
        x < v.width,
        y < v.height,
    ensures
        r == pixel_at(*v, x as int, y as int),
{
    proof {
        lemma_place(v.width as int, v.height as int, x as int, y as int);
    }
    let d: &[u8] = v.data.as_slice();
    assert(d.len() == v.data@.len());
    assert(v.width * v.height <= pixel_bytes(v.format) * (v.width * v.height)) by (nonlinear_arith)
        requires
            0 <= v.width * v.height,
            pixel_bytes(v.format) >= 1,
    ;
    let size: usize = v.width * v.height;
    let i: usize = y * v.width + x;
    let pair: usize = i - x % 2;
    match v.format {
        VideoFormat::Uyvy => Pixel::Yuv {
            y: d[2 * i + 1] as u16,
            cb: d[2 * pair] as u16,
            cr: d[2 * pair + 2] as u16,
            alpha: 255,
        },
        VideoFormat::Uyva => Pixel::Yuv {
            y: d[2 * i + 1] as u16,
            cb: d[2 * pair] as u16,
            cr: d[2 * pair + 2] as u16,
            alpha: d[2 * size + i] as u16,
        },
        VideoFormat::P216 => Pixel::Yuv {
            y: read_word10(d, 2 * i),
            cb: read_word10(d, 2 * size + 2 * pair),
            cr: read_word10(d, 2 * size + 2 * pair + 2),
            alpha: 1023,
        },
        VideoFormat::Pa16 => Pixel::Yuv {
            y: read_word10(d, 2 * i),
            cb: read_word10(d, 2 * size + 2 * pair),
            cr: read_word10(d, 2 * size + 2 * pair + 2),
            alpha: read_word10(d, 4 * size + 2 * i),
        },
        VideoFormat::Bgra => Pixel::Rgb {
            r: d[4 * i + 2] as u16,
            g: d[4 * i + 1] as u16,
            b: d[4 * i] as u16,
            alpha: d[4 * i + 3] as u16,
        },
    }
}

} // verus!
