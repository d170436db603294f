//! Test pattern generation (8-bit UYVY or 10-bit P216) and snapshot files
//! (8-bit BMP, or 8/16-bit PNG).

use crate::wire::{le16, le32, put_u16, put_u32};
use vstd::prelude::*;

verus! {

broadcast use crate::wire::group_le_len;

// ---------------------------------------------------------------------------
// Test pattern
// ---------------------------------------------------------------------------

/// 75% colour bars, BT.709 limited range, 10-bit, as (Y, Cb, Cr): white,
/// yellow, cyan, green, magenta, red, blue, black.
pub open spec fn bar(i: int) -> (u16, u16, u16) {
    if i == 0 {
        (720u16, 512u16, 512u16)
    } else if i == 1 {
        (672u16, 176u16, 544u16)
    } else if i == 2 {
        (580u16, 588u16, 176u16)
    } else if i == 3 {
        (532u16, 252u16, 208u16)
    } else if i == 4 {
        (252u16, 772u16, 816u16)
    } else if i == 5 {
        (204u16, 436u16, 848u16)
    } else if i == 6 {
        (112u16, 848u16, 480u16)
    } else {
        (64u16, 512u16, 512u16)
    }
}

/// One of the colour bars.
fn colour_bar(i: usize) -> (r: (u16, u16, u16))
    ensures
        r == bar(i as int),
        r.0 <= 1023,
        r.1 <= 1023,
        r.2 <= 1023,
{
    match i {
        0 => (720, 512, 512),
        1 => (672, 176, 544),
        2 => (580, 588, 176),
        3 => (532, 252, 208),
        4 => (252, 772, 816),
        5 => (204, 436, 848),
        6 => (112, 848, 480),
        _ => (64, 512, 512),
    }
}

/// The width of the box: a twelfth of the picture, even, at least 2.
pub open spec fn box_width(w: int) -> int {
    if w / 12 < 2 {
        2
    } else {
        w / 12 - w / 12 % 2
    }
}

/// The height of the box: a sixth of the picture, at least 2.
pub open spec fn box_height(h: int) -> int {
    if h / 6 < 2 {
        2
    } else {
        h / 6
    }
}

/// The 10-bit (Y, Cb, Cr) of the pixel pair at `x` in row `y`: colour bars, a
/// grey ramp in the lower third, and a box that starts at column `x0`, white
/// while it flashes and black otherwise. The ramp runs over all 877 10-bit
/// levels, so an 8-bit path shows banding that a 10-bit one does not.
pub open spec fn pattern(w: int, h: int, x: int, y: int, flash: bool, x0: int) -> (u16, u16, u16) {
    let y0 = h * 3 / 4 - box_height(h) / 2;
    if y0 <= y < y0 + box_height(h) && x0 <= x < x0 + box_width(w) {
        if flash {
            (940u16, 512u16, 512u16)
        } else {
            (64u16, 512u16, 512u16)
        }
    } else if y < h * 2 / 3 {
        bar(x * 8 / w)
    } else {
        ((64 + x * 876 / w) as u16, 512u16, 512u16)
    }
}

/// The sizes that the pattern can be drawn in: an even width, since pixels
/// come in pairs, and at least two rows for the box.
pub open spec fn drawable(w: int, h: int) -> bool {
    &&& w % 2 == 0
    &&& w >= 2
    &&& h != 1
    &&& w * 876 <= usize::MAX
    &&& h * 3 <= usize::MAX
}

/// What a row of bytes holds.
#[derive(Clone, Copy, PartialEq, Eq, Structural)]
pub enum Layout {
    /// 8-bit U, Y, V, Y.
    Uyvy,
    /// 16-bit little-endian luma, 10 significant bits at the top.
    Luma16,
    /// 16-bit little-endian U and V, 10 significant bits at the top.
    Chroma16,
}

/// The four bytes of a pixel pair.
pub open spec fn pair_bytes(layout: Layout, p: (u16, u16, u16)) -> Seq<u8> {
    match layout {
        Layout::Uyvy => seq![(p.1 / 4) as u8, (p.0 / 4) as u8, (p.2 / 4) as u8, (p.0 / 4) as u8],
        Layout::Luma16 => le16(p.0 * 64) + le16(p.0 * 64),
        Layout::Chroma16 => le16(p.1 * 64) + le16(p.2 * 64),
    }
}

/// The first `n` pixel pairs of a row of the pattern.
pub open spec fn row_pairs(layout: Layout, w: int, h: int, y: int, flash: bool, x0: int, n: int) -> Seq<u8>
    decreases n,
{
    if n <= 0 {
        Seq::empty()
    } else {
        row_pairs(layout, w, h, y, flash, x0, n - 1) + pair_bytes(
            layout,
            pattern(w, h, 2 * (n - 1), y, flash, x0),
        )
    }
}

/// The first `n` rows of the pattern, tightly packed.
pub open spec fn pattern_rows(layout: Layout, w: int, h: int, flash: bool, x0: int, n: int) -> Seq<u8>
    decreases n,
{
    if n <= 0 {
        Seq::empty()
    } else {
        pattern_rows(layout, w, h, flash, x0, n - 1) + row_pairs(layout, w, h, n - 1, flash, x0, w / 2)
    }
}

/// A pixel pair of the pattern.
fn pattern_pair(w: usize, h: usize, x: usize, y: usize, flash: bool, x0: usize) -> (r: (u16, u16, u16))
    requires
        drawable(w as int, h as int),
        x < w,
        y < h,
        x0 <= w,
    ensures
        r == pattern(w as int, h as int, x as int, y as int, flash, x0 as int),
        r.0 <= 1023,
        r.1 <= 1023,
        r.2 <= 1023,
{
    let twelfth: usize = w / 12;
    let box_w: usize = if twelfth < 2 {
        2
    } else {
        twelfth - twelfth % 2
    };
    let sixth: usize = h / 6;
    let box_h: usize = if sixth < 2 {
        2
    } else {
        sixth
    };
    let y0: usize = h * 3 / 4 - box_h / 2;
    if y >= y0 && y - y0 < box_h && x >= x0 && x - x0 < box_w {
        if flash {
            (940, 512, 512)
        } else {
            (64, 512, 512)
        }
    } else if y < h * 2 / 3 {
        colour_bar(x * 8 / w)
    } else {
        assert(0 <= x * 876 / (w as int) < 876) by (nonlinear_arith)
            requires
                0 <= x < w,
        ;
        ((64 + x * 876 / w) as u16, 512, 512)
    }
}

/// Appends a pixel pair.
fn push_pair(out: &mut Vec<u8>, layout: Layout, p: (u16, u16, u16))
    requires
        p.0 <= 1023,
        p.1 <= 1023,
        p.2 <= 1023,
    ensures
        final(out)@ == old(out)@ + pair_bytes(layout, p),
{
    match layout {
        Layout::Uyvy => {
            out.push((p.1 / 4) as u8);
            out.push((p.0 / 4) as u8);
            out.push((p.2 / 4) as u8);
            out.push((p.0 / 4) as u8);
        },
        Layout::Luma16 => {
            put_u16(out, p.0 * 64);
            put_u16(out, p.0 * 64);
        },
        Layout::Chroma16 => {
            put_u16(out, p.1 * 64);
            put_u16(out, p.2 * 64);
        },
    }
    assert(out@ =~= old(out)@ + pair_bytes(layout, p));
}

/// Appends a row of the pattern.
fn push_row(out: &mut Vec<u8>, layout: Layout, w: usize, h: usize, y: usize, flash: bool, x0: usize)
    requires
        drawable(w as int, h as int),
        y < h,
        x0 <= w,
    ensures
        final(out)@ == old(out)@ + row_pairs(layout, w as int, h as int, y as int, flash, x0 as int, w as int / 2),
{
    let mut n: usize = 0;
    assert(old(out)@ + Seq::<u8>::empty() =~= old(out)@);
    while n < w / 2
        invariant
            n <= w / 2,
            drawable(w as int, h as int),
            y < h,
            x0 <= w,
            out@ == old(out)@ + row_pairs(layout, w as int, h as int, y as int, flash, x0 as int, n as int),
        decreases w / 2 - n,
    {
        let p: (u16, u16, u16) = pattern_pair(w, h, 2 * n, y, flash, x0);
        push_pair(out, layout, p);
        n = n + 1;
        assert(out@ =~= old(out)@ + row_pairs(layout, w as int, h as int, y as int, flash, x0 as int, n as int));
    }
}

/// The whole pattern.
fn pattern_bytes(layout: Layout, w: usize, h: usize, flash: bool, x0: usize) -> (r: Vec<u8>)
    requires
        drawable(w as int, h as int),
        x0 <= w,
    ensures
        r@ == pattern_rows(layout, w as int, h as int, flash, x0 as int, h as int),
{
    let mut out: Vec<u8> = Vec::new();
    let mut y: usize = 0;
    while y < h
        invariant
            y <= h,
            drawable(w as int, h as int),
            x0 <= w,
            out@ == pattern_rows(layout, w as int, h as int, flash, x0 as int, y as int),
        decreases h - y,
    {
        push_row(&mut out, layout, w, h, y, flash, x0);
        y = y + 1;
    }
    out
}

/// The length of some pixel pairs.
pub proof fn lemma_row_len(layout: Layout, w: int, h: int, y: int, flash: bool, x0: int, n: int)
    requires
        n >= 0,
    ensures
        row_pairs(layout, w, h, y, flash, x0, n).len() == 4 * n,
    decreases n,
{
    if n > 0 {
        lemma_row_len(layout, w, h, y, flash, x0, n - 1);
    }
}

/// The pattern fills its picture: two bytes for each pixel, row by row.
pub proof fn law_pattern_fills_the_picture(layout: Layout, w: int, h: int, flash: bool, x0: int, n: int)
    requires
        drawable(w, h),
        n >= 0,
    ensures
        pattern_rows(layout, w, h, flash, x0, n).len() == 2 * w * n,
    decreases n,
{
    if n > 0 {
        law_pattern_fills_the_picture(layout, w, h, flash, x0, n - 1);
        lemma_row_len(layout, w, h, n - 1, flash, x0, w / 2);
        assert(2 * w * (n - 1) + 2 * w == 2 * w * n) by (nonlinear_arith);
    } else {
        assert(2 * w * 0 == 0) by (nonlinear_arith);
    }
}

/// Writes bytes over the start of a buffer.
fn overwrite(buf: &mut Vec<u8>, bytes: &Vec<u8>)
    requires
        bytes@.len() <= old(buf)@.len(),
    ensures
        final(buf)@ == bytes@ + old(buf)@.skip(bytes@.len() as int),
{
    let mut i: usize = 0;
    while i < bytes.len()
        invariant
            i <= bytes@.len() <= buf@.len(),
            buf@ == bytes@.take(i as int) + old(buf)@.skip(i as int),
            buf@.len() == old(buf)@.len(),
        decreases bytes@.len() - i,
    {
        let ghost before = buf@;
        buf.set(i, bytes[i]);
        i = i + 1;
        assert(buf@ =~= bytes@.take(i as int) + old(buf)@.skip(i as int));
    }
    assert(bytes@.take(i as int) =~= bytes@);
}

/// Fills a tightly packed 8-bit UYVY buffer with the test pattern, with the
/// box at column `x0`.
pub fn fill_test_pattern(buf: &mut Vec<u8>, w: usize, h: usize, flash: bool, x0: usize)
    requires
        drawable(w as int, h as int),
        x0 <= w,
        2 * w * h <= old(buf)@.len(),
    ensures
        final(buf)@ == pattern_rows(Layout::Uyvy, w as int, h as int, flash, x0 as int, h as int) + old(
            buf,
        )@.skip(2 * w * h),
{
    let bytes: Vec<u8> = pattern_bytes(Layout::Uyvy, w, h, flash, x0);
    proof {
        law_pattern_fills_the_picture(Layout::Uyvy, w as int, h as int, flash, x0 as int, h as int);
    }
    overwrite(buf, &bytes);
}

/// Fills tightly packed P216 planes with the test pattern, with the box at
/// column `x0`.
pub fn fill_test_pattern_p216(
    luma: &mut Vec<u8>,
    chroma: &mut Vec<u8>,
    w: usize,
    h: usize,
    flash: bool,
    x0: usize,
)
    requires
        drawable(w as int, h as int),
        x0 <= w,
        2 * w * h <= old(luma)@.len(),
        2 * w * h <= old(chroma)@.len(),
    ensures
        final(luma)@ == pattern_rows(Layout::Luma16, w as int, h as int, flash, x0 as int, h as int) + old(
            luma,
        )@.skip(2 * w * h),
        final(chroma)@ == pattern_rows(Layout::Chroma16, w as int, h as int, flash, x0 as int, h as int)
            + old(chroma)@.skip(2 * w * h),
{
    proof {
        law_pattern_fills_the_picture(Layout::Luma16, w as int, h as int, flash, x0 as int, h as int);
        law_pattern_fills_the_picture(Layout::Chroma16, w as int, h as int, flash, x0 as int, h as int);
    }
    let bytes: Vec<u8> = pattern_bytes(Layout::Luma16, w, h, flash, x0);
    overwrite(luma, &bytes);
    let bytes: Vec<u8> = pattern_bytes(Layout::Chroma16, w, h, flash, x0);
    overwrite(chroma, &bytes);
}

// ---------------------------------------------------------------------------
// Snapshots
// ---------------------------------------------------------------------------

/// A picture in RGB(A), row by row from the top.
#[derive(Clone, Debug)]
pub struct Rgb {
    /// Width in pixels.
    pub width: usize,
    /// Height in pixels.
    pub height: usize,
    /// 4 samples per pixel instead of 3.
    pub alpha: bool,
    /// 16 bits per sample instead of 8.
    pub high_bit_depth: bool,
    /// Red, green, blue and alpha of each pixel.
    pub samples: Vec<u16>,
}

impl Rgb {
    /// Samples per pixel.
    pub open spec fn channels(self) -> int {
        if self.alpha {
            4
        } else {
            3
        }
    }

    /// Every pixel has its samples, and they fit the depth.
    pub open spec fn wf(self) -> bool {
        &&& self.samples@.len() == self.width * self.height * self.channels()
        &&& !self.high_bit_depth ==> forall|i: int|
            0 <= i < self.samples@.len() ==> #[trigger] self.samples@[i] <= 255
    }
}

/// The length of a row in a BMP file: a multiple of four.
pub open spec fn bmp_row_len(w: int) -> int {
    (w * 3 + 3) / 4 * 4
}

/// `n` zero bytes.
pub open spec fn zeros(n: int) -> Seq<u8> {
    Seq::new(n as nat, |i: int| 0u8)
}

/// The header of a 24-bit bottom-up BMP file.
pub open spec fn bmp_header(w: int, h: int) -> Seq<u8> {
    seq![66u8, 77u8] + le32((54 + bmp_row_len(w) * h) % 0x1_0000_0000) + zeros(4) + le32(54) + le32(40) + le32(
        w % 0x1_0000_0000,
    ) + le32(h % 0x1_0000_0000) + le16(1) + le16(24) + zeros(24)
}

/// The first `n` pixels of a row in a BMP file: blue, green, red.
pub open spec fn bmp_pixels(img: Rgb, y: int, n: int) -> Seq<u8>
    decreases n,
{
    if n <= 0 {
        Seq::empty()
    } else {
        let p = (y * img.width + n - 1) * img.channels();
        bmp_pixels(img, y, n - 1) + seq![
            img.samples@[p + 2] as u8,
            img.samples@[p + 1] as u8,
            img.samples@[p] as u8,
        ]
    }
}

/// The last `n` rows of a picture as a BMP file holds them: the lowest first,
/// each filled up with zeros.
pub open spec fn bmp_rows(img: Rgb, n: int) -> Seq<u8>
    decreases n,
{
    if n <= 0 {
        Seq::empty()
    } else {
        bmp_rows(img, n - 1) + bmp_pixels(img, img.height - n, img.width as int) + zeros(
            bmp_row_len(img.width as int) - 3 * img.width,
        )
    }
}

/// Appends zero bytes.
fn push_zeros(out: &mut Vec<u8>, n: usize)
    ensures
        final(out)@ == old(out)@ + zeros(n as int),
{
    let mut i: usize = 0;
    assert(old(out)@ + zeros(0) =~= old(out)@);
    while i < n
        invariant
            i <= n,
            out@ == old(out)@ + zeros(i as int),
        decreases n - i,
    {
        out.push(0);
        i = i + 1;
        assert(out@ =~= old(out)@ + zeros(i as int));
    }
}

/// A pixel is inside its picture.
proof fn lemma_pixel(w: int, h: int, n: int, x: int, y: int)
    requires
        0 <= x < w,
        0 <= y < h,
        n == 3 || n == 4,
    ensures
        0 <= (y * w + x) * n,
        (y * w + x) * n + n <= w * h * n,
        0 <= y * w + x < w * h,
{
    assert(0 <= y * w <= (h - 1) * w) by (nonlinear_arith)
        requires
            0 <= y <= h - 1,
            0 < w,
    ;
    assert((h - 1) * w + w == w * h) by (nonlinear_arith);
}

/// Appends the pixels of a row.
fn push_bmp_pixels(out: &mut Vec<u8>, img: &Rgb, y: usize)
    requires
        img.wf(),
        !img.high_bit_depth,
        y < img.height,
    ensures
        final(out)@ == old(out)@ + bmp_pixels(*img, y as int, img.width as int),
{
    let n: usize = if img.alpha {
        4
    } else {
        3
    };
    let mut x: usize = 0;
    assert(old(out)@ + Seq::<u8>::empty() =~= old(out)@);
    while x < img.width
        invariant
            x <= img.width,
            img.wf(),
            !img.high_bit_depth,
            y < img.height,
            n == img.channels(),
            out@ == old(out)@ + bmp_pixels(*img, y as int, x as int),
        decreases img.width - x,
    {
        proof {
            lemma_pixel(img.width as int, img.height as int, n as int, x as int, y as int);
            lemma_pixel(img.width as int, img.height as int, n as int, 0, y as int);
            assert((y * img.width + x) * n <= img.samples@.len());
        }
        let len: usize = img.samples.len();
        assert(y * img.width + x <= len) by (nonlinear_arith)
            requires
                (y * img.width + x) * n <= len,
                n >= 1,
                0 <= y * img.width + x,
        ;
        let at: usize = y * img.width + x;
        let p: usize = at * n;
        assert(img.samples@[p as int] <= 255);
        assert(img.samples@[p + 1] <= 255);
        assert(img.samples@[p + 2] <= 255);
        out.push(img.samples[p + 2] as u8);
        out.push(img.samples[p + 1] as u8);
        out.push(img.samples[p] as u8);
        x = x + 1;
        assert(out@ =~= old(out)@ + bmp_pixels(*img, y as int, x as int));
    }
}

/// A 24-bit BMP file of an 8-bit picture. Alpha, if any, is dropped.
pub fn write_bmp(img: &Rgb) -> (r: Vec<u8>)
    requires
        img.wf(),
        !img.high_bit_depth,
        54 + bmp_row_len(img.width as int) * img.height <= usize::MAX,
        img.width * 3 + 3 <= usize::MAX,
    ensures
        r@ == bmp_header(img.width as int, img.height as int) + bmp_rows(*img, img.height as int),
{
    let w: usize = img.width;
    let h: usize = img.height;
    let row_len: usize = (w * 3 + 3) / 4 * 4;
    let size: usize = 54 + row_len * h;
    let mut out: Vec<u8> = Vec::new();
    out.push(66);
    out.push(77);
    put_u32(&mut out, (size as u64 % 0x1_0000_0000) as u32);
    push_zeros(&mut out, 4);
    put_u32(&mut out, 54);
    put_u32(&mut out, 40);
    put_u32(&mut out, (w as u64 % 0x1_0000_0000) as u32);
    put_u32(&mut out, (h as u64 % 0x1_0000_0000) as u32);
    put_u16(&mut out, 1);
    put_u16(&mut out, 24);
    push_zeros(&mut out, 24);
    assert(out@ =~= bmp_header(w as int, h as int));
    let mut n: usize = 0;
    assert(out@ + Seq::<u8>::empty() =~= out@);
    while n < h
        invariant
            n <= h,
            img.wf(),
            !img.high_bit_depth,
            w == img.width,
            h == img.height,
            row_len == bmp_row_len(w as int),
            w * 3 + 3 <= usize::MAX,
            out@ == bmp_header(w as int, h as int) + bmp_rows(*img, n as int),
        decreases h - n,
    {
        push_bmp_pixels(&mut out, img, h - n - 1);
        push_zeros(&mut out, row_len - w * 3);
        n = n + 1;
        assert(out@ =~= bmp_header(w as int, h as int) + bmp_rows(*img, n as int));
    }
    out
}

/// A PNG file of these samples, or why there can be none.
pub uninterp spec fn png_file(
    width: u32,
    height: u32,
    alpha: bool,
    sixteen: bool,
    data: Seq<u8>,
) -> Result<Seq<u8>, Seq<char>>;

/// The `png` crate's `Encoder`, writing into memory: RGB or RGBA, 8 or 16 bits
/// per sample, with one image and the encoder's own compression. The file
/// depends on the arguments alone; there is none for a picture without pixels.
/// The words of an error are those of `EncodingError`.
#[verifier::external_body]
fn encode_png(width: u32, height: u32, alpha: bool, sixteen: bool, data: &[u8]) -> (r: Result<
    Vec<u8>,
    String,
>)
    requires
        data@.len() == width * height * (if alpha {
            4int
        } else {
            3
        }) * (if sixteen {
            2int
        } else {
            1
        }),
    ensures
        match r {
            Ok(v) => png_file(width, height, alpha, sixteen, data@) == Ok::<Seq<u8>, Seq<char>>(v@),
            Err(e) => png_file(width, height, alpha, sixteen, data@) == Err::<Seq<u8>, Seq<char>>(e@),
        },
        width == 0 || height == 0 ==> r is Err,
{
    let mut out: Vec<u8> = Vec::new();
    let mut enc = png::Encoder::new(&mut out, width, height);
    enc.set_color(if alpha { png::ColorType::Rgba } else { png::ColorType::Rgb });
    enc.set_depth(if sixteen { png::BitDepth::Sixteen } else { png::BitDepth::Eight });
    let mut writer = enc.write_header().map_err(|e| e.to_string())?;
    writer.write_image_data(data).map_err(|e| e.to_string())?;
    writer.finish().map_err(|e| e.to_string())?;
    Ok(out)
}

/// The samples as a PNG file takes them: one byte each, or two, the high one
/// first.
pub open spec fn png_samples(samples: Seq<u16>, sixteen: bool) -> Seq<u8>
    decreases samples.len(),
{
    if samples.len() == 0 {
        Seq::empty()
    } else if sixteen {
        png_samples(samples.drop_last(), sixteen) + seq![
            (samples.last() / 256) as u8,
            (samples.last() % 256) as u8,
        ]
    } else {
        png_samples(samples.drop_last(), sixteen).push((samples.last() % 256) as u8)
    }
}

/// The samples of a picture as a PNG file takes them.
pub fn png_data(samples: &[u16], sixteen: bool) -> (r: Vec<u8>)
    ensures
        r@ == png_samples(samples@, sixteen),
        r@.len() == samples@.len() * (if sixteen {
            2int
        } else {
            1
        }),
{
    let mut out: Vec<u8> = Vec::new();
    let mut i: usize = 0;
    assert(samples@.take(0) =~= Seq::empty());
    while i < samples.len()
        invariant
            i <= samples@.len(),
            out@ == png_samples(samples@.take(i as int), sixteen),
            out@.len() == i * (if sixteen {
                2int
            } else {
                1
            }),
        decreases samples@.len() - i,
    {
        assert(samples@.take(i + 1).drop_last() =~= samples@.take(i as int));
        let s: u16 = samples[i];
        if sixteen {
            out.push((s / 256) as u8);
        }
        out.push((s % 256) as u8);
        i = i + 1;
        assert(out@ =~= png_samples(samples@.take(i as int), sixteen));
    }
    assert(samples@.take(i as int) =~= samples@);
    out
}

/// A PNG file: 16 bits per sample for high-bit-depth pictures, else 8; RGBA
/// when the picture has alpha. The error is what the encoder says.
pub fn write_png(img: &Rgb) -> (r: Result<Vec<u8>, String>)
    requires
        img.wf(),
        img.width <= u32::MAX,
        img.height <= u32::MAX,
    ensures
        match r {
            Ok(v) => png_file(
                img.width as u32,
                img.height as u32,
                img.alpha,
                img.high_bit_depth,
                png_samples(img.samples@, img.high_bit_depth),
            ) == Ok::<Seq<u8>, Seq<char>>(v@),
            Err(e) => png_file(
                img.width as u32,
                img.height as u32,
                img.alpha,
                img.high_bit_depth,
                png_samples(img.samples@, img.high_bit_depth),
            ) == Err::<Seq<u8>, Seq<char>>(e@),
        },
        img.width == 0 || img.height == 0 ==> r is Err,
{
    let data: Vec<u8> = png_data(img.samples.as_slice(), img.high_bit_depth);
    encode_png(img.width as u32, img.height as u32, img.alpha, img.high_bit_depth, data.as_slice())
}

} // verus!
