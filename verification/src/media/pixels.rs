//! Packing planar pictures.

use crate::vmx::frame::{plane_holds, Frame, PixelFormat, Plane};
use crate::vmx::lanes::{adds, diff16, down16, high16, mulhi, srai16, subs, sum16};
use vstd::prelude::*;

verus! {

/// YUV to RGB constants of BT.709: Y, R from V, G from U, G from V, B from U.
pub const YUV_RGB_709: [i16; 5] = [19077, 29372, 3494, 8731, 17305];

/// The same of BT.601.
pub const YUV_RGB_601: [i16; 5] = [19077, 26149, 6419, 13320, 16525];

/// A colour channel from its sum in sixteenths: rounded and cut to a byte.
pub open spec fn channel_of(c: int) -> int {
    let v = down16(sum16(c, 8), 4);
    if v < 0 {
        0
    } else if v > 255 {
        255
    } else {
        v
    }
}

/// One pixel as B, G, R, A, in 16-bit saturating arithmetic.
pub open spec fn bgra_of(y: u8, u: u8, v: u8, a: u8, t: Seq<i16>) -> Seq<u8> {
    let luma = high16(
        if y < 16 {
            0
        } else {
            (y - 16) * 64
        },
        t[0] as int,
    );
    let (du, dv) = (u - 128, v - 128);
    let r = sum16(high16(dv * 64, t[1] as int), luma);
    let b = sum16(high16(du * 128, t[4] as int), luma);
    let g = diff16(diff16(luma, high16(du * 64, t[2] as int)), high16(dv * 64, t[3] as int));
    seq![channel_of(b) as u8, channel_of(g) as u8, channel_of(r) as u8, a]
}

/// A colour channel.
fn channel(c: i16) -> (r: u8)
    ensures
        r == channel_of(c as int),
{
    let v: i16 = srai16(adds(c, 8), 4);
    if v < 0 {
        0
    } else if v > 255 {
        255
    } else {
        v as u8
    }
}

/// Converts one pixel.
pub fn yuv_to_bgra(y: u8, u: u8, v: u8, a: u8, t: &[i16; 5]) -> (r: [u8; 4])
    ensures
        r@ == bgra_of(y, u, v, a, t@),
{
    let luma: i16 = mulhi(
        if y < 16 {
            0
        } else {
            (y as i16 - 16) * 64
        },
        t[0],
    );
    let (du, dv): (i16, i16) = (u as i16 - 128, v as i16 - 128);
    let r: i16 = adds(mulhi(dv * 64, t[1]), luma);
    let b: i16 = adds(mulhi(du * 128, t[4]), luma);
    let g: i16 = subs(subs(luma, mulhi(du * 64, t[2])), mulhi(dv * 64, t[3]));
    let px: [u8; 4] = [channel(b), channel(g), channel(r), a];
    assert(px@ =~= bgra_of(y, u, v, a, t@));
    px
}

/// A byte of a plane.
pub open spec fn plane_at(p: Plane, r: int, x: int) -> u8 {
    p.data@[r * p.stride + x]
}

/// The planes of a planar picture have room for its rows.
pub open spec fn planar(f: Frame) -> bool {
    &&& f.width % 2 == 0
    &&& f.valid()
    &&& f.format == PixelFormat::Yuv422p || f.format == PixelFormat::Yuva422p
}

/// A pixel of a planar picture. Without an alpha plane, alpha is 255.
pub open spec fn bgra_at(f: Frame, t: Seq<i16>, r: int, x: int) -> Seq<u8> {
    bgra_of(
        plane_at(f.planes@[0], r, x),
        plane_at(f.planes@[1], r, x / 2),
        plane_at(f.planes@[2], r, x / 2),
        if f.format == PixelFormat::Yuva422p {
            plane_at(f.planes@[3], r, x)
        } else {
            255
        },
        t,
    )
}

/// The first `n` pixels of a row.
pub open spec fn bgra_row(f: Frame, t: Seq<i16>, r: int, n: int) -> Seq<u8>
    decreases n,
{
    if n <= 0 {
        Seq::empty()
    } else {
        bgra_row(f, t, r, n - 1) + bgra_at(f, t, r, n - 1)
    }
}

/// The first `n` rows of a picture.
pub open spec fn bgra_rows(f: Frame, t: Seq<i16>, n: int) -> Seq<u8>
    decreases n,
{
    if n <= 0 {
        Seq::empty()
    } else {
        bgra_rows(f, t, n - 1) + bgra_row(f, t, n - 1, f.width as int)
    }
}

/// The first `n` pairs of pixels of a row as U, Y, V, Y.
pub open spec fn uyvy_row(f: Frame, r: int, n: int) -> Seq<u8>
    decreases n,
{
    if n <= 0 {
        Seq::empty()
    } else {
        uyvy_row(f, r, n - 1) + seq![
            plane_at(f.planes@[1], r, n - 1),
            plane_at(f.planes@[0], r, 2 * (n - 1)),
            plane_at(f.planes@[2], r, n - 1),
            plane_at(f.planes@[0], r, 2 * (n - 1) + 1),
        ]
    }
}

/// The first `n` rows of a picture as U, Y, V, Y.
pub open spec fn uyvy_rows(f: Frame, n: int) -> Seq<u8>
    decreases n,
{
    if n <= 0 {
        Seq::empty()
    } else {
        uyvy_rows(f, n - 1) + uyvy_row(f, n - 1, f.width as int / 2)
    }
}

/// The first `n` rows of a plane, `w` bytes each.
pub open spec fn plane_rows(p: Plane, w: int, n: int) -> Seq<u8>
    decreases n,
{
    if n <= 0 {
        Seq::empty()
    } else {
        plane_rows(p, w, n - 1) + p.data@.subrange((n - 1) * p.stride, (n - 1) * p.stride + w)
    }
}

/// Where a row of a plane stands.
pub proof fn lemma_row_fits(p: Plane, size: (int, int), r: int)
    requires
        plane_holds(p, size),
        0 <= r < size.1,
        size.0 >= 0,
    ensures
        0 <= r * p.stride,
        r * p.stride + size.0 <= p.data@.len(),
{
    assert(0 <= r * p.stride <= p.stride * (size.1 - 1)) by (nonlinear_arith)
        requires
            0 <= r <= size.1 - 1,
            0 <= p.stride,
    ;
}

/// Reads a byte of a plane.
fn byte_at(p: &Plane, r: usize, x: usize, Ghost(size): Ghost<(int, int)>) -> (b: u8)
    requires
        plane_holds(*p, size),
        r < size.1,
        x < size.0,
    ensures
        b == plane_at(*p, r as int, x as int),
{
    proof {
        lemma_row_fits(*p, size, r as int);
    }
    let n: usize = p.data.len();
    assert(r * p.stride + x < n);
    p.data[r * p.stride + x]
}

/// Appends one row as B, G, R, A.
fn push_bgra_row(f: &Frame, t: &[i16; 5], r: usize, out: &mut Vec<u8>)
    requires
        planar(*f),
        r < f.height,
    ensures
        final(out)@ == old(out)@ + bgra_row(*f, t@, r as int, f.width as int),
{
    let ghost sizes = f.sizes();
    proof {
        assert(plane_holds(f.planes@[0], sizes[0]));
        assert(plane_holds(f.planes@[1], sizes[1]));
        assert(plane_holds(f.planes@[2], sizes[2]));
        if f.format == PixelFormat::Yuva422p {
            assert(plane_holds(f.planes@[3], sizes[3]));
        }
    }
    let mut x: usize = 0;
    assert(out@ =~= old(out)@ + bgra_row(*f, t@, r as int, 0));
    while x < f.width
        invariant
            x <= f.width,
            r < f.height,
            f.width % 2 == 0,
            f.format == PixelFormat::Yuv422p || f.format == PixelFormat::Yuva422p,
            sizes == f.sizes(),
            f.planes@.len() == sizes.len(),
            plane_holds(f.planes@[0], sizes[0]),
            plane_holds(f.planes@[1], sizes[1]),
            plane_holds(f.planes@[2], sizes[2]),
            f.format == PixelFormat::Yuva422p ==> plane_holds(f.planes@[3], sizes[3]),
            out@ == old(out)@ + bgra_row(*f, t@, r as int, x as int),
        decreases f.width - x,
    {
        let y: u8 = byte_at(&f.planes[0], r, x, Ghost(sizes[0]));
        let u: u8 = byte_at(&f.planes[1], r, x / 2, Ghost(sizes[1]));
        let v: u8 = byte_at(&f.planes[2], r, x / 2, Ghost(sizes[2]));
        let a: u8 = match f.format {
            PixelFormat::Yuva422p => byte_at(&f.planes[3], r, x, Ghost(sizes[3])),
            _ => 255,
        };
        let px: [u8; 4] = yuv_to_bgra(y, u, v, a, t);
        out.extend_from_slice(px.as_slice());
        assert(out@ =~= old(out)@ + bgra_row(*f, t@, r as int, x + 1));
        x = x + 1;
    }
}

/// Converts a planar picture to packed BGRA, appending to `out`.
pub fn to_bgra(f: &Frame, t: &[i16; 5], out: &mut Vec<u8>)
    requires
        planar(*f),
    ensures
        final(out)@ == old(out)@ + bgra_rows(*f, t@, f.height as int),
{
    let mut r: usize = 0;
    assert(out@ =~= old(out)@ + bgra_rows(*f, t@, 0));
    while r < f.height
        invariant
            r <= f.height,
            planar(*f),
            out@ == old(out)@ + bgra_rows(*f, t@, r as int),
        decreases f.height - r,
    {
        push_bgra_row(f, t, r, out);
        assert(out@ =~= old(out)@ + bgra_rows(*f, t@, r + 1));
        r = r + 1;
    }
}

/// Appends one row as U, Y, V, Y.
fn push_uyvy_row(f: &Frame, r: usize, out: &mut Vec<u8>)
    requires
        planar(*f),
        r < f.height,
    ensures
        final(out)@ == old(out)@ + uyvy_row(*f, r as int, f.width as int / 2),
{
    let ghost sizes = f.sizes();
    proof {
        assert(plane_holds(f.planes@[0], sizes[0]));
        assert(plane_holds(f.planes@[1], sizes[1]));
        assert(plane_holds(f.planes@[2], sizes[2]));
    }
    let mut i: usize = 0;
    assert(out@ =~= old(out)@ + uyvy_row(*f, r as int, 0));
    while i < f.width / 2
        invariant
            i <= f.width / 2,
            r < f.height,
            f.width % 2 == 0,
            f.format == PixelFormat::Yuv422p || f.format == PixelFormat::Yuva422p,
            sizes == f.sizes(),
            f.planes@.len() == sizes.len(),
            plane_holds(f.planes@[0], sizes[0]),
            plane_holds(f.planes@[1], sizes[1]),
            plane_holds(f.planes@[2], sizes[2]),
            out@ == old(out)@ + uyvy_row(*f, r as int, i as int),
        decreases f.width / 2 - i,
    {
        out.push(byte_at(&f.planes[1], r, i, Ghost(sizes[1])));
        out.push(byte_at(&f.planes[0], r, 2 * i, Ghost(sizes[0])));
        out.push(byte_at(&f.planes[2], r, i, Ghost(sizes[2])));
        out.push(byte_at(&f.planes[0], r, 2 * i + 1, Ghost(sizes[0])));
        assert(out@ =~= old(out)@ + uyvy_row(*f, r as int, i + 1));
        i = i + 1;
    }
}

/// Packs a planar picture as UYVY, appending to `out`.
pub fn pack_uyvy(f: &Frame, out: &mut Vec<u8>)
    requires
        planar(*f),
    ensures
        final(out)@ == old(out)@ + uyvy_rows(*f, f.height as int),
{
    let mut r: usize = 0;
    assert(out@ =~= old(out)@ + uyvy_rows(*f, 0));
    while r < f.height
        invariant
            r <= f.height,
            planar(*f),
            out@ == old(out)@ + uyvy_rows(*f, r as int),
        decreases f.height - r,
    {
        push_uyvy_row(f, r, out);
        assert(out@ =~= old(out)@ + uyvy_rows(*f, r + 1));
        r = r + 1;
    }
}

/// Appends the rows of a plane.
pub fn copy_plane(p: &Plane, w: usize, h: usize, out: &mut Vec<u8>)
    requires
        plane_holds(*p, (w as int, h as int)),
    ensures
        final(out)@ == old(out)@ + plane_rows(*p, w as int, h as int),
{
    let mut r: usize = 0;
    let n: usize = p.data.len();
    assert(out@ =~= old(out)@ + plane_rows(*p, w as int, 0));
    while r < h
        invariant
            r <= h,
            n == p.data@.len(),
            plane_holds(*p, (w as int, h as int)),
            out@ == old(out)@ + plane_rows(*p, w as int, r as int),
        decreases h - r,
    {
        proof {
            lemma_row_fits(*p, (w as int, h as int), r as int);
        }
        assert(r * p.stride + w <= n);
        let row: &[u8] = vstd::slice::slice_subrange(p.data.as_slice(), r * p.stride, r * p.stride + w);
        out.extend_from_slice(row);
        assert(out@ =~= old(out)@ + plane_rows(*p, w as int, r + 1));
        r = r + 1;
    }
}

} // verus!
