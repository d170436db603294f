//! Uncompressed frames and their memory layouts.

use super::error::Error;
use vstd::prelude::*;

verus! {

/// Memory layout of an uncompressed frame.
///
/// All 16-bit formats store little-endian samples with the 10 significant
/// bits in the most significant position (`value << 6`). The low 6 bits are
/// ignored by the encoder and written as zero by the decoder.
///
/// Plane layouts (`w` = width, `h` = height, all rows of a plane share one
/// stride in bytes, which may be larger than the row size shown):
///
/// | format      | planes (bytes per row x rows)                                  | depth  | encode | decode |
/// |-------------|----------------------------------------------------------------|--------|--------|--------|
/// | `Uyvy`      | `U Y V Y` packed: `2w x h`                                     | 8-bit  | yes    | yes    |
/// | `Yuy2`      | `Y U Y V` packed: `2w x h`                                     | 8-bit  | yes    | yes    |
/// | `Uyva`      | UYVY `2w x h`, then alpha `w x h`                              | 8-bit  | yes    | yes    |
/// | `Yuv422p`   | Y `w x h`, U `w/2 x h`, V `w/2 x h`                            | 8-bit  | yes    | yes    |
/// | `Yuva422p`  | Y `w x h`, U `w/2 x h`, V `w/2 x h`, A `w x h`                 | 8-bit  | yes    | yes    |
/// | `P216`      | Y `2w x h` (u16), interleaved UV `2w x h` (u16 U, u16 V)       | 10-bit | yes    | yes    |
/// | `Pa16`      | as `P216`, then alpha `2w x h` (u16)                           | 10-bit | yes    | yes    |
/// | `Nv12`      | Y `w x h`, interleaved UV `w x h/2`                            | 8-bit  | yes    | no     |
/// | `I420`      | Y `w x h`, U `w/2 x h/2`, V `w/2 x h/2`                        | 8-bit  | yes    | no     |
///
/// 4:2:0 input is converted to 4:2:2 by repeating each chroma line; VMX itself
/// is always 4:2:2 (or 4:2:2:4 with alpha).
#[derive(Clone, Copy, Debug, PartialEq, Eq, Hash, Structural)]
pub enum PixelFormat {
    /// Packed 4:2:2, `U0 Y0 V0 Y1`. FFmpeg `uyvy422`.
    Uyvy,
    /// Packed 4:2:2, `Y0 U0 Y1 V0`. FFmpeg `yuyv422`.
    Yuy2,
    /// UYVY followed by an 8-bit alpha plane.
    Uyva,
    /// Planar 4:2:2, 8-bit. FFmpeg `yuv422p`.
    Yuv422p,
    /// Planar 4:2:2:4, 8-bit. FFmpeg `yuva422p`.
    Yuva422p,
    /// 16-bit Y plane + interleaved 16-bit UV plane, 4:2:2, 10 significant bits.
    P216,
    /// `P216` followed by a 16-bit alpha plane.
    Pa16,
    /// 8-bit Y plane + interleaved UV plane, 4:2:0 (encode only).
    Nv12,
    /// 8-bit planar 4:2:0, also known as YV12 with U/V swapped (encode only).
    I420,
}

/// The formats with an alpha channel.
pub open spec fn alpha_format(f: PixelFormat) -> bool {
    f == PixelFormat::Uyva || f == PixelFormat::Yuva422p || f == PixelFormat::Pa16
}

/// The formats of the 10-bit coding path.
pub open spec fn deep_format(f: PixelFormat) -> bool {
    f == PixelFormat::P216 || f == PixelFormat::Pa16
}

/// The formats with half the chroma lines.
pub open spec fn halved_format(f: PixelFormat) -> bool {
    f == PixelFormat::Nv12 || f == PixelFormat::I420
}

/// Bytes per row and rows of each plane.
pub open spec fn plane_sizes_of(f: PixelFormat, w: int, h: int) -> Seq<(int, int)> {
    match f {
        PixelFormat::Uyvy | PixelFormat::Yuy2 => seq![(2 * w, h)],
        PixelFormat::Uyva => seq![(2 * w, h), (w, h)],
        PixelFormat::Yuv422p => seq![(w, h), (w / 2, h), (w / 2, h)],
        PixelFormat::Yuva422p => seq![(w, h), (w / 2, h), (w / 2, h), (w, h)],
        PixelFormat::P216 => seq![(2 * w, h), (2 * w, h)],
        PixelFormat::Pa16 => seq![(2 * w, h), (2 * w, h), (2 * w, h)],
        PixelFormat::Nv12 => seq![(w, h), (w, h / 2)],
        PixelFormat::I420 => seq![(w, h), (w / 2, h / 2), (w / 2, h / 2)],
    }
}

impl PixelFormat {
    /// Whether the format carries an alpha channel.
    pub fn has_alpha(self) -> (r: bool)
        ensures
            r == alpha_format(self),
    {
        matches!(self, PixelFormat::Uyva | PixelFormat::Yuva422p | PixelFormat::Pa16)
    }

    /// Whether the format selects the 10-bit coding path.
    pub fn is_10bit(self) -> (r: bool)
        ensures
            r == deep_format(self),
    {
        matches!(self, PixelFormat::P216 | PixelFormat::Pa16)
    }

    /// Whether a decoder can produce this format.
    pub fn can_decode(self) -> (r: bool)
        ensures
            r == !halved_format(self),
    {
        !matches!(self, PixelFormat::Nv12 | PixelFormat::I420)
    }

    /// Minimum `(bytes per row, rows)` of each plane for a `width` x `height` frame.
    pub fn plane_sizes(self, width: usize, height: usize) -> (r: Vec<(usize, usize)>)
        requires
            2 * width <= usize::MAX,
        ensures
            r@.len() == plane_sizes_of(self, width as int, height as int).len(),
            forall|i: int|
                0 <= i < r@.len() ==> (#[trigger] r@[i]).0 == plane_sizes_of(
                    self,
                    width as int,
                    height as int,
                )[i].0 && r@[i].1 == plane_sizes_of(self, width as int, height as int)[i].1,
    {
        let (w, h): (usize, usize) = (width, height);
        match self {
            PixelFormat::Uyvy | PixelFormat::Yuy2 => vec![(2 * w, h)],
            PixelFormat::Uyva => vec![(2 * w, h), (w, h)],
            PixelFormat::Yuv422p => vec![(w, h), (w / 2, h), (w / 2, h)],
            PixelFormat::Yuva422p => vec![(w, h), (w / 2, h), (w / 2, h), (w, h)],
            PixelFormat::P216 => vec![(2 * w, h), (2 * w, h)],
            PixelFormat::Pa16 => vec![(2 * w, h), (2 * w, h), (2 * w, h)],
            PixelFormat::Nv12 => vec![(w, h), (w, h / 2)],
            PixelFormat::I420 => vec![(w, h), (w / 2, h / 2), (w / 2, h / 2)],
        }
    }
}

/// One plane of an uncompressed frame.
#[derive(Clone, Debug, PartialEq, Eq)]
pub struct Plane {
    /// Sample bytes; row `r` starts at `r * stride`.
    pub data: Vec<u8>,
    /// Distance between rows in bytes.
    pub stride: usize,
}

/// An uncompressed video frame.
#[derive(Clone, Debug, PartialEq, Eq)]
pub struct Frame {
    /// Width in pixels (even).
    pub width: usize,
    /// Height in pixels.
    pub height: usize,
    /// Memory layout of [`Frame::planes`].
    pub format: PixelFormat,
    /// Interlaced content (two fields, top field on even lines). Only honoured
    /// by VMX for heights 480, 576 and 1080; other heights are coded as
    /// progressive.
    pub interlaced: bool,
    /// Planes in the order given by [`PixelFormat`].
    pub planes: Vec<Plane>,
}

/// The first fault of the planes from `i` on.
pub open spec fn planes_fault(planes: Seq<Plane>, sizes: Seq<(int, int)>, i: int) -> Option<Error>
    decreases sizes.len() - i,
{
    if i >= sizes.len() {
        None
    } else {
        let (row, rows) = sizes[i];
        if planes[i].stride < row {
            Some(Error::InvalidFrame("plane stride smaller than a row"))
        } else if rows > 0 && planes[i].data@.len() < planes[i].stride * (rows - 1) + row {
            Some(Error::InvalidFrame("plane buffer too small"))
        } else {
            planes_fault(planes, sizes, i + 1)
        }
    }
}

impl Frame {
    /// The sizes that the planes must have.
    pub open spec fn sizes(self) -> Seq<(int, int)> {
        plane_sizes_of(self.format, self.width as int, self.height as int)
    }

    /// What is wrong with the planes.
    pub open spec fn fault(self) -> Option<Error> {
        if self.planes@.len() != self.sizes().len() {
            Some(Error::InvalidFrame("wrong number of planes for the pixel format"))
        } else {
            planes_fault(self.planes@, self.sizes(), 0)
        }
    }

    /// The planes are large enough for the format.
    pub open spec fn valid(self) -> bool {
        &&& self.planes@.len() == self.sizes().len()
        &&& forall|i: int|
            0 <= i < self.sizes().len() ==> #[trigger] plane_holds(self.planes@[i], self.sizes()[i])
    }

    /// The frame of zeros that [`Frame::new`] gives.
    pub open spec fn is_blank(self, width: int, height: int, format: PixelFormat) -> bool {
        let sizes = plane_sizes_of(format, width, height);
        &&& self.width == width
        &&& self.height == height
        &&& self.format == format
        &&& !self.interlaced
        &&& self.planes@.len() == sizes.len()
        &&& forall|i: int|
            0 <= i < sizes.len() ==> (#[trigger] self.planes@[i]).stride == sizes[i].0
                && self.planes@[i].data@ == Seq::new((sizes[i].0 * sizes[i].1) as nat, |j: int| 0u8)
    }

    /// Allocates a zeroed, tightly packed frame.
    pub fn new(width: usize, height: usize, format: PixelFormat) -> (r: Self)
        requires
            2 * width * height <= usize::MAX,
            2 * width <= usize::MAX,
        ensures
            r.is_blank(width as int, height as int, format),
    {
        let sizes: Vec<(usize, usize)> = format.plane_sizes(width, height);
        let ghost want = plane_sizes_of(format, width as int, height as int);
        let mut planes: Vec<Plane> = Vec::new();
        let mut i: usize = 0;
        while i < sizes.len()
            invariant
                i <= sizes@.len(),
                2 * width * height <= usize::MAX,
                want == plane_sizes_of(format, width as int, height as int),
                sizes@.len() == want.len(),
                forall|k: int|
                    0 <= k < want.len() ==> (#[trigger] sizes@[k]).0 == want[k].0 && sizes@[k].1
                        == want[k].1,
                planes@.len() == i,
                forall|k: int|
                    0 <= k < i ==> (#[trigger] planes@[k]).stride == want[k].0
                        && planes@[k].data@ == Seq::new(
                        (want[k].0 * want[k].1) as nat,
                        |j: int| 0u8,
                    ),
            decreases sizes@.len() - i,
        {
            let (row, rows): (usize, usize) = sizes[i];
            proof {
                assert(row <= 2 * width && rows <= height);
                assert(row * rows <= 2 * width * height) by (nonlinear_arith)
                    requires
                        0 <= row <= 2 * width,
                        0 <= rows <= height,
                ;
            }
            let data: Vec<u8> = vec![0u8; row * rows];
            assert(data@ =~= Seq::new((want[i as int].0 * want[i as int].1) as nat, |j: int| 0u8));
            planes.push(Plane { data, stride: row });
            i = i + 1;
        }
        Frame { width, height, format, interlaced: false, planes }
    }

    /// Wraps existing planes, checking that they are large enough.
    pub fn from_planes(width: usize, height: usize, format: PixelFormat, planes: Vec<Plane>) -> (r: Result<
        Self,
        Error,
    >)
        requires
            2 * width <= usize::MAX,
        ensures
            ({
                let f = Frame { width, height, format, interlaced: false, planes };
                match f.fault() {
                    Some(e) => r == Err::<Frame, Error>(e),
                    None => r == Ok::<Frame, Error>(f) && f.valid(),
                }
            }),
    {
        let f = Frame { width, height, format, interlaced: false, planes };
        match f.validate() {
            Ok(()) => Ok(f),
            Err(e) => Err(e),
        }
    }

    /// Checks plane count, strides and buffer sizes against the format.
    pub fn validate(&self) -> (r: Result<(), Error>)
        requires
            2 * self.width <= usize::MAX,
        ensures
            match self.fault() {
                Some(e) => r == Err::<(), Error>(e),
                None => r is Ok,
            },
            r is Ok <==> self.valid(),
    {
        let sizes: Vec<(usize, usize)> = self.format.plane_sizes(self.width, self.height);
        let ghost want = self.sizes();
        if self.planes.len() != sizes.len() {
            return Err(Error::InvalidFrame("wrong number of planes for the pixel format"));
        }
        let mut i: usize = 0;
        while i < sizes.len()
            invariant
                i <= sizes@.len(),
                want == self.sizes(),
                sizes@.len() == want.len(),
                self.planes@.len() == want.len(),
                forall|k: int|
                    0 <= k < want.len() ==> (#[trigger] sizes@[k]).0 == want[k].0 && sizes@[k].1
                        == want[k].1,
                forall|k: int| 0 <= k < i ==> #[trigger] plane_holds(self.planes@[k], want[k]),
                self.fault() == planes_fault(self.planes@, want, i as int),
            decreases sizes@.len() - i,
        {
            let (row, rows): (usize, usize) = sizes[i];
            let p: &Plane = &self.planes[i];
            if p.stride < row {
                assert(!plane_holds(self.planes@[i as int], want[i as int]));
                return Err(Error::InvalidFrame("plane stride smaller than a row"));
            }
            if rows > 0 {
                proof {
                    assert(0 <= p.stride * (rows - 1) + row <= 0x1_0000_0000_0000_0000
                        * 0x1_0000_0000_0000_0000) by (nonlinear_arith)
                        requires
                            0 <= p.stride < 0x1_0000_0000_0000_0000,
                            1 <= rows < 0x1_0000_0000_0000_0000,
                            0 <= row < 0x1_0000_0000_0000_0000,
                    ;
                    assert(0 <= p.stride * (rows - 1) <= 0xFFFF_FFFF_FFFF_FFFF
                        * 0xFFFF_FFFF_FFFF_FFFE) by (nonlinear_arith)
                        requires
                            0 <= p.stride <= 0xFFFF_FFFF_FFFF_FFFF,
                            1 <= rows <= 0xFFFF_FFFF_FFFF_FFFF,
                    ;
                }
                let need: u128 = p.stride as u128 * (rows as u128 - 1) + row as u128;
                if (p.data.len() as u128) < need {
                    assert(!plane_holds(self.planes@[i as int], want[i as int]));
                    return Err(Error::InvalidFrame("plane buffer too small"));
                }
            }
            assert(plane_holds(self.planes@[i as int], want[i as int]));
            i = i + 1;
        }
        Ok(())
    }
}

/// A plane has room for `size.1` rows of `size.0` bytes.
pub open spec fn plane_holds(p: Plane, size: (int, int)) -> bool {
    &&& p.stride >= size.0
    &&& size.1 > 0 ==> p.data@.len() >= p.stride * (size.1 - 1) + size.0
}

} // verus!
