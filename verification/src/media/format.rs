//! The layouts of decoded pictures and which one is picked.

use crate::frame::{fourcc, VideoFlags};
use vstd::prelude::*;

verus! {

/// Layout of a decoded picture. All rows of a plane are `stride` bytes and
/// planes follow each other without gaps.
///
/// | format | planes                                                    | stride |
/// |--------|-----------------------------------------------------------|--------|
/// | `Uyvy` | `U Y V Y` packed, 8-bit                                   | `2w`   |
/// | `Uyva` | UYVY, then an 8-bit alpha plane of `w x h`                | `2w`   |
/// | `Bgra` | `B G R A` packed, 8-bit; A is 255 when the source has no alpha | `4w` |
/// | `P216` | 16-bit Y plane, then interleaved 16-bit U/V, little-endian, 10 significant bits in the high bits | `2w` |
/// | `Pa16` | `P216`, then a 16-bit alpha plane                         | `2w`   |
#[derive(Clone, Copy, Debug, PartialEq, Eq, Hash, Structural)]
pub enum VideoFormat {
    /// 8-bit 4:2:2.
    Uyvy,
    /// 8-bit 4:2:2 plus alpha.
    Uyva,
    /// 8-bit RGB plus alpha.
    Bgra,
    /// 10-bit 4:2:2 in 16-bit words.
    P216,
    /// 10-bit 4:2:2 plus alpha in 16-bit words.
    Pa16,
}

impl Default for VideoFormat {
    fn default() -> (r: Self)
        ensures
            r == VideoFormat::Uyvy,
    {
        VideoFormat::Uyvy
    }
}

/// The letters of a layout.
pub open spec fn letters(f: VideoFormat) -> Seq<u8> {
    match f {
        VideoFormat::Uyvy => seq![85u8, 89, 86, 89],
        VideoFormat::Uyva => seq![85u8, 89, 86, 65],
        VideoFormat::Bgra => seq![66u8, 71, 82, 65],
        VideoFormat::P216 => seq![80u8, 50, 49, 54],
        VideoFormat::Pa16 => seq![80u8, 65, 49, 54],
    }
}

/// Bytes of each plane of a picture.
pub open spec fn plane_bytes(f: VideoFormat, w: int, h: int) -> Seq<int> {
    match f {
        VideoFormat::Uyvy => seq![2 * w * h],
        VideoFormat::Uyva => seq![2 * w * h, w * h],
        VideoFormat::Bgra => seq![4 * w * h],
        VideoFormat::P216 => seq![2 * w * h, 2 * w * h],
        VideoFormat::Pa16 => seq![2 * w * h, 2 * w * h, 2 * w * h],
    }
}

impl VideoFormat {
    /// The FourCC of this layout: its letters, the first in the lowest byte.
    pub fn fourcc(self) -> (r: u32)
        ensures
            r == letters(self)[0] + 256 * letters(self)[1] + 65536 * letters(self)[2] + 0x100_0000 * letters(
                self,
            )[3],
    {
        match self {
            VideoFormat::Uyvy => fourcc(&[85, 89, 86, 89]),
            VideoFormat::Uyva => fourcc(&[85, 89, 86, 65]),
            VideoFormat::Bgra => fourcc(&[66, 71, 82, 65]),
            VideoFormat::P216 => fourcc(&[80, 50, 49, 54]),
            VideoFormat::Pa16 => fourcc(&[80, 65, 49, 54]),
        }
    }

    /// Samples are 16-bit words carrying 10 significant bits.
    pub fn is_10bit(self) -> (r: bool)
        ensures
            r == (self == VideoFormat::P216 || self == VideoFormat::Pa16),
    {
        matches!(self, VideoFormat::P216 | VideoFormat::Pa16)
    }

    /// Bytes of each plane for a `width` x `height` picture, in order.
    pub fn plane_sizes(self, width: usize, height: usize) -> (r: Vec<usize>)
        requires
            4 * width * height <= usize::MAX,
            4 * width <= usize::MAX,
        ensures
            r@.len() == plane_bytes(self, width as int, height as int).len(),
            forall|i: int|
                0 <= i < r@.len() ==> #[trigger] r@[i] == plane_bytes(self, width as int, height as int)[i],
    {
        let (w, h): (usize, usize) = (width, height);
        proof {
            assert(0 <= w * h && w * h <= 2 * w * h && 2 * w * h <= 4 * w * h) by (nonlinear_arith)
                requires
                    0 <= w,
                    0 <= h,
            ;
        }
        match self {
            VideoFormat::Uyvy => vec![2 * w * h],
            VideoFormat::Uyva => vec![2 * w * h, w * h],
            VideoFormat::Bgra => vec![4 * w * h],
            VideoFormat::P216 => vec![2 * w * h, 2 * w * h],
            VideoFormat::Pa16 => vec![2 * w * h, 2 * w * h, 2 * w * h],
        }
    }

    /// Bytes per row of the first plane.
    pub open spec fn row_bytes(self, width: int) -> int {
        if self == VideoFormat::Bgra {
            4 * width
        } else {
            2 * width
        }
    }

    /// Bytes per row of the first plane.
    pub fn stride(self, width: usize) -> (r: usize)
        requires
            4 * width <= usize::MAX,
        ensures
            r == self.row_bytes(width as int),
    {
        match self {
            VideoFormat::Bgra => 4 * width,
            _ => 2 * width,
        }
    }
}

/// Which layout to decode video into. What each preference yields, by the
/// frame's flags:
///
/// | preference               | opaque        | alpha        | 10-bit        | 10-bit + alpha | preview (opaque / alpha) |
/// |--------------------------|---------------|--------------|---------------|----------------|--------------------------|
/// | `Uyvy`                   | UYVY          | UYVY         | UYVY          | UYVY           | UYVY / UYVY              |
/// | `UyvyOrBgra`             | UYVY          | BGRA         | UYVY          | BGRA           | UYVY / BGRA              |
/// | `Bgra`                   | BGRA (A=255)  | BGRA         | BGRA (A=255)  | BGRA           | BGRA (A=255) / BGRA      |
/// | `UyvyOrUyva`             | UYVY          | UYVA         | UYVY          | UYVA           | UYVY / UYVA              |
/// | `UyvyOrUyvaOrP216OrPa16` | UYVY          | UYVA         | P216          | PA16           | UYVY / UYVA              |
/// | `P216`                   | P216          | P216         | P216          | P216           | none                     |
///
/// 10-bit sources decoded to an 8-bit layout go through the 8-bit path, and
/// 8-bit sources decoded to `P216` through the 10-bit path.
#[derive(Clone, Copy, Debug, PartialEq, Eq, Hash, Structural)]
pub enum PreferredVideoFormat {
    /// Always 8-bit UYVY; alpha is discarded. The fastest.
    Uyvy,
    /// UYVY, or BGRA when the frame has alpha.
    UyvyOrBgra,
    /// Always BGRA.
    Bgra,
    /// UYVY, or UYVA when the frame has alpha.
    UyvyOrUyva,
    /// As `UyvyOrUyva`, but P216 / PA16 for frames the sender encoded from a
    /// high-bit-depth source.
    UyvyOrUyvaOrP216OrPa16,
    /// Always P216 (full frames only).
    P216,
}

impl Default for PreferredVideoFormat {
    fn default() -> (r: Self)
        ensures
            r == PreferredVideoFormat::Uyvy,
    {
        PreferredVideoFormat::Uyvy
    }
}

/// The layout for a frame with some flags.
pub open spec fn selected(p: PreferredVideoFormat, alpha: bool, high: bool, preview: bool) -> Option<VideoFormat> {
    match p {
        PreferredVideoFormat::Uyvy => Some(VideoFormat::Uyvy),
        PreferredVideoFormat::UyvyOrBgra => Some(
            if alpha {
                VideoFormat::Bgra
            } else {
                VideoFormat::Uyvy
            },
        ),
        PreferredVideoFormat::Bgra => Some(VideoFormat::Bgra),
        PreferredVideoFormat::UyvyOrUyva => Some(
            if alpha {
                VideoFormat::Uyva
            } else {
                VideoFormat::Uyvy
            },
        ),
        PreferredVideoFormat::UyvyOrUyvaOrP216OrPa16 => Some(
            if high && !preview {
                if alpha {
                    VideoFormat::Pa16
                } else {
                    VideoFormat::P216
                }
            } else {
                if alpha {
                    VideoFormat::Uyva
                } else {
                    VideoFormat::Uyvy
                }
            },
        ),
        PreferredVideoFormat::P216 => if preview {
            None
        } else {
            Some(VideoFormat::P216)
        },
    }
}

/// The layout for a frame with these flags.
pub open spec fn selected_for(p: PreferredVideoFormat, flags: VideoFlags) -> Option<VideoFormat> {
    selected(
        p,
        flags.has(VideoFlags::ALPHA),
        flags.has(VideoFlags::HIGH_BIT_DEPTH),
        flags.has(VideoFlags::PREVIEW),
    )
}

impl PreferredVideoFormat {
    /// The layout for a frame with these flags, or `None` when there is none.
    pub fn select(self, flags: VideoFlags) -> (r: Option<VideoFormat>)
        ensures
            r == selected_for(self, flags),
    {
        let alpha: bool = flags.contains(VideoFlags::ALPHA);
        let high: bool = flags.contains(VideoFlags::HIGH_BIT_DEPTH);
        let preview: bool = flags.contains(VideoFlags::PREVIEW);
        match self {
            PreferredVideoFormat::Uyvy => Some(VideoFormat::Uyvy),
            PreferredVideoFormat::UyvyOrBgra => if alpha {
                Some(VideoFormat::Bgra)
            } else {
                Some(VideoFormat::Uyvy)
            },
            PreferredVideoFormat::Bgra => Some(VideoFormat::Bgra),
            PreferredVideoFormat::UyvyOrUyva => if alpha {
                Some(VideoFormat::Uyva)
            } else {
                Some(VideoFormat::Uyvy)
            },
            PreferredVideoFormat::UyvyOrUyvaOrP216OrPa16 => match (high && !preview, alpha) {
                (false, false) => Some(VideoFormat::Uyvy),
                (false, true) => Some(VideoFormat::Uyva),
                (true, false) => Some(VideoFormat::P216),
                (true, true) => Some(VideoFormat::Pa16),
            },
            PreferredVideoFormat::P216 => if preview {
                None
            } else {
                Some(VideoFormat::P216)
            },
        }
    }
}

/// A preview is never decoded to 16-bit words, and only P216 has no layout for
/// one.
pub proof fn law_previews_are_8bit(p: PreferredVideoFormat, alpha: bool, high: bool)
    ensures
        match selected(p, alpha, high, true) {
            Some(f) => f != VideoFormat::P216 && f != VideoFormat::Pa16,
            None => p == PreferredVideoFormat::P216,
        },
{
}

/// What a preference yields: opacity is kept where the preference has a layout
/// for it, or always as BGRA; words of 16 bits come from deep sources where
/// that is preferred, or always; and BGRA is for those that ask for it.
pub proof fn law_preference_is_met(p: PreferredVideoFormat, alpha: bool, high: bool, preview: bool)
    ensures
        match selected(p, alpha, high, preview) {
            None => p == PreferredVideoFormat::P216 && preview,
            Some(f) => {
                let deep = f == VideoFormat::P216 || f == VideoFormat::Pa16;
                let opacity = f == VideoFormat::Uyva || f == VideoFormat::Pa16 || f == VideoFormat::Bgra;
                &&& !(p == PreferredVideoFormat::P216 && preview)
                &&& deep <==> p == PreferredVideoFormat::P216 || high && !preview && p
                    == PreferredVideoFormat::UyvyOrUyvaOrP216OrPa16
                &&& opacity <==> p == PreferredVideoFormat::Bgra || alpha && p != PreferredVideoFormat::Uyvy && p
                    != PreferredVideoFormat::P216
                &&& f == VideoFormat::Bgra <==> p == PreferredVideoFormat::Bgra || alpha && p
                    == PreferredVideoFormat::UyvyOrBgra
            },
        },
{
}

} // verus!
