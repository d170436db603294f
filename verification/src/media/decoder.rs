//! Decodes received frames.

use crate::command::{classify, is_command, is_info_text, is_quality_text, is_redirect_text, Message};
use crate::deframer::{FrameView, OwnedFrame};
use crate::frame::{ExtendedHeader, VideoFlags, VideoHeader, CODEC_VMX1};
use crate::media::audio::{audio_fault, decode_audio, is_audio_of, AudioFrame};
use crate::media::error::DecodeError;
use crate::media::format::{plane_bytes, selected_for, PreferredVideoFormat, VideoFormat};
use crate::media::pixels::{
    bgra_rows, copy_plane, pack_uyvy, planar, plane_rows, to_bgra, uyvy_rows, YUV_RGB_601, YUV_RGB_709,
};
use crate::text::{cut_zeros, decode_lossy, lossy, without_zeros};
use crate::vmx::convert::{lemma_stored_rows_len, out_byte, stored_plane};
use crate::vmx::decoder::{decode_refused, decoded_into, decoded_planes, is_preview_of, preview_readable, Decoder};
use crate::vmx::frame::{plane_holds, plane_sizes_of, planes_fault, Frame, PixelFormat, Plane};
use crate::vmx::layout::{codable, parse_of, Layout};
use vstd::prelude::*;

verus! {

/// A decoded video frame.
#[derive(Clone, Debug, PartialEq, Eq)]
pub struct VideoFrame {
    /// In 100 ns units, as sent.
    pub timestamp: i64,
    /// Decoded width: the sender's width, or the preview width for preview
    /// frames.
    pub width: usize,
    /// Decoded height.
    pub height: usize,
    /// Layout of [`VideoFrame::data`].
    pub format: VideoFormat,
    /// Bytes per row of the first plane.
    pub stride: usize,
    /// All planes, back to back.
    pub data: Vec<u8>,
    /// Frame rate numerator.
    pub frame_rate_n: i32,
    /// Frame rate denominator.
    pub frame_rate_d: i32,
    /// The bits of the display aspect ratio, width / height.
    pub aspect_ratio: u32,
    /// As sent: 0 undefined, 601 or 709.
    pub color_space: i32,
    /// As sent: interlaced, alpha, premultiplied, preview, high bit depth.
    pub flags: VideoFlags,
    /// Per-frame XML, exactly as sent (usually NUL-terminated); empty if none.
    pub metadata: Vec<u8>,
    /// The sender's frame width; differs from `width` for preview frames.
    pub source_width: usize,
    /// The sender's frame height, which also picks the colour matrix when the
    /// colour space is undefined.
    pub source_height: usize,
}

impl Default for VideoFrame {
    fn default() -> (r: Self)
        ensures
            r.timestamp == 0,
            r.width == 0,
            r.height == 0,
            r.format == VideoFormat::Uyvy,
            r.stride == 0,
            r.data@ == Seq::<u8>::empty(),
            r.frame_rate_n == 0,
            r.frame_rate_d == 0,
            r.aspect_ratio == 0,
            r.color_space == 0,
            r.flags == VideoFlags(0),
            r.metadata@ == Seq::<u8>::empty(),
            r.source_width == 0,
            r.source_height == 0,
    {
        VideoFrame {
            timestamp: 0,
            width: 0,
            height: 0,
            format: VideoFormat::Uyvy,
            stride: 0,
            data: Vec::new(),
            frame_rate_n: 0,
            frame_rate_d: 0,
            aspect_ratio: 0,
            color_space: 0,
            flags: VideoFlags(0),
            metadata: Vec::new(),
            source_width: 0,
            source_height: 0,
        }
    }
}

/// Where plane `i` starts, given the sizes of the planes.
pub open spec fn plane_start(sizes: Seq<int>, i: int) -> int
    decreases i,
{
    if i <= 0 {
        0
    } else {
        plane_start(sizes, i - 1) + sizes[i - 1]
    }
}

/// `x`, but no more than `max`.
pub open spec fn at_most(x: int, max: int) -> int {
    if x < max {
        x
    } else {
        max
    }
}

/// BT.601 when the sender says so, or says nothing and the full frame is under
/// 720 lines.
pub open spec fn is_601(color_space: i32, height: int) -> bool {
    color_space == 601 || (color_space == 0 && height < 720)
}

/// Whether the matrix is BT.601.
fn bt601(color_space: i32, height: usize) -> (r: bool)
    ensures
        r == is_601(color_space, height as int),
{
    color_space == 601 || (color_space == 0 && height < 720)
}

impl VideoFrame {
    /// The planes of [`VideoFrame::data`], in the order of [`VideoFormat`].
    /// Data that is too short gives short planes.
    pub fn planes(&self) -> (r: Vec<&[u8]>)
        requires
            4 * self.width * self.height <= usize::MAX,
            4 * self.width <= usize::MAX,
        ensures
            ({
                let sizes = plane_bytes(self.format, self.width as int, self.height as int);
                let len = self.data@.len() as int;
                &&& r@.len() == sizes.len()
                &&& forall|i: int|
                    0 <= i < sizes.len() ==> (#[trigger] r@[i])@ == self.data@.subrange(
                        at_most(plane_start(sizes, i), len),
                        at_most(plane_start(sizes, i + 1), len),
                    )
            }),
    {
        let sizes: Vec<usize> = self.format.plane_sizes(self.width, self.height);
        let ghost want = plane_bytes(self.format, self.width as int, self.height as int);
        let len: usize = self.data.len();
        let mut r: Vec<&[u8]> = Vec::new();
        let mut at: usize = 0;
        let mut i: usize = 0;
        while i < sizes.len()
            invariant
                i <= sizes@.len(),
                sizes@.len() == want.len(),
                forall|k: int| 0 <= k < want.len() ==> #[trigger] sizes@[k] == want[k],
                len == self.data@.len(),
                at == at_most(plane_start(want, i as int), len as int),
                plane_start(want, i as int) >= 0,
                r@.len() == i,
                forall|k: int|
                    0 <= k < i ==> (#[trigger] r@[k])@ == self.data@.subrange(
                        at_most(plane_start(want, k), len as int),
                        at_most(plane_start(want, k + 1), len as int),
                    ),
            decreases sizes@.len() - i,
        {
            assert(sizes@[i as int] == want[i as int]);
            let n: usize = if sizes[i] < len - at {
                sizes[i]
            } else {
                len - at
            };
            assert(at + n == at_most(plane_start(want, i + 1), len as int));
            let p: &[u8] = vstd::slice::slice_subrange(self.data.as_slice(), at, at + n);
            r.push(p);
            at = at + n;
            i = i + 1;
        }
        r
    }

    /// Whether the YUV to RGB matrix is BT.601 rather than BT.709.
    pub fn is_bt601(&self) -> (r: bool)
        ensures
            r == is_601(self.color_space, self.source_height as int),
    {
        bt601(self.color_space, self.source_height)
    }

    /// Two fields in one frame.
    pub fn is_interlaced(&self) -> (r: bool)
        ensures
            r == self.flags.has(VideoFlags::INTERLACED),
    {
        self.flags.contains(VideoFlags::INTERLACED)
    }

    /// The source has an alpha channel. It survives decoding only into UYVA,
    /// BGRA or PA16.
    pub fn has_alpha(&self) -> (r: bool)
        ensures
            r == self.flags.has(VideoFlags::ALPHA),
    {
        self.flags.contains(VideoFlags::ALPHA)
    }

    /// A 1/8-scale preview frame.
    pub fn is_preview(&self) -> (r: bool)
        ensures
            r == self.flags.has(VideoFlags::PREVIEW),
    {
        self.flags.contains(VideoFlags::PREVIEW)
    }

    /// The sender encoded it from a 10-bit source.
    pub fn is_high_bit_depth(&self) -> (r: bool)
        ensures
            r == self.flags.has(VideoFlags::HIGH_BIT_DEPTH),
    {
        self.flags.contains(VideoFlags::HIGH_BIT_DEPTH)
    }
}

/// A metadata frame meant for the application.
#[derive(Clone, Debug, PartialEq, Eq)]
pub struct MetadataFrame {
    /// In 100 ns units, as sent.
    pub timestamp: i64,
    /// The XML exactly as sent, including any trailing NUL.
    pub xml: Vec<u8>,
    /// `<OMTInfo .../>` sender information.
    pub sender_info: bool,
}

impl Default for MetadataFrame {
    fn default() -> (r: Self)
        ensures
            r.timestamp == 0,
            r.xml@ == Seq::<u8>::empty(),
            !r.sender_info,
    {
        MetadataFrame { timestamp: 0, xml: Vec::new(), sender_info: false }
    }
}

impl MetadataFrame {
    /// The XML as text, without trailing NULs.
    pub fn text(&self) -> (r: String)
        ensures
            r@ == lossy(without_zeros(self.xml@)),
            vstd::utf8::valid_utf8(without_zeros(self.xml@)) ==> r@ == vstd::utf8::decode_utf8(
                without_zeros(self.xml@),
            ),
    {
        decode_lossy(cut_zeros(self.xml.as_slice()))
    }
}

/// One decoded frame.
#[derive(Clone, Copy, Debug)]
pub enum Media<'a> {
    /// A picture.
    Video(&'a VideoFrame),
    /// Sound.
    Audio(&'a AudioFrame),
    /// Application metadata or sender information.
    Metadata(&'a MetadataFrame),
}

// ---------------------------------------------------------------------------
// Pictures
// ---------------------------------------------------------------------------

/// The constants for a picture.
pub open spec fn matrix_for(color_space: i32, height: int) -> Seq<i16> {
    if is_601(color_space, height) {
        YUV_RGB_601@
    } else {
        YUV_RGB_709@
    }
}

/// The pixel format that a layout is decoded through.
pub open spec fn pixel_for(format: VideoFormat, alpha: bool) -> PixelFormat {
    match format {
        VideoFormat::Uyvy => PixelFormat::Uyvy,
        VideoFormat::Uyva => PixelFormat::Uyva,
        VideoFormat::P216 => PixelFormat::P216,
        VideoFormat::Pa16 => PixelFormat::Pa16,
        VideoFormat::Bgra => if alpha {
            PixelFormat::Yuva422p
        } else {
            PixelFormat::Yuv422p
        },
    }
}

/// The bytes of the first `n` planes, one behind the other.
pub open spec fn planes_joined(planes: Seq<Plane>, n: int) -> Seq<u8>
    decreases n,
{
    if n <= 0 {
        Seq::empty()
    } else {
        planes_joined(planes, n - 1) + planes[n - 1].data@
    }
}

/// The bytes of a decoded picture in a layout.
pub open spec fn picture_bytes(g: Frame, format: VideoFormat, t: Seq<i16>) -> Seq<u8> {
    if format == VideoFormat::Bgra {
        bgra_rows(g, t, g.height as int)
    } else {
        planes_joined(g.planes@, g.planes@.len() as int)
    }
}

/// The bytes of a decoded preview in a layout.
pub open spec fn preview_bytes(g: Frame, format: VideoFormat, t: Seq<i16>) -> Seq<u8> {
    match format {
        VideoFormat::Bgra => bgra_rows(g, t, g.height as int),
        VideoFormat::Uyva => uyvy_rows(g, g.height as int) + plane_rows(
            g.planes@[3],
            g.width as int,
            g.height as int,
        ),
        _ => uyvy_rows(g, g.height as int),
    }
}

/// Why compressed data cannot be decoded to a pixel format.
pub open spec fn stream_fault(l: Layout, data: Seq<u8>, pixel: PixelFormat) -> Option<crate::vmx::error::Error> {
    match parse_of(l, data) {
        Err(e) => Some(e),
        Ok(c) => if c.ac.len() == 0 {
            Some(crate::vmx::error::Error::InvalidBitstream("frame has no AC data (preview only)"))
        } else if decoded_planes(l, c, pixel) is None {
            Some(crate::vmx::error::Error::InvalidBitstream("corrupt slice stream"))
        } else {
            None
        },
    }
}

/// Why compressed data cannot be decoded to a preview.
pub open spec fn preview_fault(l: Layout, data: Seq<u8>, alpha: bool) -> Option<crate::vmx::error::Error> {
    match parse_of(l, data) {
        Err(e) => Some(e),
        Ok(c) => if preview_readable(
            l,
            c,
            if alpha {
                4
            } else {
                3
            },
        ) {
            None
        } else {
            Some(crate::vmx::error::Error::InvalidBitstream("corrupt DC stream"))
        },
    }
}

/// Whether a preview keeps its alpha plane.
pub open spec fn keeps_alpha(v: VideoHeader, format: VideoFormat) -> bool {
    v.flags.has(VideoFlags::ALPHA) && format != VideoFormat::Uyvy
}

/// The size of a decoded picture and its bytes.
pub open spec fn shows(
    l: Layout,
    data: Seq<u8>,
    v: VideoHeader,
    format: VideoFormat,
    size: (int, int),
    bytes: Seq<u8>,
) -> bool {
    let alpha = v.flags.has(VideoFlags::ALPHA);
    let t = matrix_for(v.color_space, v.height as int);
    if v.flags.has(VideoFlags::PREVIEW) {
        exists|pv: Frame|
            {
                &&& #[trigger] is_preview_of(pv, l, parse_of(l, data)->Ok_0, keeps_alpha(v, format))
                &&& bytes == preview_bytes(pv, format, t)
                &&& size == (pv.width as int, pv.height as int)
            }
    } else {
        exists|f: Frame, g: Frame|
            {
                &&& f.is_blank(v.width as int, v.height as int, pixel_for(format, alpha))
                &&& #[trigger] decoded_into(l, data, f, g)
                &&& bytes == picture_bytes(g, format, t)
                &&& size == (v.width as int, v.height as int)
            }
    }
}

/// Why a video frame cannot be decoded, before its data is looked at.
pub open spec fn header_fault(p: PreferredVideoFormat, v: VideoHeader) -> Option<DecodeError> {
    if v.codec != CODEC_VMX1 {
        Some(DecodeError::UnsupportedCodec(v.codec))
    } else if selected_for(p, v.flags) is None {
        Some(DecodeError::NoMatchingFormat)
    } else if !codable(v.width as int, v.height as int) {
        Some(DecodeError::InvalidSize { width: v.width, height: v.height })
    } else {
        None
    }
}

/// Why the data of a video frame cannot be decoded.
pub open spec fn data_fault(
    l: Layout,
    data: Seq<u8>,
    v: VideoHeader,
    format: VideoFormat,
) -> Option<crate::vmx::error::Error> {
    if v.flags.has(VideoFlags::PREVIEW) {
        preview_fault(l, data, keeps_alpha(v, format))
    } else {
        stream_fault(l, data, pixel_for(format, v.flags.has(VideoFlags::ALPHA)))
    }
}

/// The geometry of a frame size.
pub open spec fn layout_for(l: Layout, v: VideoHeader) -> bool {
    l.wf() && l.width == v.width && l.height == v.height
}

/// `out` is the video of a frame.
pub open spec fn is_video_of(
    out: VideoFrame,
    l: Layout,
    f: FrameView,
    v: VideoHeader,
    format: VideoFormat,
) -> bool {
    &&& shows(l, f.data, v, format, (out.width as int, out.height as int), out.data@)
    &&& out.timestamp == f.header.timestamp
    &&& out.format == format
    &&& out.stride == format.row_bytes(out.width as int)
    &&& out.frame_rate_n == v.frame_rate_n
    &&& out.frame_rate_d == v.frame_rate_d
    &&& out.aspect_ratio == v.aspect_ratio
    &&& out.color_space == v.color_space
    &&& out.flags == v.flags
    &&& out.metadata@ == f.metadata
    &&& out.source_width == v.width
    &&& out.source_height == v.height
}

/// The bytes that a failed decode leaves: a full frame in UYVY, which is
/// decoded in place, leaves a picture of zeros; anything else leaves the bytes
/// as they were.
pub open spec fn bytes_left(old: Seq<u8>, v: VideoHeader, format: VideoFormat) -> Seq<u8> {
    if !v.flags.has(VideoFlags::PREVIEW) && format == VideoFormat::Uyvy {
        Seq::new((2 * v.width * v.height) as nat, |j: int| 0u8)
    } else {
        old
    }
}

/// `new` is `old` but for its bytes.
pub open spec fn kept_but_data(old: VideoFrame, new: VideoFrame) -> bool {
    &&& new.timestamp == old.timestamp
    &&& new.width == old.width
    &&& new.height == old.height
    &&& new.format == old.format
    &&& new.stride == old.stride
    &&& new.frame_rate_n == old.frame_rate_n
    &&& new.frame_rate_d == old.frame_rate_d
    &&& new.aspect_ratio == old.aspect_ratio
    &&& new.color_space == old.color_space
    &&& new.flags == old.flags
    &&& new.metadata@ == old.metadata@
    &&& new.source_width == old.source_width
    &&& new.source_height == old.source_height
}

/// What decoding a video frame does.
pub open spec fn decodes(
    p: PreferredVideoFormat,
    f: FrameView,
    old: VideoFrame,
    new: VideoFrame,
    r: Result<(), DecodeError>,
) -> bool {
    match f.ext {
        ExtendedHeader::Video(v) => match header_fault(p, v) {
            Some(e) => r == Err::<(), DecodeError>(e) && new == old,
            None => exists|l: Layout|
                {
                    &&& #[trigger] layout_for(l, v)
                    &&& match data_fault(l, f.data, v, selected_for(p, v.flags)->0) {
                        Some(e) => {
                            &&& r == Err::<(), DecodeError>(DecodeError::Video(e))
                            &&& kept_but_data(old, new)
                            &&& new.data@ == bytes_left(old.data@, v, selected_for(p, v.flags)->0)
                        },
                        None => r is Ok && is_video_of(new, l, f, v, selected_for(p, v.flags)->0),
                    }
                },
        },
        _ => r == Err::<(), DecodeError>(DecodeError::NotMedia) && new == old,
    }
}

/// A blank frame is as good as any for decoding into.
proof fn lemma_blank(f: Frame, l: Layout, data: Seq<u8>, pixel: PixelFormat)
    requires
        l.wf(),
        f.is_blank(l.width as int, l.height as int, pixel),
        pixel != PixelFormat::Nv12,
        pixel != PixelFormat::I420,
    ensures
        f.valid(),
        decode_refused(l, data, f) == stream_fault(l, data, pixel),
{
    let sizes = plane_sizes_of(pixel, l.width as int, l.height as int);
    assert forall|i: int| 0 <= i < sizes.len() implies #[trigger] plane_holds(f.planes@[i], sizes[i]) by {
        let (row, rows) = sizes[i];
        assert(f.planes@[i].stride == row);
        assert(row * rows == row * (rows - 1) + row) by (nonlinear_arith);
        assert(row * rows >= 0) by (nonlinear_arith)
            requires
                row >= 0,
                rows >= 0,
        ;
    }
    lemma_no_fault(f, 0);
}

/// Planes that hold have no fault.
proof fn lemma_no_fault(f: Frame, i: int)
    requires
        f.valid(),
        0 <= i <= f.sizes().len(),
    ensures
        planes_fault(f.planes@, f.sizes(), i) is None,
    decreases f.sizes().len() - i,
{
    if i < f.sizes().len() {
        assert(plane_holds(f.planes@[i], f.sizes()[i]));
        lemma_no_fault(f, i + 1);
    }
}

/// What was decoded into a blank frame has room for its rows.
proof fn lemma_decoded_valid(f: Frame, g: Frame, l: Layout, data: Seq<u8>)
    requires
        f.valid(),
        decoded_into(l, data, f, g),
    ensures
        g.valid(),
        g.width == f.width,
        g.height == f.height,
        g.format == f.format,
{
    let c = parse_of(l, data)->Ok_0;
    let pl = decoded_planes(l, c, f.format)->0;
    assert forall|i: int| 0 <= i < g.sizes().len() implies #[trigger] plane_holds(g.planes@[i], g.sizes()[i]) by {
        assert(plane_holds(f.planes@[i], f.sizes()[i]));
        assert(g.planes@[i].data@ == stored_plane(f, l, c.interlaced, pl, i));
        lemma_stored_rows_len(
            f.planes@[i].data@,
            f.planes@[i].stride as int,
            f.sizes()[i].1,
            f.sizes()[i].0,
            |y: int, b: int| out_byte(f.format, pl, l.plane_row_of(y, c.interlaced), i, b),
        );
    }
}

/// A preview has room for its rows.
pub proof fn lemma_preview_planar(pv: Frame, l: Layout, data: Seq<u8>, alpha: bool)
    requires
        l.wf(),
        is_preview_of(pv, l, parse_of(l, data)->Ok_0, alpha),
    ensures
        planar(pv),
        pv.width <= 4096,
        pv.height <= 4096,
        alpha ==> plane_holds(pv.planes@[3], (pv.width as int, pv.height as int)),
{
    let sizes = pv.sizes();
    assert forall|i: int| 0 <= i < sizes.len() implies #[trigger] plane_holds(pv.planes@[i], sizes[i]) by {
        let (row, rows) = sizes[i];
        assert(pv.planes@[i].stride == row);
        assert(row * rows == row * (rows - 1) + row) by (nonlinear_arith);
        assert(row * rows >= 0) by (nonlinear_arith)
            requires
                row >= 0,
                rows >= 0,
        ;
    }
    if alpha {
        assert(plane_holds(pv.planes@[3], sizes[3]));
    }
}

/// Appends planes one behind the other.
fn join_planes(planes: &Vec<Plane>, out: &mut Vec<u8>)
    ensures
        final(out)@ == old(out)@ + planes_joined(planes@, planes@.len() as int),
{
    let mut i: usize = 0;
    assert(out@ =~= old(out)@ + planes_joined(planes@, 0));
    while i < planes.len()
        invariant
            i <= planes@.len(),
            out@ == old(out)@ + planes_joined(planes@, i as int),
        decreases planes@.len() - i,
    {
        out.extend_from_slice(planes[i].data.as_slice());
        assert(out@ =~= old(out)@ + planes_joined(planes@, i + 1));
        i = i + 1;
    }
}

/// Decodes a preview into `out`.
fn preview_into(
    dec: &mut Decoder,
    data: &[u8],
    v: &VideoHeader,
    format: VideoFormat,
    out: &mut Vec<u8>,
) -> (r: Result<(usize, usize), DecodeError>)
    requires
        old(dec).wf(),
        old(dec).layout().wf(),
        v.flags.has(VideoFlags::PREVIEW),
        format != VideoFormat::P216,
        format != VideoFormat::Pa16,
        format == VideoFormat::Uyva ==> v.flags.has(VideoFlags::ALPHA),
        v.height == old(dec).layout().height,
    ensures
        *final(dec) == *old(dec),
        match data_fault(old(dec).layout(), data@, *v, format) {
            Some(e) => r == Err::<(usize, usize), DecodeError>(DecodeError::Video(e)) && final(out)@ == old(out)@,
            None => {
                &&& r is Ok
                &&& shows(
                    old(dec).layout(),
                    data@,
                    *v,
                    format,
                    (r->Ok_0.0 as int, r->Ok_0.1 as int),
                    final(out)@,
                )
                &&& r->Ok_0.0 <= 4096
            },
        },
{
    let ghost l = dec.layout();
    let alpha: bool = v.flags.contains(VideoFlags::ALPHA);
    let keep_alpha: bool = alpha && !matches!(format, VideoFormat::Uyvy);
    let pv: Frame = match dec.decode_preview(data, keep_alpha) {
        Ok(f) => f,
        Err(e) => {
            return Err(DecodeError::Video(e));
        },
    };
    proof {
        lemma_preview_planar(pv, l, data@, keep_alpha);
    }
    out.clear();
    match format {
        VideoFormat::Bgra => {
            if bt601(v.color_space, v.height as usize) {
                to_bgra(&pv, &YUV_RGB_601, out);
            } else {
                to_bgra(&pv, &YUV_RGB_709, out);
            }
        },
        VideoFormat::Uyva => {
            pack_uyvy(&pv, out);
            copy_plane(&pv.planes[3], pv.width, pv.height, out);
        },
        _ => {
            pack_uyvy(&pv, out);
        },
    }
    proof {
        let t = matrix_for(v.color_space, v.height as int);
        assert(out@ =~= preview_bytes(pv, format, t));
        assert(is_preview_of(pv, l, parse_of(l, data@)->Ok_0, keeps_alpha(*v, format)));
    }
    Ok((pv.width, pv.height))
}

/// Decodes a full frame straight into the buffer of a picture in UYVY.
fn uyvy_into(dec: &mut Decoder, data: &[u8], v: &VideoHeader, out: &mut Vec<u8>) -> (r: Result<(), DecodeError>)
    requires
        old(dec).wf(),
        old(dec).layout().wf(),
        !v.flags.has(VideoFlags::PREVIEW),
        layout_for(old(dec).layout(), *v),
    ensures
        *final(dec) == *old(dec),
        match data_fault(old(dec).layout(), data@, *v, VideoFormat::Uyvy) {
            Some(e) => {
                &&& r == Err::<(), DecodeError>(DecodeError::Video(e))
                &&& final(out)@ == bytes_left(old(out)@, *v, VideoFormat::Uyvy)
            },
            None => r is Ok && shows(
                old(dec).layout(),
                data@,
                *v,
                VideoFormat::Uyvy,
                (v.width as int, v.height as int),
                final(out)@,
            ),
        },
{
    let ghost l = dec.layout();
    let (w, h): (usize, usize) = (v.width as usize, v.height as usize);
    let mut buffer: Vec<u8> = Vec::new();
    std::mem::swap(out, &mut buffer);
    buffer.clear();
    proof {
        assert(2 * w * h <= 2 * 7680 * 4320) by (nonlinear_arith)
            requires
                0 <= w <= 7680,
                0 <= h <= 4320,
        ;
    }
    buffer.resize(2 * w * h, 0);
    assert(buffer@ =~= Seq::new((2 * w * h) as nat, |j: int| 0u8));
    let mut planes: Vec<Plane> = Vec::new();
    planes.push(Plane { data: buffer, stride: 2 * w });
    let mut f: Frame = Frame { width: w, height: h, format: PixelFormat::Uyvy, interlaced: false, planes };
    let ghost blank = f;
    proof {
        assert(f.is_blank(w as int, h as int, PixelFormat::Uyvy));
        lemma_blank(f, l, data@, PixelFormat::Uyvy);
    }
    let got: Result<(), crate::vmx::error::Error> = dec.decode_into(data, &mut f);
    let ghost g = f;
    match f.planes.pop() {
        Some(p) => {
            *out = p.data;
        },
        None => {},
    }
    match got {
        Ok(()) => {
            proof {
                lemma_decoded_valid(blank, g, l, data@);
                assert(planes_joined(g.planes@, 1) =~= g.planes@[0].data@) by {
                    assert(planes_joined(g.planes@, 0) =~= Seq::empty());
                }
                assert(decoded_into(l, data@, blank, g));
            }
            Ok(())
        },
        Err(e) => Err(DecodeError::Video(e)),
    }
}

/// Decodes a full frame through another frame.
fn picture_into(
    dec: &mut Decoder,
    data: &[u8],
    v: &VideoHeader,
    format: VideoFormat,
    out: &mut Vec<u8>,
) -> (r: Result<(), DecodeError>)
    requires
        old(dec).wf(),
        old(dec).layout().wf(),
        !v.flags.has(VideoFlags::PREVIEW),
        layout_for(old(dec).layout(), *v),
    ensures
        *final(dec) == *old(dec),
        match data_fault(old(dec).layout(), data@, *v, format) {
            Some(e) => r == Err::<(), DecodeError>(DecodeError::Video(e)) && final(out)@ == old(out)@,
            None => r is Ok && shows(
                old(dec).layout(),
                data@,
                *v,
                format,
                (v.width as int, v.height as int),
                final(out)@,
            ),
        },
{
    let ghost l = dec.layout();
    let (w, h): (usize, usize) = (v.width as usize, v.height as usize);
    let alpha: bool = v.flags.contains(VideoFlags::ALPHA);
    let pixel: PixelFormat = match format {
        VideoFormat::Uyvy => PixelFormat::Uyvy,
        VideoFormat::Uyva => PixelFormat::Uyva,
        VideoFormat::P216 => PixelFormat::P216,
        VideoFormat::Pa16 => PixelFormat::Pa16,
        VideoFormat::Bgra => if alpha {
            PixelFormat::Yuva422p
        } else {
            PixelFormat::Yuv422p
        },
    };
    proof {
        assert(2 * w * h <= 2 * 7680 * 4320) by (nonlinear_arith)
            requires
                0 <= w <= 7680,
                0 <= h <= 4320,
        ;
    }
    let mut f: Frame = Frame::new(w, h, pixel);
    let ghost blank = f;
    proof {
        lemma_blank(f, l, data@, pixel);
    }
    match dec.decode_into(data, &mut f) {
        Ok(()) => {},
        Err(e) => {
            return Err(DecodeError::Video(e));
        },
    }
    proof {
        lemma_decoded_valid(blank, f, l, data@);
    }
    out.clear();
    match format {
        VideoFormat::Bgra => {
            if bt601(v.color_space, h) {
                to_bgra(&f, &YUV_RGB_601, out);
            } else {
                to_bgra(&f, &YUV_RGB_709, out);
            }
        },
        _ => {
            join_planes(&f.planes, out);
        },
    }
    proof {
        let t = matrix_for(v.color_space, v.height as int);
        assert(out@ =~= picture_bytes(f, format, t));
        assert(decoded_into(l, data@, blank, f));
    }
    Ok(())
}

/// Decodes received frames, keeping the codec and buffers between calls.
pub struct MediaDecoder {
    preferred: PreferredVideoFormat,
    threads: usize,
    vmx: Option<(usize, usize, Decoder)>,
    video: VideoFrame,
    audio: AudioFrame,
    metadata: MetadataFrame,
}

/// Whether a metadata frame is meant for the application.
pub open spec fn for_application(data: Seq<u8>) -> bool {
    !is_command(data) && !is_quality_text(data) && (is_info_text(data) || !is_redirect_text(data))
}

impl MediaDecoder {
    /// The codec fits its geometry.
    pub closed spec fn wf(self) -> bool {
        &&& self.threads >= 1
        &&& self.vmx matches Some(d) ==> {
            &&& d.2.wf()
            &&& d.2.layout().wf()
            &&& d.2.layout().width == d.0
            &&& d.2.layout().height == d.1
            &&& d.2.threads() == self.threads
        }
    }

    /// The video layout preference.
    pub closed spec fn preference(self) -> PreferredVideoFormat {
        self.preferred
    }

    /// The number of worker threads.
    pub closed spec fn workers(self) -> int {
        self.threads as int
    }

    /// A decoder that delivers video in the `preferred` layout, using one
    /// thread.
    pub fn new(preferred: PreferredVideoFormat) -> (r: Self)
        ensures
            r.wf(),
            r.preference() == preferred,
            r.workers() == 1,
    {
        MediaDecoder {
            preferred,
            threads: 1,
            vmx: None,
            video: VideoFrame::default(),
            audio: AudioFrame::default(),
            metadata: MetadataFrame::default(),
        }
    }

    /// The video layout preference.
    pub fn preferred(&self) -> (r: PreferredVideoFormat)
        ensures
            r == self.preference(),
    {
        self.preferred
    }

    /// Changes the video layout preference from the next frame on.
    pub fn set_preferred(&mut self, preferred: PreferredVideoFormat)
        requires
            old(self).wf(),
        ensures
            final(self).wf(),
            final(self).preference() == preferred,
            final(self).workers() == old(self).workers(),
    {
        self.preferred = preferred;
    }

    /// Worker threads for slice-parallel decoding (default 1).
    pub fn set_threads(&mut self, threads: usize)
        requires
            old(self).wf(),
        ensures
            final(self).wf(),
            final(self).preference() == old(self).preference(),
            final(self).workers() == (if threads == 0 {
                1
            } else {
                threads as int
            }),
    {
        let n: usize = if threads == 0 {
            1
        } else {
            threads
        };
        self.threads = n;
        let mut slot: Option<(usize, usize, Decoder)> = None;
        std::mem::swap(&mut slot, &mut self.vmx);
        match slot {
            Some((w, h, d)) => {
                let mut d: Decoder = d;
                d.set_threads(n);
                self.vmx = Some((w, h, d));
            },
            None => {},
        }
    }

    /// The codec for a frame size: the last one if it fits, else a new one.
    fn codec_for(&mut self, v: &VideoHeader) -> (r: Result<Decoder, DecodeError>)
        requires
            old(self).wf(),
            v.width >= 0,
            v.height >= 0,
        ensures
            final(self).wf(),
            final(self).preference() == old(self).preference(),
            final(self).workers() == old(self).workers(),
            match r {
                Ok(d) => d.wf() && layout_for(d.layout(), *v) && d.threads() == old(self).workers(),
                Err(e) => {
                    &&& !codable(v.width as int, v.height as int)
                    &&& e == (DecodeError::InvalidSize { width: v.width, height: v.height })
                },
            },
    {
        let (w, h): (usize, usize) = (v.width as usize, v.height as usize);
        let mut slot: Option<(usize, usize, Decoder)> = None;
        std::mem::swap(&mut slot, &mut self.vmx);
        match slot {
            Some(d) => {
                if d.0 == w && d.1 == h {
                    return Ok(d.2);
                }
                self.vmx = Some(d);
            },
            None => {},
        }
        match Decoder::new(w, h) {
            Ok(d) => {
                let mut d: Decoder = d;
                d.set_threads(self.threads);
                Ok(d)
            },
            Err(_) => Err(DecodeError::InvalidSize { width: v.width, height: v.height }),
        }
    }

    /// Decodes a video frame into `out`, reusing its buffers.
    pub fn decode_video(&mut self, frame: &OwnedFrame, out: &mut VideoFrame) -> (r: Result<(), DecodeError>)
        requires
            old(self).wf(),
        ensures
            final(self).wf(),
            final(self).preference() == old(self).preference(),
            final(self).workers() == old(self).workers(),
            decodes(old(self).preference(), frame@, *old(out), *final(out), r),
    {
        let v: VideoHeader = match frame.ext {
            ExtendedHeader::Video(v) => v,
            _ => {
                return Err(DecodeError::NotMedia);
            },
        };
        if v.codec != CODEC_VMX1 {
            return Err(DecodeError::UnsupportedCodec(v.codec));
        }
        let format: VideoFormat = match self.preferred.select(v.flags) {
            Some(f) => f,
            None => {
                return Err(DecodeError::NoMatchingFormat);
            },
        };
        if v.width < 0 || v.height < 0 {
            return Err(DecodeError::InvalidSize { width: v.width, height: v.height });
        }
        let mut dec: Decoder = match self.codec_for(&v) {
            Ok(d) => d,
            Err(e) => {
                return Err(e);
            },
        };
        let ghost l = dec.layout();
        assert(layout_for(l, v));
        let size: Result<(usize, usize), DecodeError> = if v.flags.contains(VideoFlags::PREVIEW) {
            preview_into(&mut dec, frame.data.as_slice(), &v, format, &mut out.data)
        } else {
            let got: Result<(), DecodeError> = match format {
                VideoFormat::Uyvy => uyvy_into(&mut dec, frame.data.as_slice(), &v, &mut out.data),
                _ => picture_into(&mut dec, frame.data.as_slice(), &v, format, &mut out.data),
            };
            match got {
                Ok(()) => Ok((v.width as usize, v.height as usize)),
                Err(e) => Err(e),
            }
        };
        self.vmx = Some((v.width as usize, v.height as usize, dec));
        let (ow, oh): (usize, usize) = match size {
            Ok(s) => s,
            Err(e) => {
                return Err(e);
            },
        };
        out.timestamp = frame.header.timestamp;
        out.width = ow;
        out.height = oh;
        out.format = format;
        out.stride = format.stride(ow);
        out.frame_rate_n = v.frame_rate_n;
        out.frame_rate_d = v.frame_rate_d;
        out.aspect_ratio = v.aspect_ratio;
        out.color_space = v.color_space;
        out.flags = v.flags;
        out.source_width = v.width as usize;
        out.source_height = v.height as usize;
        out.metadata.clear();
        out.metadata.extend_from_slice(frame.metadata.as_slice());
        assert(out.metadata@ =~= frame.metadata@);
        assert(is_video_of(*out, l, frame@, v, format));
        Ok(())
    }

    /// Decodes any frame into buffers owned by the decoder. Returns `Ok(None)`
    /// for metadata the connection consumes itself (commands, quality settings,
    /// redirects).
    pub fn decode(&mut self, frame: &OwnedFrame) -> (r: Result<Option<Media<'_>>, DecodeError>)
        requires
            old(self).wf(),
        ensures
            final(self).wf(),
            final(self).preference() == old(self).preference(),
            final(self).workers() == old(self).workers(),
            match frame.ext {
                ExtendedHeader::Video(_) => match r {
                    Ok(Some(Media::Video(v))) => exists|old_v: VideoFrame|
                        #[trigger] decodes(old(self).preference(), frame@, old_v, *v, Ok(())),
                    Err(e) => exists|old_v: VideoFrame, new_v: VideoFrame|
                        #[trigger] decodes(old(self).preference(), frame@, old_v, new_v, Err(e)),
                    _ => false,
                },
                ExtendedHeader::Audio(a) => match audio_fault(a, frame.data@.len() as int) {
                    Some(e) => r == Err::<Option<Media>, DecodeError>(e),
                    None => r matches Ok(Some(Media::Audio(x))) && is_audio_of(*x, frame@, a),
                },
                ExtendedHeader::Absent => if for_application(frame.data@) {
                    r matches Ok(Some(Media::Metadata(m))) && m.timestamp == frame.header.timestamp && m.xml@
                        == frame.data@ && m.sender_info == is_info_text(frame.data@)
                } else {
                    r == Ok::<Option<Media>, DecodeError>(None)
                },
            },
    {
        match frame.ext {
            ExtendedHeader::Video(_) => {
                let mut out: VideoFrame = VideoFrame::default();
                std::mem::swap(&mut out, &mut self.video);
                let ghost before = out;
                let r: Result<(), DecodeError> = self.decode_video(frame, &mut out);
                self.video = out;
                match r {
                    Ok(()) => {
                        assert(decodes(old(self).preference(), frame@, before, self.video, Ok(())));
                        Ok(Some(Media::Video(&self.video)))
                    },
                    Err(e) => {
                        assert(decodes(old(self).preference(), frame@, before, self.video, Err(e)));
                        Err(e)
                    },
                }
            },
            ExtendedHeader::Audio(_) => match decode_audio(frame, &mut self.audio) {
                Ok(()) => Ok(Some(Media::Audio(&self.audio))),
                Err(e) => Err(e),
            },
            ExtendedHeader::Absent => {
                let sender_info: bool = match classify(frame.data.as_slice()) {
                    Message::SenderInfo(_) => true,
                    Message::Application(_) => false,
                    _ => {
                        return Ok(None);
                    },
                };
                self.metadata.timestamp = frame.header.timestamp;
                self.metadata.sender_info = sender_info;
                self.metadata.xml.clear();
                self.metadata.xml.extend_from_slice(frame.data.as_slice());
                assert(self.metadata.xml@ =~= frame.data@);
                Ok(Some(Media::Metadata(&self.metadata)))
            },
        }
    }
}

} // verus!
