//! Encoding video for the wire.

use crate::frame::{ext_len, ext_type, frame_bytes, ExtendedHeader, VideoFlags, VideoHeader, CODEC_VMX1};
use crate::vmx::decoder::Decoder;
use crate::vmx::encoder::{fresh, Encoder, EncoderConfig, EncoderState, Profile};
use crate::vmx::error::Error;
use crate::vmx::frame::{alpha_format, deep_format, Frame};
use crate::vmx::layout::{codable, framed, parse_of, ContainerView, Layout};
use std::sync::Arc;
use vstd::prelude::*;

verus! {

/// Frames larger than this are dropped, not sent.
pub const MAX_FRAME_LEN: usize = 10_485_760;

/// Video frame properties that travel in the header.
#[derive(Clone, Copy, Debug, PartialEq, Eq, Structural)]
pub struct VideoParams {
    /// Frame rate numerator.
    pub frame_rate_n: i32,
    /// Frame rate denominator.
    pub frame_rate_d: i32,
    /// The bits of the display aspect ratio, width / height.
    pub aspect_ratio: u32,
    /// 0 undefined, 601 or 709.
    pub color_space: i32,
    /// Premultiplied alpha (only meaningful for formats with alpha).
    pub premultiplied: bool,
}

/// A frame for the wire, unless it is too large to be sent.
pub open spec fn parcel_of(timestamp: i64, ext: ExtendedHeader, data: Seq<u8>, metadata: Seq<u8>) -> Option<Seq<u8>> {
    if 16 + ext_len(ext_type(ext)) + data.len() + metadata.len() <= MAX_FRAME_LEN {
        Some(frame_bytes(timestamp, ext, data, metadata))
    } else {
        None
    }
}

/// A frame for the wire as plain values.
pub open spec fn parcel_view(p: Option<Arc<Vec<u8>>>) -> Option<Seq<u8>> {
    match p {
        Some(b) => Some(b@),
        None => None,
    }
}

/// Makes a frame for the wire, unless it is too large to be sent.
pub fn make_parcel(timestamp: i64, ext: &ExtendedHeader, data: &[u8], metadata: &[u8]) -> (r: Option<Arc<Vec<u8>>>)
    requires
        metadata@.len() <= 65535,
    ensures
        parcel_view(r) == parcel_of(timestamp, *ext, data@, metadata@),
{
    let extra: usize = 16 + ext.frame_type().extended_header_len() + metadata.len();
    if data.len() > MAX_FRAME_LEN || extra + data.len() > MAX_FRAME_LEN {
        return None;
    }
    let mut out: Vec<u8> = Vec::new();
    crate::frame::write(timestamp, ext, data, metadata, &mut out);
    assert(out@ =~= frame_bytes(timestamp, *ext, data@, metadata@));
    Some(Arc::new(out))
}

/// The flags of a frame.
pub open spec fn video_flags(interlaced: bool, alpha: bool, premultiplied: bool, deep: bool, preview: bool) -> u32 {
    (if interlaced {
        VideoFlags::INTERLACED
    } else {
        0
    }) | (if alpha {
        VideoFlags::ALPHA
    } else {
        0
    }) | (if alpha && premultiplied {
        VideoFlags::PREMULTIPLIED
    } else {
        0
    }) | (if deep {
        VideoFlags::HIGH_BIT_DEPTH
    } else {
        0
    }) | (if preview {
        VideoFlags::PREVIEW
    } else {
        0
    })
}

/// Each flag tells of the frame what it is named after.
pub proof fn law_flags(interlaced: bool, alpha: bool, premultiplied: bool, deep: bool, preview: bool)
    ensures
        ({
            let f = VideoFlags(video_flags(interlaced, alpha, premultiplied, deep, preview));
            &&& f.has(VideoFlags::INTERLACED) == interlaced
            &&& f.has(VideoFlags::ALPHA) == alpha
            &&& f.has(VideoFlags::PREMULTIPLIED) == (alpha && premultiplied)
            &&& f.has(VideoFlags::HIGH_BIT_DEPTH) == deep
            &&& f.has(VideoFlags::PREVIEW) == preview
        }),
{
    let a: u32 = if interlaced { 1 } else { 0 };
    let b: u32 = if alpha { 2 } else { 0 };
    let c: u32 = if alpha && premultiplied { 4 } else { 0 };
    let d: u32 = if deep { 16 } else { 0 };
    let e: u32 = if preview { 8 } else { 0 };
    lemma_flags(a, b, c, d, e);
}

/// Disjoint bits do not disturb each other.
proof fn lemma_flags(a: u32, b: u32, c: u32, d: u32, e: u32)
    by (bit_vector)
    requires
        a == 0 || a == 1,
        b == 0 || b == 2,
        c == 0 || c == 4,
        d == 0 || d == 16,
        e == 0 || e == 8,
    ensures
        ((a | b | c | d | e) & 1u32 == 1u32) == (a == 1),
        ((a | b | c | d | e) & 2u32 == 2u32) == (b == 2),
        ((a | b | c | d | e) & 4u32 == 4u32) == (c == 4),
        ((a | b | c | d | e) & 16u32 == 16u32) == (d == 16),
        ((a | b | c | d | e) & 8u32 == 8u32) == (e == 8),
{
}

/// The header of a frame.
pub open spec fn video_header(f: Frame, p: VideoParams, preview: bool) -> VideoHeader {
    VideoHeader {
        codec: CODEC_VMX1,
        width: f.width as i32,
        height: f.height as i32,
        frame_rate_n: p.frame_rate_n,
        frame_rate_d: p.frame_rate_d,
        aspect_ratio: p.aspect_ratio,
        flags: VideoFlags(
            video_flags(f.interlaced, alpha_format(f.format), p.premultiplied, deep_format(f.format), preview),
        ),
        color_space: p.color_space,
    }
}

/// Makes the header of a frame.
fn make_header(f: &Frame, p: &VideoParams, preview: bool) -> (r: VideoHeader)
    requires
        f.width <= i32::MAX,
        f.height <= i32::MAX,
    ensures
        r == video_header(*f, *p, preview),
{
    let a: u32 = if f.interlaced {
        VideoFlags::INTERLACED
    } else {
        0
    };
    let alpha: bool = f.format.has_alpha();
    let b: u32 = if alpha {
        VideoFlags::ALPHA
    } else {
        0
    };
    let c: u32 = if alpha && p.premultiplied {
        VideoFlags::PREMULTIPLIED
    } else {
        0
    };
    let d: u32 = if f.format.is_10bit() {
        VideoFlags::HIGH_BIT_DEPTH
    } else {
        0
    };
    let e: u32 = if preview {
        VideoFlags::PREVIEW
    } else {
        0
    };
    VideoHeader {
        codec: CODEC_VMX1,
        width: f.width as i32,
        height: f.height as i32,
        frame_rate_n: p.frame_rate_n,
        frame_rate_d: p.frame_rate_d,
        aspect_ratio: p.aspect_ratio,
        flags: VideoFlags(a | b | c | d | e),
        color_space: p.color_space,
    }
}

/// A frame for the wire, and one for the connections that want previews.
pub struct VideoParcel {
    /// The full frame, unless it is too large.
    pub full: Option<Arc<Vec<u8>>>,
    /// The preview, if one was asked for.
    pub preview: Option<Option<Arc<Vec<u8>>>>,
}

/// The same as plain values.
#[verifier::ext_equal]
pub struct VideoParcelView {
    /// The full frame.
    pub full: Option<Seq<u8>>,
    /// The preview.
    pub preview: Option<Option<Seq<u8>>>,
}

impl View for VideoParcel {
    type V = VideoParcelView;

    open spec fn view(&self) -> VideoParcelView {
        VideoParcelView {
            full: parcel_view(self.full),
            preview: match self.preview {
                Some(p) => Some(parcel_view(p)),
                None => None,
            },
        }
    }
}

/// The encoder of a sender: the size and profile it was made for, and what it
/// holds.
pub struct Running {
    /// Width.
    pub width: usize,
    /// Height.
    pub height: usize,
    /// Profile.
    pub profile: Profile,
    /// What it holds.
    pub state: EncoderState,
}

/// The encoder that a frame is encoded with: the one that runs, if it fits; one
/// with the new profile and the running quality, if only the profile changed;
/// else a new one.
pub open spec fn encoder_for(
    running: Option<Running>,
    profile: Profile,
    width: usize,
    height: usize,
    l: Layout,
) -> EncoderState {
    let made = fresh(EncoderConfig { width, height, profile, threads: 1 }, l);
    match running {
        Some(r) => if r.width == width && r.height == height {
            if r.profile == profile {
                r.state
            } else {
                made.with_quality(r.state.quality.0)
            }
        } else {
            made
        },
        None => made,
    }
}

/// The frames for the wire.
pub open spec fn parcel_for(
    packet: Seq<u8>,
    c: ContainerView,
    f: Frame,
    p: VideoParams,
    timestamp: i64,
    metadata: Seq<u8>,
    wants_preview: bool,
) -> VideoParcelView {
    VideoParcelView {
        full: parcel_of(timestamp, ExtendedHeader::Video(video_header(f, p, false)), packet, metadata),
        preview: if wants_preview {
            Some(
                parcel_of(
                    timestamp,
                    ExtendedHeader::Video(video_header(f, p, true)),
                    packet.take(c.header_len + framed(c.dc).len()),
                    metadata,
                ),
            )
        } else {
            None
        },
    }
}

/// What encoding a frame with an encoder does.
pub open spec fn encodes(
    st: EncoderState,
    f: Frame,
    p: VideoParams,
    timestamp: i64,
    metadata: Seq<u8>,
    wants_preview: bool,
    l: Layout,
    after: EncoderState,
    r: Result<VideoParcelView, Error>,
) -> bool {
    match st.refuses(f) {
        Some(e) => r == Err::<VideoParcelView, Error>(e) && after == st,
        None => {
            &&& after == st.after(f)
            &&& match parse_of(l, st.packet(f)) {
                Ok(c) => r == Ok::<VideoParcelView, Error>(
                    parcel_for(st.packet(f), c, f, p, timestamp, metadata, wants_preview),
                ),
                Err(e) => if wants_preview {
                    r == Err::<VideoParcelView, Error>(e)
                } else {
                    r is Ok && r->Ok_0.preview is None && r->Ok_0.full == parcel_of(
                        timestamp,
                        ExtendedHeader::Video(video_header(f, p, false)),
                        st.packet(f),
                        metadata,
                    )
                },
            }
        },
    }
}

/// The geometry of a frame.
pub open spec fn layout_of(l: Layout, f: Frame) -> bool {
    l.wf() && l.width == f.width && l.height == f.height
}

/// What producing a frame does to the encoder of a sender, and what comes out.
pub open spec fn produces(
    before: Option<Running>,
    profile: Profile,
    f: Frame,
    p: VideoParams,
    timestamp: i64,
    metadata: Seq<u8>,
    wants_preview: bool,
    after: Option<Running>,
    r: Result<VideoParcelView, Error>,
) -> bool {
    if !codable(f.width as int, f.height as int) {
        &&& r == Err::<VideoParcelView, Error>(Error::InvalidDimensions { width: f.width, height: f.height })
        &&& after == before
    } else {
        &&& after is Some
        &&& after->0.width == f.width
        &&& after->0.height == f.height
        &&& after->0.profile == profile
        &&& exists|l: Layout, m: Layout|
            {
                &&& #[trigger] layout_of(l, f)
                &&& #[trigger] layout_of(m, f)
                &&& encodes(
                    encoder_for(before, profile, f.width, f.height, l),
                    f,
                    p,
                    timestamp,
                    metadata,
                    wants_preview,
                    m,
                    after->0.state,
                    r,
                )
            }
    }
}

/// A result as plain values.
pub open spec fn produced(r: Result<VideoParcel, Error>) -> Result<VideoParcelView, Error> {
    match r {
        Ok(p) => Ok(p@),
        Err(e) => Err(e),
    }
}

/// Encodes the video of a sender, keeping the encoder between frames.
pub struct VideoState {
    encoder: Option<(usize, usize, Profile, Encoder)>,
    decoder: Option<(usize, usize, Decoder)>,
    buf: Vec<u8>,
}

impl VideoState {
    /// The encoder, as plain values.
    pub closed spec fn running(self) -> Option<Running> {
        match self.encoder {
            Some(e) => Some(Running { width: e.0, height: e.1, profile: e.2, state: e.3@ }),
            None => None,
        }
    }

    /// The codecs fit their sizes.
    pub closed spec fn wf(self) -> bool {
        &&& self.encoder matches Some(e) ==> {
            &&& e.3.wf()
            &&& e.3@.layout.wf()
            &&& e.3@.layout.width == e.0
            &&& e.3@.layout.height == e.1
        }
        &&& self.decoder matches Some(d) ==> {
            &&& d.2.wf()
            &&& d.2.layout().wf()
            &&& d.2.layout().width == d.0
            &&& d.2.layout().height == d.1
        }
    }

    /// No encoder yet.
    pub fn new() -> (r: Self)
        ensures
            r.wf(),
            r.running() is None,
    {
        VideoState { encoder: None, decoder: None, buf: Vec::new() }
    }

    /// The encoder for a frame.
    fn encoder(&mut self, profile: Profile, frame: &Frame) -> (r: Result<Encoder, Error>)
        requires
            old(self).wf(),
        ensures
            final(self).wf(),
            match r {
                Ok(e) => {
                    &&& codable(frame.width as int, frame.height as int)
                    &&& e.wf()
                    &&& layout_of(e@.layout, *frame)
                    &&& exists|l: Layout| #[trigger]
                        layout_of(l, *frame) && e@ == encoder_for(
                            old(self).running(),
                            profile,
                            frame.width,
                            frame.height,
                            l,
                        )
                },
                Err(e) => {
                    &&& !codable(frame.width as int, frame.height as int)
                    &&& e == (Error::InvalidDimensions { width: frame.width, height: frame.height })
                    &&& final(self).running() == old(self).running()
                },
            },
    {
        let (w, h): (usize, usize) = (frame.width, frame.height);
        let mut slot: Option<(usize, usize, Profile, Encoder)> = None;
        std::mem::swap(&mut slot, &mut self.encoder);
        let mut kept: Option<i32> = None;
        match slot {
            Some((ew, eh, ep, enc)) => {
                if ew == w && eh == h {
                    if ep == profile {
                        assert(layout_of(enc@.layout, *frame));
                        return Ok(enc);
                    }
                    // The running quality is kept across a profile change.
                    kept = Some(enc.quality());
                } else {
                    match Encoder::new(EncoderConfig { width: w, height: h, profile, threads: 1 }) {
                        Ok(e) => {
                            assert(layout_of(e@.layout, *frame));
                            return Ok(e);
                        },
                        Err(e) => {
                            self.encoder = Some((ew, eh, ep, enc));
                            return Err(e);
                        },
                    }
                }
            },
            None => {},
        }
        match Encoder::new(EncoderConfig { width: w, height: h, profile, threads: 1 }) {
            Ok(e) => {
                let ghost l = e@.layout;
                let mut e: Encoder = e;
                match kept {
                    Some(q) => e.set_quality(q),
                    None => {},
                }
                assert(layout_of(l, *frame));
                Ok(e)
            },
            Err(e) => Err(e),
        }
    }

    /// Length of the preview prefix of the compressed frame.
    fn preview_len(&mut self, w: usize, h: usize) -> (r: Result<usize, Error>)
        requires
            old(self).wf(),
            codable(w as int, h as int),
        ensures
            final(self).wf(),
            final(self).encoder == old(self).encoder,
            final(self).buf == old(self).buf,
            exists|m: Layout|
                {
                    &&& m.wf() && m.width == w && m.height == h
                    &&& match #[trigger] parse_of(m, old(self).buf@) {
                        Ok(c) => r is Ok && r->Ok_0 == c.header_len + framed(c.dc).len() && r->Ok_0 <= old(
                            self,
                        ).buf@.len(),
                        Err(e) => r == Err::<usize, Error>(e),
                    }
                },
    {
        let mut slot: Option<(usize, usize, Decoder)> = None;
        std::mem::swap(&mut slot, &mut self.decoder);
        let fits: bool = match &slot {
            Some(d) => d.0 == w && d.1 == h,
            None => false,
        };
        let dec: Decoder = if fits {
            match slot {
                Some(d) => d.2,
                None => {
                    return Err(Error::Truncated);
                },
            }
        } else {
            match Decoder::new(w, h) {
                Ok(d) => d,
                Err(e) => {
                    return Err(e);
                },
            }
        };
        let ghost m = dec.layout();
        let r: Result<usize, Error> = dec.preview_len(self.buf.as_slice());
        assert(parse_of(m, self.buf@) is Ok || parse_of(m, self.buf@) is Err);
        self.decoder = Some((w, h, dec));
        r
    }

    /// Encodes a frame and makes the frames for the wire. `metadata` is
    /// per-frame XML.
    pub fn produce(
        &mut self,
        profile: Profile,
        frame: &Frame,
        params: &VideoParams,
        timestamp: i64,
        metadata: &[u8],
        wants_preview: bool,
    ) -> (r: Result<VideoParcel, Error>)
        requires
            old(self).wf(),
            metadata@.len() <= 65535,
        ensures
            final(self).wf(),
            produces(
                old(self).running(),
                profile,
                *frame,
                *params,
                timestamp,
                metadata@,
                wants_preview,
                final(self).running(),
                produced(r),
            ),
    {
        let ghost before = self.running();
        let mut enc: Encoder = match self.encoder(profile, frame) {
            Ok(e) => e,
            Err(e) => {
                return Err(e);
            },
        };
        let ghost st = enc@;
        let ghost l = choose|l: Layout| #[trigger]
            layout_of(l, *frame) && st == encoder_for(before, profile, frame.width, frame.height, l);
        self.buf.clear();
        let got: Result<(), Error> = enc.encode_into(frame, &mut self.buf);
        let ghost after = enc@;
        self.encoder = Some((frame.width, frame.height, profile, enc));
        match got {
            Ok(()) => {},
            Err(e) => {
                proof {
                    assert(layout_of(l, *frame));
                    assert(encodes(
                            st,
                            *frame,
                            *params,
                            timestamp,
                            metadata@,
                            wants_preview,
                            l,
                            after,
                            Err::<VideoParcelView, Error>(e),
                        ));
                }
                return Err(e);
            },
        }
        let ghost packet = st.packet(*frame);
        assert(self.buf@ =~= packet);
        let full: Option<Arc<Vec<u8>>> = make_parcel(
            timestamp,
            &ExtendedHeader::Video(make_header(frame, params, false)),
            self.buf.as_slice(),
            metadata,
        );
        if !wants_preview {
            let out: VideoParcel = VideoParcel { full, preview: None };
            proof {
                assert(layout_of(l, *frame));
                assert(encodes(st, *frame, *params, timestamp, metadata@, wants_preview, l, after, Ok(out@)));
            }
            return Ok(out);
        }
        let len: Result<usize, Error> = self.preview_len(frame.width, frame.height);
        let ghost m = choose|m: Layout|
            {
                &&& m.wf() && m.width == frame.width && m.height == frame.height
                &&& match #[trigger] parse_of(m, packet) {
                    Ok(c) => len is Ok && len->Ok_0 == c.header_len + framed(c.dc).len() && len->Ok_0
                        <= packet.len(),
                    Err(e) => len == Err::<usize, Error>(e),
                }
            };
        assert(layout_of(l, *frame) && layout_of(m, *frame));
        match len {
            Err(e) => {
                assert(encodes(
                        st,
                        *frame,
                        *params,
                        timestamp,
                        metadata@,
                        wants_preview,
                        m,
                        after,
                        Err::<VideoParcelView, Error>(e),
                    ));
                Err(e)
            },
            Ok(n) => {
                let prefix: &[u8] = vstd::slice::slice_subrange(self.buf.as_slice(), 0, n);
                assert(prefix@ =~= packet.take(n as int));
                let preview: Option<Arc<Vec<u8>>> = make_parcel(
                    timestamp,
                    &ExtendedHeader::Video(make_header(frame, params, true)),
                    prefix,
                    metadata,
                );
                let out: VideoParcel = VideoParcel { full, preview: Some(preview) };
                proof {
                    let c = parse_of(m, packet)->Ok_0;
                    assert(out@ =~= parcel_for(packet, c, *frame, *params, timestamp, metadata@, true));
                    assert(encodes(st, *frame, *params, timestamp, metadata@, wants_preview, m, after, Ok(out@)));
                }
                Ok(out)
            },
        }
    }
}

} // verus!
