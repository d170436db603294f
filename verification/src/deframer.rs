//! Incremental frame parser for a TCP byte stream.
//!
//! Every limit is explicit and every bad header is an error, so the caller can
//! drop the peer.

use crate::error::Error;
use crate::frame::{
    audio_at, ext_bytes, ext_len, ext_type, frame_bytes, frame_len_of, header_at, header_bytes,
    header_for, law_audio_round_trip, law_header_round_trip, law_video_round_trip, video_at,
    writable,
    AudioHeader, ExtendedHeader, FrameHeader, FrameType, VideoHeader, HEADER_LEN,
};
use vstd::prelude::*;
use vstd::slice::slice_subrange;

verus! {

broadcast use crate::wire::group_le_len;

/// Largest whole frame (header included) accepted.
#[derive(Clone, Copy, Debug, PartialEq, Eq, Structural)]
pub struct Limits {
    /// Header plus `DataLength`, in bytes.
    pub max_frame_len: usize,
}

impl Limits {
    /// 10 MiB: for a video connection.
    pub fn video() -> (r: Limits)
        ensures
            r.max_frame_len == 10_485_760,
    {
        Limits { max_frame_len: 10_485_760 }
    }

    /// 1 MiB: for audio and metadata connections.
    pub fn audio_or_metadata() -> (r: Limits)
        ensures
            r.max_frame_len == 1_048_576,
    {
        Limits { max_frame_len: 1_048_576 }
    }
}

/// A complete frame, copied out of the stream.
#[derive(Clone, Debug, PartialEq, Eq)]
pub struct OwnedFrame {
    /// The frame header.
    pub header: FrameHeader,
    /// The extended header matching `header.frame_type`.
    pub ext: ExtendedHeader,
    /// Payload without the per-frame metadata: compressed video, audio
    /// samples, or a metadata frame's XML.
    pub data: Vec<u8>,
    /// Per-frame metadata: the last `MetadataLength` bytes.
    pub metadata: Vec<u8>,
}

/// A complete frame.
pub struct FrameView {
    pub header: FrameHeader,
    pub ext: ExtendedHeader,
    pub data: Seq<u8>,
    pub metadata: Seq<u8>,
}

impl View for OwnedFrame {
    type V = FrameView;

    open spec fn view(&self) -> FrameView {
        FrameView {
            header: self.header,
            ext: self.ext,
            data: self.data@,
            metadata: self.metadata@,
        }
    }
}

/// The extended header at the start of a frame's body.
pub open spec fn ext_at(t: FrameType, body: Seq<u8>) -> ExtendedHeader {
    match t {
        FrameType::Metadata => ExtendedHeader::Absent,
        FrameType::Video => ExtendedHeader::Video(video_at(body)->Ok_0),
        FrameType::Audio => ExtendedHeader::Audio(audio_at(body)->Ok_0),
    }
}

/// The frame with this header in `bytes`, `len` bytes long.
pub open spec fn frame_at(h: FrameHeader, bytes: Seq<u8>, len: int) -> FrameView {
    let body = bytes.subrange(16, len);
    let split = body.len() - h.metadata_length;
    FrameView {
        header: h,
        ext: ext_at(h.frame_type, body),
        data: body.subrange(ext_len(h.frame_type), split),
        metadata: body.skip(split),
    }
}

/// The next frame of a stream and its length on the wire, `None` if more
/// bytes are needed.
pub open spec fn next_in(max: int, bytes: Seq<u8>) -> Result<Option<(FrameView, int)>, Error> {
    if bytes.len() < 16 {
        Ok(None)
    } else {
        match header_at(bytes) {
            Err(e) => Err(e),
            Ok(h) => match frame_len_of(h) {
                Err(e) => Err(e),
                Ok(len) => if len > max {
                    Err(Error::FrameTooLarge { length: len as usize, max: max as usize })
                } else if bytes.len() < len {
                    Ok(None)
                } else {
                    Ok(Some((frame_at(h, bytes, len), len)))
                },
            },
        }
    }
}

/// Splits a byte stream into frames.
#[derive(Debug)]
pub struct Deframer {
    limits: Limits,
    buf: Vec<u8>,
    start: usize,
}

impl View for Deframer {
    type V = Seq<u8>;

    /// The bytes received but not yet returned as frames.
    closed spec fn view(&self) -> Seq<u8> {
        self.buf@.skip(self.start as int)
    }
}

impl Deframer {
    /// What has been returned is in the buffer.
    pub closed spec fn wf(self) -> bool {
        self.start <= self.buf@.len()
    }

    /// The largest frame accepted.
    pub closed spec fn max(self) -> int {
        self.limits.max_frame_len as int
    }

    /// A parser that rejects frames larger than `limits`.
    pub fn new(limits: Limits) -> (r: Self)
        ensures
            r.wf(),
            r.max() == limits.max_frame_len,
            r@ == Seq::<u8>::empty(),
    {
        let r = Deframer { limits, buf: Vec::new(), start: 0 };
        assert(r@ =~= Seq::<u8>::empty());
        r
    }

    /// Appends bytes read from the socket.
    pub fn push(&mut self, bytes: &[u8])
        requires
            old(self).wf(),
        ensures
            final(self).wf(),
            final(self).max() == old(self).max(),
            final(self)@ == old(self)@ + bytes@,
    {
        if self.start > 0 && self.start == self.buf.len() {
            self.buf.clear();
            self.start = 0;
        }
        self.buf.extend_from_slice(bytes);
        assert(self@ =~= old(self)@ + bytes@);
    }

    /// Bytes received but not yet returned as frames.
    pub fn buffered(&self) -> (r: usize)
        requires
            self.wf(),
        ensures
            r == self@.len(),
    {
        self.buf.len() - self.start
    }

    /// Returns the next complete frame, `Ok(None)` if more bytes are needed,
    /// or an error once the stream is known to be bad. After an error the
    /// stream cannot be resynchronised; drop the connection.
    pub fn next_frame(&mut self) -> (r: Result<Option<OwnedFrame>, Error>)
        requires
            old(self).wf(),
        ensures
            final(self).wf(),
            final(self).max() == old(self).max(),
            match next_in(old(self).max(), old(self)@) {
                Ok(Some((f, n))) => {
                    &&& r is Ok
                    &&& r->Ok_0 is Some
                    &&& r->Ok_0->Some_0@ == f
                    &&& final(self)@ == old(self)@.skip(n)
                },
                Ok(None) => r == Ok::<Option<OwnedFrame>, Error>(None) && final(self)@ == old(self)@,
                Err(e) => r == Err::<Option<OwnedFrame>, Error>(e) && final(self)@ == old(self)@,
            },
    {
        let avail: &[u8] = slice_subrange(self.buf.as_slice(), self.start, self.buf.len());
        assert(avail@ =~= self@);
        if avail.len() < HEADER_LEN {
            return Ok(None);
        }
        let header: FrameHeader = match FrameHeader::parse(avail) {
            Ok(h) => h,
            Err(e) => {
                return Err(e);
            },
        };
        let len: usize = match header.frame_len() {
            Ok(n) => n,
            Err(e) => {
                return Err(e);
            },
        };
        if len > self.limits.max_frame_len {
            return Err(Error::FrameTooLarge { length: len, max: self.limits.max_frame_len });
        }
        if avail.len() < len {
            return Ok(None);
        }
        let body: &[u8] = slice_subrange(avail, HEADER_LEN, len);
        let skip: usize = header.frame_type.extended_header_len();
        let ext: ExtendedHeader = match header.frame_type {
            FrameType::Metadata => ExtendedHeader::Absent,
            FrameType::Video => match VideoHeader::parse(body) {
                Ok(v) => ExtendedHeader::Video(v),
                Err(e) => {
                    assert(false);
                    return Err(e);
                },
            },
            FrameType::Audio => match AudioHeader::parse(body) {
                Ok(a) => ExtendedHeader::Audio(a),
                Err(e) => {
                    assert(false);
                    return Err(e);
                },
            },
        };
        let split: usize = body.len() - header.metadata_length as usize;
        let data: Vec<u8> = vstd::slice::slice_to_vec(slice_subrange(body, skip, split));
        let metadata: Vec<u8> = vstd::slice::slice_to_vec(
            slice_subrange(body, split, body.len()),
        );
        let frame = OwnedFrame { header, ext, data, metadata };
        proof {
            let f = frame_at(header, avail@, len as int);
            assert(body@ =~= avail@.subrange(16, len as int));
            assert(frame.data@ =~= f.data);
            assert(frame.metadata@ =~= f.metadata);
        }
        self.start = self.start + len;
        if self.start > self.buf.len() / 2 {
            let rest: Vec<u8> = self.buf.split_off(self.start);
            self.buf = rest;
            self.start = 0;
        }
        assert(self@ =~= old(self)@.skip(len as int));
        Ok(Some(frame))
    }
}

// ---------------------------------------------------------------------------
// What is written is parsed back, however it arrives
// ---------------------------------------------------------------------------

/// A frame that was written is the next one in the stream, whatever follows
/// it, and exactly its own bytes are used up.
pub proof fn law_frame_round_trip(
    max: int,
    timestamp: i64,
    ext: ExtendedHeader,
    data: Seq<u8>,
    metadata: Seq<u8>,
    rest: Seq<u8>,
)
    requires
        writable(ext, data.len() as int, metadata.len() as int),
        frame_bytes(timestamp, ext, data, metadata).len() <= max,
    ensures
        next_in(max, frame_bytes(timestamp, ext, data, metadata) + rest) == Ok::<
            Option<(FrameView, int)>,
            Error,
        >(
            Some(
                (
                    (FrameView {
                        header: header_for(
                            timestamp,
                            ext,
                            data.len() as int,
                            metadata.len() as int,
                        ),
                        ext,
                        data,
                        metadata,
                    }),
                    frame_bytes(timestamp, ext, data, metadata).len() as int,
                ),
            ),
        ),
        (frame_bytes(timestamp, ext, data, metadata) + rest).skip(
            frame_bytes(timestamp, ext, data, metadata).len() as int,
        ) == rest,
{
    let h = header_for(timestamp, ext, data.len() as int, metadata.len() as int);
    let own = frame_bytes(timestamp, ext, data, metadata);
    let b = own + rest;
    let body_rest = data + metadata;
    lemma_body(ext, body_rest);
    lemma_header_len(h);
    assert(b =~= header_bytes(h) + (ext_bytes(ext) + body_rest + rest));
    law_header_round_trip(h, ext_bytes(ext) + body_rest + rest);
    lemma_own_frame(h, ext, data, metadata, rest);
    assert(b.skip(own.len() as int) =~= rest);
}

proof fn lemma_header_len(h: FrameHeader)
    ensures
        header_bytes(h).len() == 16,
{
}

/// The extended header is found at the start of the body.
proof fn lemma_body(ext: ExtendedHeader, rest: Seq<u8>)
    ensures
        ext_bytes(ext).len() == ext_len(ext_type(ext)),
        ext_at(ext_type(ext), ext_bytes(ext) + rest) == ext,
{
    match ext {
        ExtendedHeader::Video(v) => {
            law_video_round_trip(v, rest);
        },
        ExtendedHeader::Audio(a) => {
            law_audio_round_trip(a, rest);
        },
        ExtendedHeader::Absent => {},
    }
}

/// The parts of a frame are cut where they were put together.
proof fn lemma_own_frame(
    h: FrameHeader,
    ext: ExtendedHeader,
    data: Seq<u8>,
    metadata: Seq<u8>,
    rest: Seq<u8>,
)
    requires
        h.frame_type == ext_type(ext),
        h.metadata_length == metadata.len(),
        h.data_length == ext_len(ext_type(ext)) + data.len() + metadata.len(),
        header_bytes(h).len() == 16,
    ensures
        frame_at(
            h,
            header_bytes(h) + (ext_bytes(ext) + (data + metadata) + rest),
            16 + h.data_length as int,
        ) == (FrameView { header: h, ext, data, metadata }),
{
    let b = header_bytes(h) + (ext_bytes(ext) + (data + metadata) + rest);
    lemma_body(ext, data + metadata);
    let body = b.subrange(16, 16 + h.data_length as int);
    assert(body =~= ext_bytes(ext) + (data + metadata));
    let f = frame_at(h, b, 16 + h.data_length as int);
    assert(f.data =~= data);
    assert(f.metadata =~= metadata);
}

/// What arrives later does not change what has been decided: a frame that is
/// complete stays the next frame, and a bad stream stays bad.
pub proof fn law_more_bytes(max: int, bytes: Seq<u8>, more: Seq<u8>)
    ensures
        match next_in(max, bytes) {
            Ok(Some((f, n))) => {
                &&& next_in(max, bytes + more) == Ok::<Option<(FrameView, int)>, Error>(Some((f, n)))
                &&& (bytes + more).skip(n) == bytes.skip(n) + more
            },
            Ok(None) => true,
            Err(e) => next_in(max, bytes + more) == Err::<Option<(FrameView, int)>, Error>(e),
        },
{
    let all = bytes + more;
    if bytes.len() >= 16 {
        assert(header_at(all) == header_at(bytes));
        match next_in(max, bytes) {
            Ok(Some((f, n))) => {
                assert(all.subrange(16, n) =~= bytes.subrange(16, n));
                assert(all.skip(n) =~= bytes.skip(n) + more);
            },
            _ => {},
        }
    }
}

/// Every frame is consistent with its header: the parts add up to the length
/// that the header gives.
pub proof fn law_frame_parts(max: int, bytes: Seq<u8>)
    ensures
        match next_in(max, bytes) {
            Ok(Some((f, n))) => {
                &&& frame_len_of(f.header) == Ok::<int, Error>(n)
                &&& n == 16 + ext_len(f.header.frame_type) + f.data.len() + f.metadata.len()
                &&& n <= max
                &&& n <= bytes.len()
                &&& ext_type(f.ext) == f.header.frame_type
            },
            _ => true,
        },
{
}

/// The frames of a whole stream.
pub open spec fn all_frames(max: int, bytes: Seq<u8>) -> Seq<FrameView>
    decreases bytes.len(),
{
    match next_in(max, bytes) {
        Ok(Some((f, n))) => if 0 < n <= bytes.len() {
            seq![f] + all_frames(max, bytes.skip(n))
        } else {
            Seq::empty()
        },
        _ => Seq::empty(),
    }
}

/// Feeding a stream in two parts, taking out every frame after each, gives
/// the frames of the whole stream: how the bytes are cut up does not matter.
pub proof fn law_chunks(max: int, a: Seq<u8>, b: Seq<u8>)
    requires
        !stream_fails(max, a),
    ensures
        all_frames(max, a + b) == all_frames(max, a) + all_frames(max, left_over(max, a) + b),
    decreases a.len(),
{
    law_more_bytes(max, a, b);
    law_frame_parts(max, a);
    match next_in(max, a) {
        Ok(Some((f, n))) => {
            law_chunks(max, a.skip(n), b);
            assert((a + b).skip(n) == a.skip(n) + b);
            assert(seq![f] + (all_frames(max, a.skip(n)) + all_frames(
                max,
                left_over(max, a.skip(n)) + b,
            )) =~= seq![f] + all_frames(max, a.skip(n)) + all_frames(
                max,
                left_over(max, a.skip(n)) + b,
            ));
        },
        _ => {
            assert(Seq::<FrameView>::empty() + all_frames(max, a + b) =~= all_frames(max, a + b));
        },
    }
}

/// What is left after every complete frame has been taken.
pub open spec fn left_over(max: int, bytes: Seq<u8>) -> Seq<u8>
    decreases bytes.len(),
{
    match next_in(max, bytes) {
        Ok(Some((f, n))) => if 0 < n <= bytes.len() {
            left_over(max, bytes.skip(n))
        } else {
            bytes
        },
        _ => bytes,
    }
}

/// The stream turns out to be bad.
pub open spec fn stream_fails(max: int, bytes: Seq<u8>) -> bool
    decreases bytes.len(),
{
    match next_in(max, bytes) {
        Ok(Some((f, n))) => 0 < n <= bytes.len() && stream_fails(max, bytes.skip(n)),
        Ok(None) => false,
        Err(_) => true,
    }
}

/// Frames as plain values.
pub open spec fn frame_views(s: Seq<OwnedFrame>) -> Seq<FrameView> {
    s.map_values(|f: OwnedFrame| f@)
}

impl OwnedFrame {
    /// Whether this is a metadata frame: the only kind that the receiving side
    /// of a connection sends.
    pub fn is_metadata(&self) -> (r: bool)
        ensures
            r == (self@.ext == ExtendedHeader::Absent),
    {
        match self.ext {
            ExtendedHeader::Absent => true,
            _ => false,
        }
    }
}

impl Deframer {
    /// Takes in bytes read from the socket and takes out every frame that is
    /// complete, with the error if the stream turns out to be bad.
    pub fn received(&mut self, bytes: &[u8]) -> (r: (Vec<OwnedFrame>, Option<Error>))
        requires
            old(self).wf(),
        ensures
            final(self).wf(),
            final(self).max() == old(self).max(),
            frame_views(r.0@) == all_frames(old(self).max(), old(self)@ + bytes@),
            final(self)@ == left_over(old(self).max(), old(self)@ + bytes@),
            r.1 is Some <==> stream_fails(old(self).max(), old(self)@ + bytes@),
            r.1 is Some ==> next_in(old(self).max(), final(self)@) == Err::<Option<(FrameView, int)>, Error>(
                r.1->Some_0,
            ),
    {
        let ghost max = self.max();
        let ghost stream = self@ + bytes@;
        self.push(bytes);
        let mut out: Vec<OwnedFrame> = Vec::new();
        assert(frame_views(out@) + all_frames(max, self@) =~= all_frames(max, stream));
        loop
            invariant
                self.wf(),
                self.max() == max,
                max == old(self).max(),
                stream == old(self)@ + bytes@,
                all_frames(max, stream) == frame_views(out@) + all_frames(max, self@),
                left_over(max, stream) == left_over(max, self@),
                stream_fails(max, stream) == stream_fails(max, self@),
            decreases self@.len(),
        {
            let ghost before = self@;
            let ghost done = frame_views(out@);
            proof {
                law_frame_parts(max, before);
            }
            match self.next_frame() {
                Ok(Some(f)) => {
                    let ghost view = f@;
                    out.push(f);
                    proof {
                        assert(frame_views(out@) =~= done.push(view));
                        assert(done + (seq![view] + all_frames(max, self@)) =~= done.push(view) + all_frames(
                            max,
                            self@,
                        ));
                    }
                },
                Ok(None) => {
                    assert(done + Seq::<FrameView>::empty() =~= done);
                    return (out, None);
                },
                Err(e) => {
                    assert(done + Seq::<FrameView>::empty() =~= done);
                    return (out, Some(e));
                },
            }
        }
    }
}

} // verus!
