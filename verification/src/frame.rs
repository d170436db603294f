//! Frame headers: the 16-byte header and the video and audio extended headers.
//!
//! All fields are little-endian. Fields keep their signed widths so that any
//! header round-trips exactly; range checks belong to whoever uses the values.

use crate::error::Error;
use crate::wire::{
    law_le16, law_le32, law_le64, le16, le16_at, le32, le32_at, le64, le64_at, put_i32, put_i64, put_u16,
    put_u32, read_i32, read_i64, read_u16, read_u32, signed32, signed64,
};
use vstd::prelude::*;

verus! {

broadcast use crate::wire::group_le_len;

/// Size of [`FrameHeader`] on the wire.
pub const HEADER_LEN: usize = 16;

/// Size of [`VideoHeader`] on the wire.
pub const VIDEO_HEADER_LEN: usize = 32;

/// Size of [`AudioHeader`] on the wire.
pub const AUDIO_HEADER_LEN: usize = 24;

/// The only version that is written or accepted.
pub const VERSION: u8 = 1;

/// Timestamp units per second (100 ns ticks).
pub const TICKS_PER_SECOND: i64 = 10_000_000;

/// The kind of frame, from the header's `FrameType` byte.
#[derive(Clone, Copy, Debug, PartialEq, Eq, Hash, Structural)]
pub enum FrameType {
    /// XML: protocol commands or application metadata.
    Metadata,
    /// Video, with a [`VideoHeader`].
    Video,
    /// Audio, with an [`AudioHeader`].
    Audio,
}

/// The byte of a frame type.
pub open spec fn type_byte(t: FrameType) -> u8 {
    match t {
        FrameType::Metadata => 1,
        FrameType::Video => 2,
        FrameType::Audio => 4,
    }
}

/// The frame type of a byte.
pub open spec fn type_of(b: u8) -> Result<FrameType, Error> {
    if b == 1 {
        Ok(FrameType::Metadata)
    } else if b == 2 {
        Ok(FrameType::Video)
    } else if b == 4 {
        Ok(FrameType::Audio)
    } else {
        Err(Error::UnknownFrameType(b))
    }
}

/// Length of the extended header of a frame type.
pub open spec fn ext_len(t: FrameType) -> int {
    match t {
        FrameType::Metadata => 0,
        FrameType::Video => 32,
        FrameType::Audio => 24,
    }
}

impl FrameType {
    /// The byte on the wire.
    pub fn to_byte(self) -> (r: u8)
        ensures
            r == type_byte(self),
    {
        match self {
            FrameType::Metadata => 1,
            FrameType::Video => 2,
            FrameType::Audio => 4,
        }
    }

    /// Parses the header byte; anything but 1, 2 or 4 is an error.
    pub fn from_byte(b: u8) -> (r: Result<Self, Error>)
        ensures
            r == type_of(b),
    {
        match b {
            1 => Ok(FrameType::Metadata),
            2 => Ok(FrameType::Video),
            4 => Ok(FrameType::Audio),
            _ => Err(Error::UnknownFrameType(b)),
        }
    }

    /// Length of the extended header that follows the frame header.
    pub fn extended_header_len(self) -> (r: usize)
        ensures
            r == ext_len(self),
    {
        match self {
            FrameType::Metadata => 0,
            FrameType::Video => VIDEO_HEADER_LEN,
            FrameType::Audio => AUDIO_HEADER_LEN,
        }
    }
}

/// A FourCC: the first character in the low byte.
pub fn fourcc(code: &[u8; 4]) -> (r: u32)
    ensures
        r == le32_at(code@, 0),
{
    read_u32(code, 0)
}

/// FourCC `VMX1`, the only video codec on the wire.
pub const CODEC_VMX1: u32 = 0x3158_4D56;

/// FourCC `FPA1`, 32-bit float planar audio.
pub const CODEC_FPA1: u32 = 0x3141_5046;

/// The 16-byte frame header.
#[derive(Clone, Copy, Debug, PartialEq, Eq, Structural)]
pub struct FrameHeader {
    /// Kind of frame.
    pub frame_type: FrameType,
    /// In [`TICKS_PER_SECOND`] units.
    pub timestamp: i64,
    /// Bytes of per-frame metadata at the end of the payload.
    pub metadata_length: u16,
    /// Bytes after this header: extended header, data and per-frame metadata.
    pub data_length: i32,
}

/// The bytes of a frame header.
pub open spec fn header_bytes(h: FrameHeader) -> Seq<u8> {
    seq![VERSION, type_byte(h.frame_type)] + le64(h.timestamp as int) + le16(h.metadata_length as int)
        + le32(h.data_length as int)
}

/// Parses a frame header.
pub open spec fn header_at(b: Seq<u8>) -> Result<FrameHeader, Error> {
    if b.len() < 16 {
        Err(Error::Truncated)
    } else if b[0] != VERSION {
        Err(Error::UnsupportedVersion(b[0]))
    } else {
        match type_of(b[1]) {
            Ok(t) => Ok(
                FrameHeader {
                    frame_type: t,
                    timestamp: signed64(le64_at(b, 2)) as i64,
                    metadata_length: le16_at(b, 10) as u16,
                    data_length: signed32(le32_at(b, 12)) as i32,
                },
            ),
            Err(e) => Err(e),
        }
    }
}

/// The length of the frame that a header starts.
pub open spec fn frame_len_of(h: FrameHeader) -> Result<int, Error> {
    let needed = ext_len(h.frame_type) + h.metadata_length;
    if h.data_length < 0 {
        Err(Error::NegativeDataLength(h.data_length))
    } else if h.data_length < needed {
        Err(
            Error::DataLengthTooSmall {
                data_length: h.data_length as usize,
                needed: needed as usize,
            },
        )
    } else {
        Ok(16 + h.data_length)
    }
}

impl FrameHeader {
    /// Serialises the header.
    pub fn to_bytes(&self) -> (r: [u8; 16])
        ensures
            r@ == header_bytes(*self),
    {
        let mut v: Vec<u8> = Vec::new();
        v.push(VERSION);
        v.push(self.frame_type.to_byte());
        put_i64(&mut v, self.timestamp);
        put_u16(&mut v, self.metadata_length);
        put_i32(&mut v, self.data_length);
        assert(v@ =~= header_bytes(*self));
        let b: [u8; 16] = [
            v[0],
            v[1],
            v[2],
            v[3],
            v[4],
            v[5],
            v[6],
            v[7],
            v[8],
            v[9],
            v[10],
            v[11],
            v[12],
            v[13],
            v[14],
            v[15],
        ];
        assert(b@ =~= v@);
        b
    }

    /// Parses a header from the first [`HEADER_LEN`] bytes of `b`.
    pub fn parse(b: &[u8]) -> (r: Result<Self, Error>)
        ensures
            r == header_at(b@),
    {
        if b.len() < HEADER_LEN {
            return Err(Error::Truncated);
        }
        if b[0] != VERSION {
            return Err(Error::UnsupportedVersion(b[0]));
        }
        match FrameType::from_byte(b[1]) {
            Ok(t) => Ok(
                FrameHeader {
                    frame_type: t,
                    timestamp: read_i64(b, 2),
                    metadata_length: read_u16(b, 10),
                    data_length: read_i32(b, 12),
                },
            ),
            Err(e) => Err(e),
        }
    }

    /// Header plus payload, after checking that `DataLength` is non-negative
    /// and large enough for the extended header and the per-frame metadata.
    pub fn frame_len(&self) -> (r: Result<usize, Error>)
        ensures
            match frame_len_of(*self) {
                Ok(n) => r is Ok && r->Ok_0 == n,
                Err(e) => r == Err::<usize, Error>(e),
            },
    {
        if self.data_length < 0 {
            return Err(Error::NegativeDataLength(self.data_length));
        }
        let data_length: usize = self.data_length as usize;
        let needed: usize = self.frame_type.extended_header_len() + self.metadata_length as usize;
        if data_length < needed {
            return Err(Error::DataLengthTooSmall { data_length, needed });
        }
        Ok(HEADER_LEN + data_length)
    }
}

/// A header is parsed back to what was written.
pub proof fn law_header_round_trip(h: FrameHeader, rest: Seq<u8>)
    ensures
        header_at(header_bytes(h) + rest) == Ok::<FrameHeader, Error>(h),
{
    let b = header_bytes(h) + rest;
    assert(b.subrange(2, 10) =~= le64(h.timestamp as int));
    assert(b.subrange(10, 12) =~= le16(h.metadata_length as int));
    assert(b.subrange(12, 16) =~= le32(h.data_length as int));
    law_le64(h.timestamp as int, b, 2);
    law_le16(h.metadata_length as int, b, 10);
    law_le32(h.data_length as int, b, 12);
    assert(b[0] == VERSION && b[1] == type_byte(h.frame_type));
}

/// A parsed header is written as the bytes it was parsed from.
pub proof fn law_header_bytes(b: Seq<u8>)
    requires
        header_at(b) is Ok,
    ensures
        header_bytes(header_at(b)->Ok_0) == b.take(16),
{
    let h = header_at(b)->Ok_0;
    reveal(le16);
    reveal(le64);
    crate::wire::lemma_le32_bytes(b, 2);
    crate::wire::lemma_le32_bytes(b, 6);
    crate::wire::lemma_le32_bytes(b, 12);
    let v = le64_at(b, 2);
    let s = signed64(v);
    assert(s % 0x1_0000_0000 == le32_at(b, 2));
    assert(v / 0x1_0000_0000 == le32_at(b, 6));
    crate::wire::lemma_le32_wraps(s / 0x1_0000_0000);
    assert((s / 0x1_0000_0000) % 0x1_0000_0000 == le32_at(b, 6));
    assert(le64(s) =~= b.subrange(2, 10));
    let m = le16_at(b, 10);
    assert(m % 256 == b[10] && m / 256 == b[11]);
    assert(le16(m) =~= b.subrange(10, 12));
    assert(header_bytes(h) =~= b.take(16));
}

/// Video frame flags.
#[derive(Clone, Copy, Debug, PartialEq, Eq, Hash, Structural)]
pub struct VideoFlags(pub u32);

impl Default for VideoFlags {
    fn default() -> (r: Self)
        ensures
            r == VideoFlags(0),
    {
        VideoFlags(0)
    }
}

impl VideoFlags {
    /// Interlaced frame.
    pub const INTERLACED: u32 = 1;

    /// Frame carries an alpha channel.
    pub const ALPHA: u32 = 2;

    /// Alpha is premultiplied (with [`Self::ALPHA`]).
    pub const PREMULTIPLIED: u32 = 4;

    /// 1/8-scale preview frame.
    pub const PREVIEW: u32 = 8;

    /// Encoded from a 16-bit (P216/PA16) source.
    pub const HIGH_BIT_DEPTH: u32 = 16;

    /// Every bit of `flag` is set.
    pub open spec fn has(self, flag: u32) -> bool {
        self.0 & flag == flag
    }

    /// Whether every bit of `flag` is set.
    pub fn contains(self, flag: u32) -> (r: bool)
        ensures
            r == self.has(flag),
    {
        self.0 & flag == flag
    }
}

/// The 32-byte video extended header.
#[derive(Clone, Copy, Debug, PartialEq, Eq, Structural)]
pub struct VideoHeader {
    /// FourCC; [`CODEC_VMX1`] on the wire.
    pub codec: u32,
    /// Full-frame width in pixels, also for preview frames.
    pub width: i32,
    /// Full-frame height in pixels.
    pub height: i32,
    /// Frame rate numerator.
    pub frame_rate_n: i32,
    /// Frame rate denominator.
    pub frame_rate_d: i32,
    /// Display aspect ratio, width / height: the bits of an IEEE single.
    pub aspect_ratio: u32,
    /// See [`VideoFlags`].
    pub flags: VideoFlags,
    /// 0 undefined, 601 or 709.
    pub color_space: i32,
}

/// The bytes of a video header.
pub open spec fn video_bytes(v: VideoHeader) -> Seq<u8> {
    le32(v.codec as int) + le32(v.width as int) + le32(v.height as int) + le32(v.frame_rate_n as int)
        + le32(v.frame_rate_d as int) + le32(v.aspect_ratio as int) + le32(v.flags.0 as int) + le32(
        v.color_space as int,
    )
}

/// Parses a video header.
pub open spec fn video_at(b: Seq<u8>) -> Result<VideoHeader, Error> {
    if b.len() < 32 {
        Err(Error::Truncated)
    } else {
        Ok(
            VideoHeader {
                codec: le32_at(b, 0) as u32,
                width: signed32(le32_at(b, 4)) as i32,
                height: signed32(le32_at(b, 8)) as i32,
                frame_rate_n: signed32(le32_at(b, 12)) as i32,
                frame_rate_d: signed32(le32_at(b, 16)) as i32,
                aspect_ratio: le32_at(b, 20) as u32,
                flags: VideoFlags(le32_at(b, 24) as u32),
                color_space: signed32(le32_at(b, 28)) as i32,
            },
        )
    }
}

impl VideoHeader {
    /// Serialises the header.
    pub fn to_bytes(&self) -> (r: Vec<u8>)
        ensures
            r@ == video_bytes(*self),
    {
        let mut b: Vec<u8> = Vec::new();
        put_u32(&mut b, self.codec);
        put_i32(&mut b, self.width);
        put_i32(&mut b, self.height);
        put_i32(&mut b, self.frame_rate_n);
        put_i32(&mut b, self.frame_rate_d);
        put_u32(&mut b, self.aspect_ratio);
        put_u32(&mut b, self.flags.0);
        put_i32(&mut b, self.color_space);
        assert(b@ =~= video_bytes(*self));
        b
    }

    /// Parses the header from the first [`VIDEO_HEADER_LEN`] bytes of `b`.
    pub fn parse(b: &[u8]) -> (r: Result<Self, Error>)
        ensures
            r == video_at(b@),
    {
        if b.len() < VIDEO_HEADER_LEN {
            return Err(Error::Truncated);
        }
        Ok(
            VideoHeader {
                codec: read_u32(b, 0),
                width: read_i32(b, 4),
                height: read_i32(b, 8),
                frame_rate_n: read_i32(b, 12),
                frame_rate_d: read_i32(b, 16),
                aspect_ratio: read_u32(b, 20),
                flags: VideoFlags(read_u32(b, 24)),
                color_space: read_i32(b, 28),
            },
        )
    }
}

/// The 24-byte audio extended header.
#[derive(Clone, Copy, Debug, PartialEq, Eq, Structural)]
pub struct AudioHeader {
    /// FourCC; [`CODEC_FPA1`] on the wire.
    pub codec: u32,
    /// Samples per second.
    pub sample_rate: i32,
    /// Samples in each channel of this frame.
    pub samples_per_channel: i32,
    /// Channels described, 1..=32.
    pub channels: i32,
    /// Bit `i` set when channel `i` is present in the data; silent channels
    /// are left out.
    pub active_channels: u32,
    /// Written as 0.
    pub reserved: i32,
}

/// The bytes of an audio header.
pub open spec fn audio_bytes(a: AudioHeader) -> Seq<u8> {
    le32(a.codec as int) + le32(a.sample_rate as int) + le32(a.samples_per_channel as int) + le32(
        a.channels as int,
    ) + le32(a.active_channels as int) + le32(a.reserved as int)
}

/// Parses an audio header.
pub open spec fn audio_at(b: Seq<u8>) -> Result<AudioHeader, Error> {
    if b.len() < 24 {
        Err(Error::Truncated)
    } else {
        Ok(
            AudioHeader {
                codec: le32_at(b, 0) as u32,
                sample_rate: signed32(le32_at(b, 4)) as i32,
                samples_per_channel: signed32(le32_at(b, 8)) as i32,
                channels: signed32(le32_at(b, 12)) as i32,
                active_channels: le32_at(b, 16) as u32,
                reserved: signed32(le32_at(b, 20)) as i32,
            },
        )
    }
}

impl AudioHeader {
    /// Serialises the header.
    pub fn to_bytes(&self) -> (r: Vec<u8>)
        ensures
            r@ == audio_bytes(*self),
    {
        let mut b: Vec<u8> = Vec::new();
        put_u32(&mut b, self.codec);
        put_i32(&mut b, self.sample_rate);
        put_i32(&mut b, self.samples_per_channel);
        put_i32(&mut b, self.channels);
        put_u32(&mut b, self.active_channels);
        put_i32(&mut b, self.reserved);
        assert(b@ =~= audio_bytes(*self));
        b
    }

    /// Parses the header from the first [`AUDIO_HEADER_LEN`] bytes of `b`.
    pub fn parse(b: &[u8]) -> (r: Result<Self, Error>)
        ensures
            r == audio_at(b@),
    {
        if b.len() < AUDIO_HEADER_LEN {
            return Err(Error::Truncated);
        }
        Ok(
            AudioHeader {
                codec: read_u32(b, 0),
                sample_rate: read_i32(b, 4),
                samples_per_channel: read_i32(b, 8),
                channels: read_i32(b, 12),
                active_channels: read_u32(b, 16),
                reserved: read_i32(b, 20),
            },
        )
    }
}

/// A video header is parsed back to what was written.
pub proof fn law_video_round_trip(v: VideoHeader, rest: Seq<u8>)
    ensures
        video_bytes(v).len() == 32,
        video_at(video_bytes(v) + rest) == Ok::<VideoHeader, Error>(v),
{
    let b = video_bytes(v) + rest;
    assert(b.subrange(0, 4) =~= le32(v.codec as int));
    assert(b.subrange(4, 8) =~= le32(v.width as int));
    assert(b.subrange(8, 12) =~= le32(v.height as int));
    assert(b.subrange(12, 16) =~= le32(v.frame_rate_n as int));
    assert(b.subrange(16, 20) =~= le32(v.frame_rate_d as int));
    assert(b.subrange(20, 24) =~= le32(v.aspect_ratio as int));
    assert(b.subrange(24, 28) =~= le32(v.flags.0 as int));
    assert(b.subrange(28, 32) =~= le32(v.color_space as int));
    law_le32(v.codec as int, b, 0);
    law_le32(v.width as int, b, 4);
    law_le32(v.height as int, b, 8);
    law_le32(v.frame_rate_n as int, b, 12);
    law_le32(v.frame_rate_d as int, b, 16);
    law_le32(v.aspect_ratio as int, b, 20);
    law_le32(v.flags.0 as int, b, 24);
    law_le32(v.color_space as int, b, 28);
}

/// An audio header is parsed back to what was written.
pub proof fn law_audio_round_trip(a: AudioHeader, rest: Seq<u8>)
    ensures
        audio_bytes(a).len() == 24,
        audio_at(audio_bytes(a) + rest) == Ok::<AudioHeader, Error>(a),
{
    let b = audio_bytes(a) + rest;
    assert(b.subrange(0, 4) =~= le32(a.codec as int));
    assert(b.subrange(4, 8) =~= le32(a.sample_rate as int));
    assert(b.subrange(8, 12) =~= le32(a.samples_per_channel as int));
    assert(b.subrange(12, 16) =~= le32(a.channels as int));
    assert(b.subrange(16, 20) =~= le32(a.active_channels as int));
    assert(b.subrange(20, 24) =~= le32(a.reserved as int));
    law_le32(a.codec as int, b, 0);
    law_le32(a.sample_rate as int, b, 4);
    law_le32(a.samples_per_channel as int, b, 8);
    law_le32(a.channels as int, b, 12);
    law_le32(a.active_channels as int, b, 16);
    law_le32(a.reserved as int, b, 20);
}

/// The extended header, by frame type.
#[derive(Clone, Copy, Debug, PartialEq, Eq, Structural)]
pub enum ExtendedHeader {
    /// Metadata frames have none.
    Absent,
    /// Video frames.
    Video(VideoHeader),
    /// Audio frames.
    Audio(AudioHeader),
}

/// The frame type that an extended header belongs to.
pub open spec fn ext_type(e: ExtendedHeader) -> FrameType {
    match e {
        ExtendedHeader::Absent => FrameType::Metadata,
        ExtendedHeader::Video(_) => FrameType::Video,
        ExtendedHeader::Audio(_) => FrameType::Audio,
    }
}

/// The bytes of an extended header.
pub open spec fn ext_bytes(e: ExtendedHeader) -> Seq<u8> {
    match e {
        ExtendedHeader::Absent => Seq::empty(),
        ExtendedHeader::Video(v) => video_bytes(v),
        ExtendedHeader::Audio(a) => audio_bytes(a),
    }
}

impl ExtendedHeader {
    /// The frame type this extended header belongs to.
    pub fn frame_type(&self) -> (r: FrameType)
        ensures
            r == ext_type(*self),
    {
        match self {
            ExtendedHeader::Absent => FrameType::Metadata,
            ExtendedHeader::Video(_) => FrameType::Video,
            ExtendedHeader::Audio(_) => FrameType::Audio,
        }
    }
}

/// The header of the frame that carries `data` and `metadata`.
pub open spec fn header_for(timestamp: i64, ext: ExtendedHeader, data: int, metadata: int) -> FrameHeader {
    FrameHeader {
        frame_type: ext_type(ext),
        timestamp,
        metadata_length: metadata as u16,
        data_length: (ext_len(ext_type(ext)) + data + metadata) as i32,
    }
}

/// One complete frame: header, extended header, data, per-frame metadata.
pub open spec fn frame_bytes(
    timestamp: i64,
    ext: ExtendedHeader,
    data: Seq<u8>,
    metadata: Seq<u8>,
) -> Seq<u8> {
    header_bytes(header_for(timestamp, ext, data.len() as int, metadata.len() as int)) + ext_bytes(ext)
        + data + metadata
}

/// The lengths fit in the header.
pub open spec fn writable(ext: ExtendedHeader, data: int, metadata: int) -> bool {
    metadata <= 65535 && ext_len(ext_type(ext)) + data + metadata <= i32::MAX
}

/// Appends one complete frame to `out`: header, extended header, `data`,
/// then `metadata` (per-frame XML).
pub fn write(timestamp: i64, ext: &ExtendedHeader, data: &[u8], metadata: &[u8], out: &mut Vec<u8>)
    requires
        writable(*ext, data@.len() as int, metadata@.len() as int),
    ensures
        final(out)@ == old(out)@ + frame_bytes(timestamp, *ext, data@, metadata@),
{
    let frame_type: FrameType = ext.frame_type();
    let data_length: usize = frame_type.extended_header_len() + data.len() + metadata.len();
    let header = FrameHeader {
        frame_type,
        timestamp,
        metadata_length: metadata.len() as u16,
        data_length: data_length as i32,
    };
    let b: [u8; 16] = header.to_bytes();
    out.extend_from_slice(b.as_slice());
    match ext {
        ExtendedHeader::Absent => {},
        ExtendedHeader::Video(v) => {
            let b: Vec<u8> = v.to_bytes();
            out.extend_from_slice(b.as_slice());
        },
        ExtendedHeader::Audio(a) => {
            let b: Vec<u8> = a.to_bytes();
            out.extend_from_slice(b.as_slice());
        },
    }
    out.extend_from_slice(data);
    out.extend_from_slice(metadata);
    assert(out@ =~= old(out)@ + frame_bytes(timestamp, *ext, data@, metadata@));
}

/// Appends a metadata frame carrying `xml` exactly as given. Protocol
/// commands must not have a NUL at the end; use
/// [`crate::command::Command::as_bytes`].
pub fn write_metadata(timestamp: i64, xml: &[u8], out: &mut Vec<u8>)
    requires
        xml@.len() <= i32::MAX,
    ensures
        final(out)@ == old(out)@ + frame_bytes(
            timestamp,
            ExtendedHeader::Absent,
            xml@,
            Seq::empty(),
        ),
{
    let none: Vec<u8> = Vec::new();
    write(timestamp, &ExtendedHeader::Absent, xml, none.as_slice(), out);
    assert(none@ =~= Seq::<u8>::empty());
}

/// Where everything stands in a frame: version 1 and the type in two bytes,
/// eight of timestamp, two of the length of the metadata, four of the length
/// of all that follows; then the fields of the extended header, four bytes
/// each, the data, and the metadata. All numbers are least significant byte
/// first.
pub proof fn law_wire_layout(timestamp: i64, ext: ExtendedHeader, data: Seq<u8>, metadata: Seq<u8>)
    requires
        writable(ext, data.len() as int, metadata.len() as int),
    ensures
        ({
            let b = frame_bytes(timestamp, ext, data, metadata);
            let n = match ext {
                ExtendedHeader::Absent => 0int,
                ExtendedHeader::Video(_) => 32,
                ExtendedHeader::Audio(_) => 24,
            };
            &&& b.len() == 16 + n + data.len() + metadata.len()
            &&& b[0] == 1
            &&& b[1] == (match ext {
                ExtendedHeader::Absent => 1u8,
                ExtendedHeader::Video(_) => 2,
                ExtendedHeader::Audio(_) => 4,
            })
            &&& signed64(le64_at(b, 2)) == timestamp
            &&& le16_at(b, 10) == metadata.len()
            &&& le32_at(b, 12) == n + data.len() + metadata.len()
            &&& match ext {
                ExtendedHeader::Absent => true,
                ExtendedHeader::Video(v) => {
                    &&& le32_at(b, 16) == v.codec
                    &&& signed32(le32_at(b, 20)) == v.width
                    &&& signed32(le32_at(b, 24)) == v.height
                    &&& signed32(le32_at(b, 28)) == v.frame_rate_n
                    &&& signed32(le32_at(b, 32)) == v.frame_rate_d
                    &&& le32_at(b, 36) == v.aspect_ratio
                    &&& le32_at(b, 40) == v.flags.0
                    &&& signed32(le32_at(b, 44)) == v.color_space
                },
                ExtendedHeader::Audio(a) => {
                    &&& le32_at(b, 16) == a.codec
                    &&& signed32(le32_at(b, 20)) == a.sample_rate
                    &&& signed32(le32_at(b, 24)) == a.samples_per_channel
                    &&& signed32(le32_at(b, 28)) == a.channels
                    &&& le32_at(b, 32) == a.active_channels
                    &&& signed32(le32_at(b, 36)) == a.reserved
                },
            }
            &&& b.subrange(16 + n, 16 + n + data.len()) == data
            &&& b.skip(16 + n + data.len()) == metadata
        }),
{
    let b = frame_bytes(timestamp, ext, data, metadata);
    let h = header_for(timestamp, ext, data.len() as int, metadata.len() as int);
    assert(b.subrange(2, 10) =~= le64(timestamp as int));
    law_le64(timestamp as int, b, 2);
    assert(b.subrange(10, 12) =~= le16(metadata.len() as int));
    law_le16(metadata.len() as int, b, 10);
    assert(b.subrange(12, 16) =~= le32(h.data_length as int));
    law_le32(h.data_length as int, b, 12);
    match ext {
        ExtendedHeader::Absent => {
            assert(b.subrange(16, 16 + data.len() as int) =~= data);
            assert(b.skip(16 + data.len() as int) =~= metadata);
        },
        ExtendedHeader::Video(v) => {
            assert(b.subrange(16, 20) =~= le32(v.codec as int));
            law_le32(v.codec as int, b, 16);
            assert(b.subrange(20, 24) =~= le32(v.width as int));
            law_le32(v.width as int, b, 20);
            assert(b.subrange(24, 28) =~= le32(v.height as int));
            law_le32(v.height as int, b, 24);
            assert(b.subrange(28, 32) =~= le32(v.frame_rate_n as int));
            law_le32(v.frame_rate_n as int, b, 28);
            assert(b.subrange(32, 36) =~= le32(v.frame_rate_d as int));
            law_le32(v.frame_rate_d as int, b, 32);
            assert(b.subrange(36, 40) =~= le32(v.aspect_ratio as int));
            law_le32(v.aspect_ratio as int, b, 36);
            assert(b.subrange(40, 44) =~= le32(v.flags.0 as int));
            law_le32(v.flags.0 as int, b, 40);
            assert(b.subrange(44, 48) =~= le32(v.color_space as int));
            law_le32(v.color_space as int, b, 44);
            assert(b.subrange(48, 48 + data.len() as int) =~= data);
            assert(b.skip(48 + data.len() as int) =~= metadata);
        },
        ExtendedHeader::Audio(a) => {
            assert(b.subrange(16, 20) =~= le32(a.codec as int));
            law_le32(a.codec as int, b, 16);
            assert(b.subrange(20, 24) =~= le32(a.sample_rate as int));
            law_le32(a.sample_rate as int, b, 20);
            assert(b.subrange(24, 28) =~= le32(a.samples_per_channel as int));
            law_le32(a.samples_per_channel as int, b, 24);
            assert(b.subrange(28, 32) =~= le32(a.channels as int));
            law_le32(a.channels as int, b, 28);
            assert(b.subrange(32, 36) =~= le32(a.active_channels as int));
            law_le32(a.active_channels as int, b, 32);
            assert(b.subrange(36, 40) =~= le32(a.reserved as int));
            law_le32(a.reserved as int, b, 36);
            assert(b.subrange(40, 40 + data.len() as int) =~= data);
            assert(b.skip(40 + data.len() as int) =~= metadata);
        },
    }
}

} // verus!
