//! Why a frame could not be decoded.

use crate::text::{decimal, decode_lossy, lossy, push_decimal, push_signed, push_str, signed_decimal, string_of};
use crate::vmx::error::Error;
use vstd::prelude::*;

verus! {

/// Why a frame could not be decoded. The connection is fine; drop the frame.
#[derive(Clone, Copy, Debug, PartialEq, Eq)]
#[non_exhaustive]
pub enum DecodeError {
    /// A codec FourCC other than VMX1 (video) or FPA1 (audio).
    UnsupportedCodec(u32),
    /// The preferred format has no layout for this frame.
    NoMatchingFormat,
    /// The header's size is not one that can be coded.
    InvalidSize {
        /// Width from the header.
        width: i32,
        /// Height from the header.
        height: i32,
    },
    /// The compressed data is invalid.
    Video(Error),
    /// Negative channel or sample count, or more than 32 channels.
    InvalidAudioHeader,
    /// The samples exceed the largest audio frame.
    AudioTooLarge(u64),
    /// Fewer audio bytes than the active channels need.
    AudioTruncated {
        /// Bytes the active channels need.
        needed: usize,
        /// Bytes present.
        got: usize,
    },
    /// Not a video, audio or metadata frame.
    NotMedia,
}

impl From<Error> for DecodeError {
    fn from(e: Error) -> (r: DecodeError) {
        DecodeError::Video(e)
    }
}

impl vstd::std_specs::convert::FromSpecImpl<Error> for DecodeError {
    open spec fn obeys_from_spec() -> bool {
        true
    }

    open spec fn from_spec(e: Error) -> DecodeError {
        DecodeError::Video(e)
    }
}

/// The characters of a FourCC: its bytes, the lowest first.
pub open spec fn four_bytes(c: u32) -> Seq<u8> {
    seq![
        (c as int % 256) as u8,
        (c as int / 256 % 256) as u8,
        (c as int / 65536 % 256) as u8,
        (c as int / 16777216) as u8,
    ]
}

impl DecodeError {
    /// What went wrong, in words. Bytes of a codec's FourCC that are not UTF-8
    /// are replaced.
    pub open spec fn text(self) -> Seq<char> {
        match self {
            DecodeError::UnsupportedCodec(c) => "unsupported codec "@ + lossy(four_bytes(c)),
            DecodeError::NoMatchingFormat => "the preferred video format has no layout for this frame"@,
            DecodeError::InvalidSize { width, height } => "invalid video size "@ + signed_decimal(width as int)
                + "x"@ + signed_decimal(height as int),
            DecodeError::Video(e) => "VMX1: "@ + e.text(),
            DecodeError::InvalidAudioHeader => "invalid audio header"@,
            DecodeError::AudioTooLarge(n) => "audio frame of "@ + decimal(n as nat) + " bytes exceeds "@
                + decimal(crate::media::audio::MAX_AUDIO_BYTES as nat),
            DecodeError::AudioTruncated { needed, got } => "audio data has "@ + decimal(got as nat)
                + " bytes, active channels need "@ + decimal(needed as nat),
            DecodeError::NotMedia => "not a media frame"@,
        }
    }

    /// What went wrong, in words.
    pub fn to_string(&self) -> (r: String)
        ensures
            r@ == self.text(),
    {
        let mut out: Vec<char> = Vec::new();
        match self {
            DecodeError::UnsupportedCodec(c) => {
                push_str(&mut out, "unsupported codec ");
                let bytes: [u8; 4] = [
                    (*c % 256) as u8,
                    (*c / 256 % 256) as u8,
                    (*c / 65536 % 256) as u8,
                    (*c / 16777216) as u8,
                ];
                assert(bytes@ =~= four_bytes(*c));
                let name: String = decode_lossy(bytes.as_slice());
                push_str(&mut out, name.as_str());
            },
            DecodeError::NoMatchingFormat => {
                push_str(&mut out, "the preferred video format has no layout for this frame");
            },
            DecodeError::InvalidSize { width, height } => {
                push_str(&mut out, "invalid video size ");
                push_signed(&mut out, *width);
                push_str(&mut out, "x");
                push_signed(&mut out, *height);
            },
            DecodeError::Video(e) => {
                push_str(&mut out, "VMX1: ");
                let inner: String = e.to_string();
                push_str(&mut out, inner.as_str());
            },
            DecodeError::InvalidAudioHeader => {
                push_str(&mut out, "invalid audio header");
            },
            DecodeError::AudioTooLarge(n) => {
                push_str(&mut out, "audio frame of ");
                push_decimal(&mut out, *n);
                push_str(&mut out, " bytes exceeds ");
                push_decimal(&mut out, crate::media::audio::MAX_AUDIO_BYTES as u64);
            },
            DecodeError::AudioTruncated { needed, got } => {
                push_str(&mut out, "audio data has ");
                push_decimal(&mut out, *got as u64);
                push_str(&mut out, " bytes, active channels need ");
                push_decimal(&mut out, *needed as u64);
            },
            DecodeError::NotMedia => {
                push_str(&mut out, "not a media frame");
            },
        }
        assert(out@ =~= self.text());
        string_of(&out)
    }
}

} // verus!
