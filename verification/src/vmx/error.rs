//! Errors of the encoder and decoder.

use crate::text::{decimal, push_decimal, push_str, string_of};
use vstd::prelude::*;

verus! {

/// Errors returned by the encoder and decoder.
#[derive(Debug, Clone, Copy, PartialEq, Eq)]
#[non_exhaustive]
pub enum Error {
    /// Width must be even and 16..=7680, height 16..=4320.
    InvalidDimensions {
        /// Requested width.
        width: usize,
        /// Requested height.
        height: usize,
    },
    /// The frame's size differs from the codec's.
    FrameSizeMismatch,
    /// The frame's planes do not match its pixel format.
    InvalidFrame(&'static str),
    /// Not supported by this implementation (or by VMX).
    Unsupported(&'static str),
    /// The compressed frame ended early.
    Truncated,
    /// The compressed frame was made for a different height.
    SliceCountMismatch {
        /// Slices (low 8 bits) this decoder expects.
        expected: usize,
        /// Slice count byte found in the frame.
        found: usize,
    },
    /// Malformed compressed data.
    InvalidBitstream(&'static str),
}

impl Error {
    /// What went wrong, in words.
    pub open spec fn text(self) -> Seq<char> {
        match self {
            Error::InvalidDimensions { width, height } => "invalid VMX frame size "@ + decimal(width as nat)
                + "x"@ + decimal(height as nat),
            Error::FrameSizeMismatch => "frame size does not match the codec"@,
            Error::InvalidFrame(m) => "invalid frame: "@ + m@,
            Error::Unsupported(m) => "unsupported: "@ + m@,
            Error::Truncated => "compressed frame is truncated"@,
            Error::SliceCountMismatch { expected, found } => "compressed frame has "@ + decimal(found as nat)
                + " slices, expected "@ + decimal((expected as int % 256) as nat),
            Error::InvalidBitstream(m) => "invalid VMX bitstream: "@ + m@,
        }
    }

    /// What went wrong, in words.
    pub fn to_string(&self) -> (r: String)
        ensures
            r@ == self.text(),
    {
        let mut out: Vec<char> = Vec::new();
        match self {
            Error::InvalidDimensions { width, height } => {
                push_str(&mut out, "invalid VMX frame size ");
                push_decimal(&mut out, *width as u64);
                push_str(&mut out, "x");
                push_decimal(&mut out, *height as u64);
            },
            Error::FrameSizeMismatch => {
                push_str(&mut out, "frame size does not match the codec");
            },
            Error::InvalidFrame(m) => {
                push_str(&mut out, "invalid frame: ");
                push_str(&mut out, m);
            },
            Error::Unsupported(m) => {
                push_str(&mut out, "unsupported: ");
                push_str(&mut out, m);
            },
            Error::Truncated => {
                push_str(&mut out, "compressed frame is truncated");
            },
            Error::SliceCountMismatch { expected, found } => {
                push_str(&mut out, "compressed frame has ");
                push_decimal(&mut out, *found as u64);
                push_str(&mut out, " slices, expected ");
                push_decimal(&mut out, (*expected % 256) as u64);
            },
            Error::InvalidBitstream(m) => {
                push_str(&mut out, "invalid VMX bitstream: ");
                push_str(&mut out, m);
            },
        }
        assert(out@ =~= self.text());
        string_of(&out)
    }
}

} // verus!
