//! Errors from parsing frames off the wire.

use crate::text::{decimal, push_decimal, push_signed, push_str, signed_decimal, string_of};
use vstd::prelude::*;

verus! {

/// Errors from parsing frames off the wire.
#[derive(Clone, Copy, Debug, PartialEq, Eq, Structural)]
pub enum Error {
    /// Header version byte other than 1. Drop the connection.
    UnsupportedVersion(u8),
    /// Frame type other than metadata (1), video (2) or audio (4).
    UnknownFrameType(u8),
    /// `DataLength` is negative.
    NegativeDataLength(i32),
    /// `DataLength` is too small for the extended header plus the
    /// per-frame metadata it claims to contain.
    DataLengthTooSmall {
        /// `DataLength` from the header.
        data_length: usize,
        /// Extended header length plus `MetadataLength`.
        needed: usize,
    },
    /// The whole frame would exceed the configured limit.
    FrameTooLarge {
        /// Header plus `DataLength`.
        length: usize,
        /// The limit in force.
        max: usize,
    },
    /// Fewer bytes than a complete frame.
    Truncated,
}

impl Error {
    /// What went wrong, in words.
    pub open spec fn text(self) -> Seq<char> {
        match self {
            Error::UnsupportedVersion(v) => "unsupported OMT frame version "@ + decimal(v as nat),
            Error::UnknownFrameType(t) => "unknown OMT frame type "@ + decimal(t as nat),
            Error::NegativeDataLength(n) => "negative frame data length "@ + signed_decimal(n as int),
            Error::DataLengthTooSmall { data_length, needed } => "frame data length "@ + decimal(
                data_length as nat,
            ) + " is less than the "@ + decimal(needed as nat) + " bytes its headers need"@,
            Error::FrameTooLarge { length, max } => "frame of "@ + decimal(length as nat)
                + " bytes exceeds the "@ + decimal(max as nat) + "-byte limit"@,
            Error::Truncated => "incomplete frame"@,
        }
    }

    /// What went wrong, in words.
    pub fn to_string(&self) -> (r: String)
        ensures
            r@ == self.text(),
    {
        let mut out: Vec<char> = Vec::new();
        match self {
            Error::UnsupportedVersion(v) => {
                push_str(&mut out, "unsupported OMT frame version ");
                push_decimal(&mut out, *v as u64);
            },
            Error::UnknownFrameType(t) => {
                push_str(&mut out, "unknown OMT frame type ");
                push_decimal(&mut out, *t as u64);
            },
            Error::NegativeDataLength(n) => {
                push_str(&mut out, "negative frame data length ");
                push_signed(&mut out, *n);
            },
            Error::DataLengthTooSmall { data_length, needed } => {
                push_str(&mut out, "frame data length ");
                push_decimal(&mut out, *data_length as u64);
                push_str(&mut out, " is less than the ");
                push_decimal(&mut out, *needed as u64);
                push_str(&mut out, " bytes its headers need");
            },
            Error::FrameTooLarge { length, max } => {
                push_str(&mut out, "frame of ");
                push_decimal(&mut out, *length as u64);
                push_str(&mut out, " bytes exceeds the ");
                push_decimal(&mut out, *max as u64);
                push_str(&mut out, "-byte limit");
            },
            Error::Truncated => {
                push_str(&mut out, "incomplete frame");
            },
        }
        assert(out@ =~= self.text());
        string_of(&out)
    }
}

} // verus!
