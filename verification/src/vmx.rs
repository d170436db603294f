//! The VMX video codec.
//!
//! Every frame is 4:2:2 (optionally with a full-resolution alpha plane),
//! 8-bit or 10-bit, cut into slices of 16 lines. Each plane of a slice is
//! transformed in 8x8 blocks with a fixed-point transform, quantised with one
//! of 25 scaled matrices, and entropy coded into two byte-aligned streams per
//! slice: one for the DC coefficients (differentially coded) and one for the
//! AC coefficients (zero runs and values). Slices are independent. There is no
//! inter-frame prediction.
//!
//! The compressed frame does not record its size, bit depth or whether it
//! carries alpha: the transport does.

pub mod bits;
pub mod convert;
pub mod cosine;
pub mod cosine_back;
pub mod dct;
pub mod decoder;
pub mod division;
pub mod encoder;
pub mod error;
pub mod fidelity;
pub mod flat;
pub mod frame;
pub mod lanes;
pub mod layout;
pub mod packet_laws;
pub mod round_trip;
pub mod slice;
pub mod tables;
pub mod windows;
