//! Turns received frames into pictures, sound and XML.
//!
//! - **Video** is decoded into the layout picked by a
//!   [`PreferredVideoFormat`]. Preview frames are decoded at 1/8 scale.
//! - **Audio** becomes planar samples, with the channels the sender left out
//!   re-inserted as silence.
//! - **Metadata** frames are returned as XML, except the protocol messages the
//!   connection consumes.
//!
//! Every output carries what the headers said: timestamp, frame rate, aspect
//! ratio, colour space, flags, and any per-frame metadata. Samples and the
//! aspect ratio are the bits of 32-bit floating-point numbers.

pub mod audio;
pub mod colour;
pub mod decoder;
pub mod error;
pub mod format;
pub mod laws;
pub mod pixels;

pub use audio::{decode_audio, AudioFrame};
pub use decoder::{Media, MediaDecoder, MetadataFrame, VideoFrame};
pub use error::DecodeError;
pub use format::{PreferredVideoFormat, VideoFormat};
