//! A sender: what it tells its receivers, and which of them get what.
//!
//! - It listens on the first free port of a range.
//! - On each new connection it sends sender info, connection metadata and the
//!   combined tally, before any subscription arrives.
//! - Video and audio go only to connections that subscribed to them, and
//!   application metadata only to those that subscribed to metadata.
//! - Receivers' tallies are combined with OR, and changes are broadcast.
//! - The encoder profile follows the highest suggested quality among video
//!   connections when the sender's own quality is `Default`.
//! - Silent audio channels are left out.
//! - A slow receiver never blocks it: each connection has at most four video
//!   or audio frames and 64 metadata frames queued, and drops beyond that.
//! - The metadata of a preview frame follows the preview prefix, so receivers
//!   that take the last `MetadataLength` bytes get it right.

pub mod audio;
pub mod config;
pub mod hub;
pub mod laws;
pub mod outbox;
pub mod video;

pub use config::{SenderConfig, SenderInfo};
pub use hub::{Peer, PeerState, Sender, SenderStats};
pub use outbox::Outbox;
pub use video::{VideoParams, MAX_FRAME_LEN};
