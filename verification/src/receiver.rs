//! A receiver: what it asks a sender for, when it reconnects, and where.
//!
//! It opens one connection for video and metadata and a second one for audio,
//! and sends fixed commands in a fixed order on each. An address is resolved
//! again on every connection attempt, so a sender that restarted elsewhere is
//! found again.
//!
//! **Reconnecting.** If a connection drops, both are closed and reopened, at
//! most once a second, re-sending the current preview, quality and tally.
//!
//! **Redirect.** When the sender sends `<OMTRedirect NewAddress="B" />`, the
//! receiver reconnects to `B` and opens a metadata-only side connection to the
//! original address to hear later changes. A new address from the side
//! connection moves the receiver again, and an empty one returns it to the
//! original. Once the side connection exists, redirects heard from the redirect
//! target itself are ignored: chains are resolved by the original sender. An
//! empty first redirect does nothing.

pub mod control;
pub mod plan;

pub use control::{ChannelStats, Decision, Receiver, ReceiverStats};
pub use plan::{Channel, ConnectionPlan, Event, OpenStep, ReceiveError, ReceiverConfig};
