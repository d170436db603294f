//! Discovery server: finding sources on networks without multicast.
//!
//! The server is a metadata-only sender, each client a metadata-only receiver,
//! and the messages are ordinary metadata frames holding one `<OMTAddress>`
//! element each.
//!
//! - A client registers the local sources and keeps a table of the sources
//!   the server reports. It resends its sources on every reconnect and forgets
//!   what it learned when the connection drops.
//! - The server tracks the sources each connection registers, records them
//!   with the connection's own TCP source address, and sends every add and
//!   remove to all connections, including the one it came from. The table goes
//!   to a connection when its metadata subscription arrives, so a new client
//!   always gets it.

pub mod client;
pub mod message;
pub mod round_trip;
pub mod server;

pub use client::Client;
pub use message::{parse_url, AddressMessage, UrlError};
pub use server::{Delivery, Outcome, Peer, Server, ServerEntry, ServerEvent};
