//! Open Media Transport (OMT): video, audio and metadata over TCP.
//!
//! [`vmx`] is the video codec. [`frame`] and [`Deframer`] are the wire format,
//! [`command`] the messages that control a connection.

pub mod address;
pub mod cli;
pub mod cli_laws;
pub mod clock;
pub mod command;
pub mod conversation;
pub mod deframer;
pub mod discovery;
pub mod discovery_server;
pub mod document;
pub mod error;
pub mod float;
pub mod frame;
pub mod image;
pub mod intervals;
pub mod ip;
pub mod ip_round_trip;
pub mod media;
pub mod picture;
pub mod picture_laws;
pub mod receiver;
pub mod redirect;
pub mod sender;
pub mod table;
pub mod text;
pub mod vmx;
pub mod wire;
pub mod xml;


pub use deframer::{Deframer, Limits, OwnedFrame};
pub use error::Error;
