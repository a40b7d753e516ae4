//! Server core of a remote-desktop streaming system.
//!
//! The library maintains a mirror of what the remote viewer displays,
//! scores 16x16 macroblocks of each fresh capture by squared error
//! against that mirror, encodes the most-changed blocks as
//! JPEG-entropy-coded payloads, packs them into bounded datagrams, and
//! reconciles acknowledgements back into the per-block version vectors.
//! Socket, display-capture and input-injection shims live outside the
//! library and exchange plain byte buffers and messages with it.

pub mod context;
pub mod controller;
pub mod decoder;
pub mod encoder;
pub mod entropy;
pub mod fdct;
pub mod monitor;
pub mod pending_acks;
pub mod protocol;
pub mod sink;
pub mod tables;
pub mod transport;
pub mod util;

pub use util::u8s_to_u16;
pub use util::u8s_to_u32;
