//! A length-prefixed frame codec: a 4-byte big-endian payload length followed
//! by exactly that many payload bytes, with a configurable maximum payload size.
//!
//! Two mechanics matter: a decoder that meets half a frame keeps it buffered and
//! yields nothing until the rest arrives, and a decoded payload is handed out as
//! a view into the receive buffer rather than a copy.

pub mod buffers;
pub mod codec;
pub mod wire;

pub use codec::{FrameCodec, FrameError, DEFAULT_MAX_FRAME_LEN};
