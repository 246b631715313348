//! Transport-wide congestion control feedback handling for RTP senders:
//! bit-exact parsing of feedback packets and the per-packet decisions of
//! the sending elements.

pub mod bitstream;
pub mod feedback;
pub mod nadatx;
pub mod gcctx;
pub mod settings;
pub mod element;
