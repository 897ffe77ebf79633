//! H.264 Annex-B to RTP packetization.
//!
//! The crate scans a raw elementary stream for NAL units, and turns each unit
//! into the RTP datagrams that carry it: one datagram when the unit fits the
//! packet budget, a run of FU-A fragments when it does not.
//!
//! It owns no socket. A session appends its datagrams to an outbox, and the
//! caller sends them.

pub mod clock;
pub mod error;
pub mod nal;
pub mod packet;
pub mod pusher;
pub mod rtp;

pub use crate::error::PushError;
pub use crate::nal::get_nal;
pub use crate::nal::H264NalType;
pub use crate::pusher::H264RtpPusher;
pub use crate::rtp::RtpHeader;
