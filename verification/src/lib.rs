//! A stall-tolerant relay for MPEG transport streams.
//!
//! The library holds the decisions of the relay: how the byte stream is cut
//! into packets and where discontinuities are announced (`ts`), when the reader
//! reconnects or gives up (`producer`), when the writer forwards or pads
//! (`consumer`), how the source is addressed and its answer accepted (`http`),
//! and what the once-a-second report holds (`summary`).

pub mod clock;
pub mod consumer;
pub mod disc;
pub mod framing;
pub mod http;
pub mod packet;
pub mod producer;
pub mod summary;
pub mod text;
pub mod ts;
