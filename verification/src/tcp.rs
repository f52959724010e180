//! Core router implementations fine-tuned for TCP.
//!
//! Notable differences with the paper:
//!
//! 1. The implementation is optimised for TCP (not UDP), thus we assume the connection with active
//!    peers to be sufficiently reliable over time to avoid duplicating broadcasts.
//! 2. The buckets store only the current active connections, as opposed to all the connections as
//!    described in the Kadcast paper.

pub mod router;

pub use router::{ConnState, TcpMeta, TcpRouter, TcpRouterView};
