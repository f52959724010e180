//! A broadcast protocol implementation based on Kadcast.

pub mod addr;
pub mod assoc;
pub mod id;
pub mod laws;
pub mod message;
mod outside;
pub mod closest;
mod routing_table;
pub mod peering;
pub mod quic;
pub mod tcp;
pub mod traits;

pub use crate::addr::PeerAddr;
pub use crate::id::Id;
pub use crate::tcp::TcpRouter;
pub use crate::traits::ProcessData;
