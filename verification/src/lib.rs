//! The core of a small TCP stack.
//!
//! Everything that decides something lives here and is verified: telling which
//! socket a segment belongs to, the handshake, acknowledgement, segmentation
//! and retransmission. Raw sockets, threads and clocks belong to the caller: an
//! operation that has something to transmit hands the segment out, and a second
//! operation records that it went out.

pub mod addr;
pub mod checksum;
pub mod error;
pub mod event;
pub mod history;
pub mod laws;
pub mod packet;
pub mod protocol;
pub mod random;
pub mod route;
pub mod socket;
pub mod table;
pub mod tcp;
pub mod tcpflags;

pub use addr::Ipv4Addr;
pub use error::TcpError;
pub use event::{TCPEvent, TCPEventKind};
pub use packet::{Fields, TCPPacket};
pub use random::Generator;
pub use route::source_addr;
pub use socket::{RecvParam, SendParam, Socket, SocketID, TcpStatus};
pub use tcp::{Acknowledgement, Chunk, Opening, Reply, Retransmission, TCP};
