//! Why an operation fails.

use crate::socket::SocketID;
use vstd::prelude::*;

verus! {

#[derive(Clone, Copy, PartialEq, Eq, Structural, Debug)]
pub enum TcpError {
    /// There is no socket of this name.
    NoSuchSocket(SocketID),
    /// No connection of the listening socket is complete.
    NoConnectedSocket,
    /// No local port was found that is not in use.
    NoAvailablePort,
    /// The answer to a routing query is not UTF-8.
    RouteNotUtf8,
    /// The answer to a routing query names no source address.
    NoSourceAddr,
    /// The source address in the answer to a routing query cannot be read.
    BadSourceAddr,
}

} // verus!
