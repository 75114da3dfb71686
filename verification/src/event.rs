//! What the stack tells the callers that wait on it.

use crate::socket::SocketID;
use vstd::prelude::*;

verus! {

#[derive(Clone, Copy, PartialEq, Eq, Structural, Debug)]
pub enum TCPEventKind {
    ConnectionCompleted,
    Acked,
    DataArrived,
    ConnectionClosed,
}

/// Something that happened on a socket.
#[derive(Clone, Copy, PartialEq, Eq, Structural, Debug)]
pub struct TCPEvent {
    pub socket_id: SocketID,
    pub kind: TCPEventKind,
}

impl TCPEvent {
    pub fn new(socket_id: SocketID, kind: TCPEventKind) -> (r: Self)
        ensures
            r.socket_id == socket_id,
            r.kind == kind,
    {
        TCPEvent { socket_id, kind }
    }
}

} // verus!
