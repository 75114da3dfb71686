//! The stack: a table of sockets and the event that was published last.

use crate::addr::{Ipv4Addr, UNDETERMINED_IP_ADDR};
use crate::checksum::MAX_SEGMENT_SIZE;
use crate::error::TcpError;
use crate::event::{TCPEvent, TCPEventKind};
use crate::packet;
use crate::packet::{TCPPacket, TCP_HEADER_SIZE};
use crate::random::{Draw, Generator};
use crate::socket::{Socket, SocketID, SocketView, TcpStatus};
use crate::table::SocketTable;
use crate::tcpflags;
use vstd::prelude::*;

verus! {

/// The port of a peer that is not known yet.
pub const UNDETERMINED_PORT: u16 = 0;

/// The largest payload of a segment.
pub const MSS: usize = 1460;

/// The first local port that an active open may take.
pub const PORT_RANGE_START: u16 = 40000;

/// The port after the last that an active open may take.
pub const PORT_RANGE_END: u16 = 60000;

/// Initial sequence numbers are drawn from one up to this bound.
pub const INITIAL_SEQ_END: u32 = 0x8000_0000;

/// Whether a number can be drawn as an initial sequence number.
pub open spec fn initial_seq_ok(initial_seq: u32) -> bool {
    1 <= initial_seq < INITIAL_SEQ_END
}

/// The name under which a socket listens on an address and a port.
pub open spec fn listening_id(local_addr: Ipv4Addr, local_port: u16) -> SocketID {
    SocketID(
        local_addr,
        Ipv4Addr { bits: UNDETERMINED_IP_ADDR },
        local_port,
        UNDETERMINED_PORT,
    )
}

/// A connection to be, and the segment that opens it.
#[verifier::ext_equal]
pub struct OpeningView {
    pub socket: SocketView,
    pub packet: Seq<u8>,
}

impl OpeningView {
    /// What an active open starts with.
    pub open spec fn connect(
        local_addr: Ipv4Addr,
        remote_addr: Ipv4Addr,
        local_port: u16,
        remote_port: u16,
        initial_seq: u32,
    ) -> OpeningView {
        let socket = SocketView::connecting(
            local_addr,
            remote_addr,
            local_port,
            remote_port,
            initial_seq,
        );
        OpeningView { socket, packet: socket.syn() }
    }

    /// What a listening socket starts with when a SYN comes in.
    pub open spec fn accept(
        listener: SocketView,
        packet: Seq<u8>,
        remote_addr: Ipv4Addr,
        initial_seq: u32,
    ) -> OpeningView {
        let socket = listener.accepting(packet, remote_addr, initial_seq);
        OpeningView { socket, packet: socket.syn_ack() }
    }
}

/// An acknowledgement to send, and whether the connection is complete once it is out.
pub struct AcknowledgementView {
    pub socket_id: SocketID,
    pub packet: Seq<u8>,
    pub completed: bool,
}

/// What a received segment is answered with.
pub enum ReplyView {
    Open(OpeningView),
    Acknowledge(AcknowledgementView),
}

/// A part of a buffer in a segment of its own.
pub struct ChunkView {
    pub socket_id: SocketID,
    pub packet: Seq<u8>,
    pub size: nat,
}

/// The state of a stack.
#[verifier::ext_equal]
pub struct TcpView {
    pub sockets: Map<SocketID, SocketView>,
    pub event: Option<TCPEvent>,
}

impl TcpView {
    /// Every socket is valid and kept under its own name, and the sockets that
    /// it refers to exist; see [`TcpView::socket_wf`].
    pub open spec fn wf(self) -> bool {
        forall|id: SocketID| #[trigger]
            self.sockets.contains_key(id) ==> self.sockets[id].id() == id && self.socket_wf(
                self.sockets[id],
            )
    }

    /// Whether a socket is valid, the sockets that it refers to exist and share
    /// its address and port, and it listens under a listening name only.
    pub open spec fn socket_wf(self, socket: SocketView) -> bool {
        &&& socket.wf()
        &&& socket.status == TcpStatus::Listen ==> socket.id() == listening_id(
            socket.local_addr,
            socket.local_port,
        )
        &&& socket.listening_socket matches Some(id) ==> self.sockets.contains_key(id) && id.0
            == socket.local_addr && id.2 == socket.local_port
        &&& forall|i: int|
            0 <= i < socket.connected_connection_queue.len() ==> self.sockets.contains_key(
                #[trigger] socket.connected_connection_queue[i],
            ) && socket.connected_connection_queue[i].0 == socket.local_addr
                && socket.connected_connection_queue[i].2 == socket.local_port
    }

    pub open spec fn with_socket(self, id: SocketID, socket: SocketView) -> TcpView {
        TcpView { sockets: self.sockets.insert(id, socket), ..self }
    }

    pub open spec fn with_event(self, socket_id: SocketID, kind: TCPEventKind) -> TcpView {
        TcpView { event: Some(TCPEvent { socket_id, kind }), ..self }
    }

    /// The state after a socket was opened that waits for connections.
    pub open spec fn after_listening(self, local_addr: Ipv4Addr, local_port: u16) -> TcpView {
        self.with_socket(
            listening_id(local_addr, local_port),
            SocketView::fresh(
                local_addr,
                Ipv4Addr { bits: UNDETERMINED_IP_ADDR },
                local_port,
                UNDETERMINED_PORT,
                TcpStatus::Listen,
            ),
        )
    }

    /// The connections of a socket that are complete and wait to be accepted.
    pub open spec fn waiting(self, id: SocketID) -> Seq<SocketID> {
        self.sockets[id].connected_connection_queue
    }

    /// Whether accepting on a socket hands out a connection.
    pub open spec fn can_accept(self, id: SocketID) -> bool {
        self.sockets.contains_key(id) && self.waiting(id).len() > 0
    }

    /// The state after the connection that has waited longest was handed out.
    pub open spec fn after_accepting(self, id: SocketID) -> TcpView {
        self.with_socket(
            id,
            SocketView {
                connected_connection_queue: self.waiting(id).drop_first(),
                ..self.sockets[id]
            },
        )
    }

    /// Whether some socket uses a local port.
    pub open spec fn port_used(self, port: u16) -> bool {
        exists|id: SocketID| #[trigger] self.sockets.contains_key(id) && id.2 == port
    }

    /// The socket that a segment between two addresses belongs to: the
    /// connection between its two ends, or else the socket that listens there.
    pub open spec fn demux(
        self,
        local_addr: Ipv4Addr,
        remote_addr: Ipv4Addr,
        packet: Seq<u8>,
    ) -> Option<SocketID> {
        let connected = SocketID(
            local_addr,
            remote_addr,
            packet::dest_of(packet),
            packet::src_of(packet),
        );
        let listening = listening_id(local_addr, packet::dest_of(packet));
        if self.sockets.contains_key(connected) {
            Some(connected)
        } else if self.sockets.contains_key(listening) {
            Some(listening)
        } else {
            None
        }
    }

    /// The socket that the payload of a datagram is handed to: none if it is
    /// too short for a header, does not come from an IPv4 address, belongs to
    /// no socket or carries a wrong checksum.
    pub open spec fn delivered_to(
        self,
        local_addr: Ipv4Addr,
        remote_addr: Option<Ipv4Addr>,
        payload: Seq<u8>,
    ) -> Option<SocketID> {
        match remote_addr {
            Some(remote) => if payload.len() >= TCP_HEADER_SIZE && packet::checksum_ok(
                payload,
                local_addr,
                remote,
            ) {
                self.demux(local_addr, remote, payload)
            } else {
                None
            },
            None => None,
        }
    }

    /// Whether a segment asks a listening socket for a connection: it carries
    /// SYN and no ACK.
    pub open spec fn asks_for_connection(packet: Seq<u8>) -> bool {
        !packet::has_flag(packet, tcpflags::ACK) && packet::has_flag(packet, tcpflags::SYN)
    }

    /// Whether the number after a segment's sequence number is needed and
    /// there is none.
    pub open spec fn seq_overflows(
        self,
        local_addr: Ipv4Addr,
        remote_addr: Option<Ipv4Addr>,
        payload: Seq<u8>,
    ) -> bool {
        match self.delivered_to(local_addr, remote_addr, payload) {
            Some(id) => packet::seq_of(payload) == u32::MAX && match self.sockets[id].status {
                TcpStatus::Listen => Self::asks_for_connection(payload),
                TcpStatus::SynSent => self.sockets[id].synsent_accepts(payload),
                _ => false,
            },
            None => false,
        }
    }

    /// The state once the socket `id`, waiting for the end of a handshake, took
    /// in a segment. A connection that is complete by that is queued at its
    /// listening socket.
    pub open spec fn after_synrcvd(self, id: SocketID, packet: Seq<u8>) -> TcpView {
        let socket = self.sockets[id];
        if socket.synrcvd_accepts(packet) {
            let stepped = self.with_socket(id, socket.after_synrcvd(packet));
            match socket.listening_socket {
                Some(listening) => {
                    let listener = stepped.sockets[listening];
                    stepped.with_socket(
                        listening,
                        SocketView {
                            connected_connection_queue: listener.connected_connection_queue.push(
                                id,
                            ),
                            ..listener
                        },
                    ).with_event(listening, TCPEventKind::ConnectionCompleted)
                },
                None => stepped,
            }
        } else {
            self
        }
    }

    /// The state once the socket `id`, whose SYN is out, took in a segment.
    pub open spec fn after_synsent(self, id: SocketID, packet: Seq<u8>) -> TcpView {
        if self.sockets[id].synsent_accepts(packet) {
            self.with_socket(id, self.sockets[id].after_synsent(packet))
        } else {
            self
        }
    }

    /// The state once the socket `id`, whose connection stands, took in a segment.
    pub open spec fn after_established(self, id: SocketID, packet: Seq<u8>) -> TcpView {
        let socket = self.sockets[id];
        if socket.advances(packet) {
            let stepped = self.with_socket(id, socket.after_ack(packet));
            if socket.ack_frees(packet) {
                stepped.with_event(id, TCPEventKind::Acked)
            } else {
                stepped
            }
        } else {
            self
        }
    }

    /// The state after a datagram came in.
    pub open spec fn after_receiving(
        self,
        local_addr: Ipv4Addr,
        remote_addr: Option<Ipv4Addr>,
        payload: Seq<u8>,
    ) -> TcpView {
        match self.delivered_to(local_addr, remote_addr, payload) {
            Some(id) => match self.sockets[id].status {
                TcpStatus::SynRcvd => self.after_synrcvd(id, payload),
                TcpStatus::SynSent => self.after_synsent(id, payload),
                TcpStatus::Estableished => self.after_established(id, payload),
                _ => self,
            },
            None => self,
        }
    }

    /// What a datagram is answered with, `initial_seq` being the number of the
    /// own SYN if one is sent.
    pub open spec fn reply(
        self,
        local_addr: Ipv4Addr,
        remote_addr: Option<Ipv4Addr>,
        payload: Seq<u8>,
        initial_seq: u32,
    ) -> Option<ReplyView> {
        match self.delivered_to(local_addr, remote_addr, payload) {
            Some(id) => {
                let socket = self.sockets[id];
                match socket.status {
                    TcpStatus::Listen => if Self::asks_for_connection(payload) {
                        Some(
                            ReplyView::Open(
                                OpeningView::accept(
                                    socket,
                                    payload,
                                    remote_addr->0,
                                    initial_seq,
                                ),
                            ),
                        )
                    } else {
                        None
                    },
                    TcpStatus::SynSent => if socket.synsent_accepts(payload) {
                        let stepped = socket.after_synsent(payload);
                        Some(
                            ReplyView::Acknowledge(
                                AcknowledgementView {
                                    socket_id: id,
                                    packet: stepped.bare_ack(),
                                    completed: stepped.status == TcpStatus::Estableished,
                                },
                            ),
                        )
                    } else {
                        None
                    },
                    _ => None,
                }
            },
            None => None,
        }
    }

    /// Whether a connection to be fits into the table.
    pub open spec fn can_open(self, opening: OpeningView) -> bool {
        self.socket_wf(opening.socket)
    }

    /// Whether what a reply leads to fits into the table.
    pub open spec fn can_reply(self, reply: ReplyView) -> bool {
        reply matches ReplyView::Open(opening) ==> self.can_open(opening)
    }

    /// The state once the first segment of a connection is out.
    pub open spec fn after_opening(self, opening: OpeningView, now: u128) -> TcpView {
        self.with_socket(opening.socket.id(), opening.socket.after_sending(opening.packet, now))
    }

    /// The state once an acknowledgement is out.
    pub open spec fn after_acknowledging(self, ack: AcknowledgementView) -> TcpView {
        if ack.completed {
            self.with_event(ack.socket_id, TCPEventKind::ConnectionCompleted)
        } else {
            self
        }
    }

    /// The part of `buffer` at `cursor` that goes out next on the socket `id`.
    pub open spec fn chunk_at(self, id: SocketID, buffer: Seq<u8>, cursor: int) -> ChunkView {
        let socket = self.sockets[id];
        let size = if buffer.len() - cursor < MSS {
            buffer.len() - cursor
        } else {
            MSS as int
        };
        ChunkView {
            socket_id: id,
            packet: socket.segment(
                socket.send_param.next,
                socket.recv_param.next,
                tcpflags::ACK,
                buffer.subrange(cursor, cursor + size),
            ),
            size: size as nat,
        }
    }

    /// Whether the sequence numbers run out with a chunk.
    pub open spec fn chunk_overflows(self, chunk: ChunkView) -> bool {
        self.sockets[chunk.socket_id].send_param.next + chunk.size > u32::MAX
    }

    /// The state once a chunk is out.
    pub open spec fn after_chunk(self, chunk: ChunkView, now: u128) -> TcpView {
        self.with_socket(
            chunk.socket_id,
            self.sockets[chunk.socket_id].after_data(chunk.packet, chunk.size as int, now),
        )
    }

    /// Whether the timer would have to measure a negative time.
    pub open spec fn clock_behind(self, now: u128) -> bool {
        exists|id: SocketID| #[trigger]
            self.sockets.contains_key(id) && self.sockets[id].clock_behind(now)
    }

    /// The state after the timer.
    pub open spec fn after_timer(self, now: u128) -> TcpView {
        TcpView {
            sockets: self.sockets.map_values(|socket: SocketView| socket.after_timer(now)),
            ..self
        }
    }

    /// What looking for a free port returns, given what is drawn for it: the
    /// first port that no socket uses, or an error after a full round.
    pub open spec fn selects_port(
        self,
        draws: Seq<Draw>,
        result: Result<u16, TcpError>,
    ) -> bool {
        &&& forall|i: int|
            0 <= i < draws.len() ==> (#[trigger] draws[i]).is_from(
                PORT_RANGE_START as u32,
                PORT_RANGE_END as u32,
            )
        &&& match result {
            Ok(port) => {
                &&& 1 <= draws.len() <= PORT_RANGE_END - PORT_RANGE_START
                &&& draws.last().number == port
                &&& !self.port_used(port)
                &&& forall|i: int|
                    0 <= i < draws.len() - 1 ==> self.port_used(
                        (#[trigger] draws[i]).number as u16,
                    )
            },
            Err(error) => {
                &&& error == TcpError::NoAvailablePort
                &&& draws.len() == PORT_RANGE_END - PORT_RANGE_START
                &&& forall|i: int|
                    0 <= i < draws.len() ==> self.port_used((#[trigger] draws[i]).number as u16)
            },
        }
    }

    /// What an active open returns, given what is drawn for it: the local port,
    /// and if one is found the initial sequence number.
    pub open spec fn connects(
        self,
        draws: Seq<Draw>,
        local_addr: Ipv4Addr,
        addr: Ipv4Addr,
        port: u16,
        result: Result<OpeningView, TcpError>,
    ) -> bool {
        match result {
            Ok(opening) => {
                &&& draws.len() > 1
                &&& draws.last().is_from(1, INITIAL_SEQ_END)
                &&& self.selects_port(draws.drop_last(), Ok(opening.socket.local_port))
                &&& opening == OpeningView::connect(
                    local_addr,
                    addr,
                    opening.socket.local_port,
                    port,
                    draws.last().number,
                )
            },
            Err(error) => self.selects_port(draws, Err(error)),
        }
    }
}

/// A connection that is in the table once its first segment went out.
pub struct Opening {
    socket: Socket,
    packet: TCPPacket,
}

impl View for Opening {
    type V = OpeningView;

    closed spec fn view(&self) -> OpeningView {
        OpeningView { socket: self.socket@, packet: self.packet@ }
    }
}

impl Opening {
    /// Starts an active open from a chosen port with a chosen initial sequence
    /// number.
    pub fn connect(
        local_addr: Ipv4Addr,
        remote_addr: Ipv4Addr,
        local_port: u16,
        remote_port: u16,
        initial_seq: u32,
    ) -> (r: Self)
        requires
            initial_seq < u32::MAX,
        ensures
            r@ == OpeningView::connect(
                local_addr,
                remote_addr,
                local_port,
                remote_port,
                initial_seq,
            ),
            r@.socket.wf(),
    {
        let (socket, packet) = Socket::connecting(
            local_addr,
            remote_addr,
            local_port,
            remote_port,
            initial_seq,
        );
        Opening { socket, packet }
    }

    /// The name of the connection.
    pub fn socket_id(&self) -> (r: SocketID)
        ensures
            r == self@.socket.id(),
    {
        self.socket.get_socket_id()
    }

    /// The segment to send.
    pub fn packet(&self) -> (r: &TCPPacket)
        ensures
            r@ == self@.packet,
    {
        &self.packet
    }
}

/// What an active open returns, as a value of the model.
pub open spec fn opening_view(r: Result<Opening, TcpError>) -> Result<OpeningView, TcpError> {
    match r {
        Ok(opening) => Ok(opening@),
        Err(error) => Err(error),
    }
}

/// An acknowledgement to send.
pub struct Acknowledgement {
    pub socket_id: SocketID,
    pub packet: TCPPacket,
    pub completed: bool,
}

impl View for Acknowledgement {
    type V = AcknowledgementView;

    open spec fn view(&self) -> AcknowledgementView {
        AcknowledgementView {
            socket_id: self.socket_id,
            packet: self.packet@,
            completed: self.completed,
        }
    }
}

/// What a received segment is answered with.
pub enum Reply {
    /// A listening socket opens a connection: send the segment on a socket of
    /// its own, then call [`TCP::opened`].
    Open(Opening),
    /// Send the segment on an existing socket, then call [`TCP::acknowledged`].
    Acknowledge(Acknowledgement),
}

impl View for Reply {
    type V = ReplyView;

    open spec fn view(&self) -> ReplyView {
        match self {
            Reply::Open(opening) => ReplyView::Open(opening@),
            Reply::Acknowledge(ack) => ReplyView::Acknowledge(ack@),
        }
    }
}

/// A part of a buffer in a segment of its own.
pub struct Chunk {
    pub socket_id: SocketID,
    pub packet: TCPPacket,
    pub size: usize,
}

impl View for Chunk {
    type V = ChunkView;

    open spec fn view(&self) -> ChunkView {
        ChunkView { socket_id: self.socket_id, packet: self.packet@, size: self.size as nat }
    }
}

/// A segment to be sent again.
pub struct Retransmission {
    pub socket_id: SocketID,
    pub packet: TCPPacket,
}

/// What the model says of a reply, a chunk and the result of an active open is
/// what their fields hold.
pub proof fn views_show_the_fields(
    opening: Opening,
    ack: Acknowledgement,
    chunk: Chunk,
    error: TcpError,
)
    ensures
        ack@.socket_id == ack.socket_id,
        ack@.packet == ack.packet@,
        ack@.completed == ack.completed,
        chunk@.socket_id == chunk.socket_id,
        chunk@.packet == chunk.packet@,
        chunk@.size == chunk.size,
        Reply::Open(opening)@ == ReplyView::Open(opening@),
        Reply::Acknowledge(ack)@ == ReplyView::Acknowledge(ack@),
        opening_view(Ok(opening)) == Ok::<OpeningView, TcpError>(opening@),
        opening_view(Err(error)) == Err::<OpeningView, TcpError>(error),
{
}

/// A stack in a valid state has a valid view, which is what the laws speak of.
pub proof fn wf_view(tcp: &TCP)
    requires
        tcp.wf(),
    ensures
        tcp@.wf(),
{
}

/// The sockets of a host, and the event that was published last.
pub struct TCP {
    sockets: SocketTable,
    event: Option<TCPEvent>,
}

impl View for TCP {
    type V = TcpView;

    closed spec fn view(&self) -> TcpView {
        TcpView { sockets: self.sockets@, event: self.event }
    }
}

impl TCP {
    /// Whether the stack is in a valid state; see [`TcpView::wf`].
    pub closed spec fn wf(&self) -> bool {
        self.sockets.wf() && self@.wf()
    }

    /// A stack without sockets.
    pub fn new() -> (r: Self)
        ensures
            r.wf(),
            r@.sockets == Map::<SocketID, SocketView>::empty(),
            r@.event is None,
    {
        TCP { sockets: SocketTable::new(), event: None }
    }

    /// The socket of a name.
    pub fn socket(&self, id: SocketID) -> (r: Option<&Socket>)
        ensures
            r is Some <==> self@.sockets.contains_key(id),
            r matches Some(socket) ==> socket@ == self@.sockets[id],
    {
        self.sockets.get(id)
    }

    /// Publishes an event in place of the one published before.
    pub fn publish_event(&mut self, socket_id: SocketID, kind: TCPEventKind)
        requires
            old(self).wf(),
        ensures
            final(self).wf(),
            final(self)@ == old(self)@.with_event(socket_id, kind),
    {
        self.event = Some(TCPEvent::new(socket_id, kind));
    }

    /// Takes the published event if it is the one waited for, and tells whether
    /// it was.
    pub fn take_event(&mut self, socket_id: SocketID, kind: TCPEventKind) -> (r: bool)
        requires
            old(self).wf(),
        ensures
            final(self).wf(),
            r == (old(self)@.event == Some(TCPEvent { socket_id, kind })),
            final(self)@ == (if r {
                TcpView { event: None, ..old(self)@ }
            } else {
                old(self)@
            }),
    {
        if let Some(event) = self.event {
            if event.socket_id == socket_id && event.kind == kind {
                self.event = None;
                return true;
            }
        }
        false
    }

    /// Opens a socket that waits for connections on a port, in place of any
    /// socket of that name.
    pub fn listen(&mut self, local_addr: Ipv4Addr, local_port: u16) -> (r: SocketID)
        requires
            old(self).wf(),
        ensures
            final(self).wf(),
            r == listening_id(local_addr, local_port),
            final(self)@ == old(self)@.after_listening(local_addr, local_port),
    {
        let socket = Socket::new(
            local_addr,
            Ipv4Addr { bits: UNDETERMINED_IP_ADDR },
            local_port,
            UNDETERMINED_PORT,
            TcpStatus::Listen,
        );
        let socket_id: SocketID = socket.get_socket_id();
        self.sockets.insert(socket_id, socket);
        socket_id
    }

    /// Hands out the connection of a listening socket that was completed first.
    pub fn accept(&mut self, socket_id: SocketID) -> (r: Result<SocketID, TcpError>)
        requires
            old(self).wf(),
        ensures
            final(self).wf(),
            match r {
                Ok(id) => {
                    &&& old(self)@.can_accept(socket_id)
                    &&& id == old(self)@.waiting(socket_id)[0]
                    &&& old(self)@.sockets.contains_key(id)
                    &&& id.0 == socket_id.0
                    &&& id.2 == socket_id.2
                    &&& final(self)@ == old(self)@.after_accepting(socket_id)
                },
                Err(error) => {
                    &&& !old(self)@.can_accept(socket_id)
                    &&& final(self)@ == old(self)@
                    &&& error == if old(self)@.sockets.contains_key(socket_id) {
                        TcpError::NoConnectedSocket
                    } else {
                        TcpError::NoSuchSocket(socket_id)
                    }
                },
            },
    {
        let ghost before = self@;
        let r = match self.sockets.get_mut(socket_id) {
            Some(socket) => match socket.pop_connected() {
                Some(id) => Ok(id),
                None => Err(TcpError::NoConnectedSocket),
            },
            None => Err(TcpError::NoSuchSocket(socket_id)),
        };
        proof {
            if r is Ok {
                let queue = before.sockets[socket_id].connected_connection_queue;
                assert(before.socket_wf(before.sockets[socket_id]));
                assert(before.sockets.contains_key(queue[0]));
                assert forall|i: int| 0 <= i < queue.len() - 1 implies before.sockets.contains_key(
                    #[trigger] queue.drop_first()[i],
                ) by {
                    assert(queue.drop_first()[i] == queue[i + 1]);
                }
            } else {
                assert(self@ =~= before);
            }
        }
        r
    }

    /// The part of `buffer` at `cursor` that goes out next on a socket: `None`
    /// once nothing is left. Send the segment, then call [`TCP::chunk_sent`]
    /// and go on after the chunk.
    pub fn send(&self, socket_id: SocketID, buffer: &[u8], cursor: usize) -> (r: Result<
        Option<Chunk>,
        TcpError,
    >)
        ensures
            match r {
                Ok(Some(chunk)) => {
                    &&& cursor < buffer@.len()
                    &&& self@.sockets.contains_key(socket_id)
                    &&& chunk@ == self@.chunk_at(socket_id, buffer@, cursor as int)
                },
                Ok(None) => cursor >= buffer@.len(),
                Err(error) => {
                    &&& cursor < buffer@.len()
                    &&& !self@.sockets.contains_key(socket_id)
                    &&& error == TcpError::NoSuchSocket(socket_id)
                },
            },
    {
        if cursor >= buffer.len() {
            return Ok(None);
        }
        match self.sockets.get(socket_id) {
            Some(socket) => {
                let left: usize = buffer.len() - cursor;
                let size: usize = if MSS < left {
                    MSS
                } else {
                    left
                };
                let packet = socket.tcp_packet(
                    socket.send_param().next,
                    socket.recv_param().next,
                    tcpflags::ACK,
                    vstd::slice::slice_subrange(buffer, cursor, cursor + size),
                );
                Ok(Some(Chunk { socket_id, packet, size }))
            },
            None => Err(TcpError::NoSuchSocket(socket_id)),
        }
    }

    /// Whether the sequence numbers run out with a chunk.
    pub fn is_chunk_overflowing(&self, chunk: &Chunk) -> (r: bool)
        requires
            self@.sockets.contains_key(chunk.socket_id),
        ensures
            r == self@.chunk_overflows(chunk@),
    {
        match self.sockets.get(chunk.socket_id) {
            Some(socket) => chunk.size > (u32::MAX - socket.send_param().next) as usize,
            None => false,
        }
    }

    /// Records that a chunk went out.
    pub fn chunk_sent(&mut self, chunk: Chunk, now: u128)
        requires
            old(self).wf(),
            old(self)@.sockets.contains_key(chunk.socket_id),
            !old(self)@.chunk_overflows(chunk@),
        ensures
            final(self).wf(),
            final(self)@ == old(self)@.after_chunk(chunk@, now),
    {
        if let Some(socket) = self.sockets.get_mut(chunk.socket_id) {
            socket.data_sent(chunk.packet, chunk.size as u32, now);
        }
    }

    /// Records that the first segment of a connection went out: the socket is
    /// in the table from now on.
    pub fn opened(&mut self, opening: Opening, now: u128) -> (r: SocketID)
        requires
            old(self).wf(),
            old(self)@.can_open(opening@),
        ensures
            final(self).wf(),
            r == opening@.socket.id(),
            final(self)@ == old(self)@.after_opening(opening@, now),
    {
        let mut socket = opening.socket;
        socket.tcp_packet_sent(opening.packet, now);
        let socket_id: SocketID = socket.get_socket_id();
        self.sockets.insert(socket_id, socket);
        socket_id
    }

    /// Records that an acknowledgement went out: if it completes a connection,
    /// that is published.
    pub fn acknowledged(&mut self, ack: Acknowledgement)
        requires
            old(self).wf(),
        ensures
            final(self).wf(),
            final(self)@ == old(self)@.after_acknowledging(ack@),
    {
        if ack.completed {
            self.publish_event(ack.socket_id, TCPEventKind::ConnectionCompleted);
        }
    }

    /// Whether no socket uses a local port.
    pub fn is_port_unused(&self, port: u16) -> (r: bool)
        requires
            self.wf(),
        ensures
            r == !self@.port_used(port),
    {
        assert(self@.sockets == self.sockets@);
        !self.sockets.uses_local_port(port)
    }

    /// Decides on the port that was drawn in a round: it is taken if no socket
    /// uses it, and after the last round the search is given up.
    pub fn try_port(&self, drawn: u16, round: u16) -> (r: Option<Result<u16, TcpError>>)
        requires
            self.wf(),
            round < PORT_RANGE_END - PORT_RANGE_START,
        ensures
            r == (if !self@.port_used(drawn) {
                Some(Ok::<u16, TcpError>(drawn))
            } else if round + 1 == PORT_RANGE_END - PORT_RANGE_START {
                Some(Err(TcpError::NoAvailablePort))
            } else {
                None
            }),
    {
        if self.is_port_unused(drawn) {
            Some(Ok(drawn))
        } else if round + 1 == PORT_RANGE_END - PORT_RANGE_START {
            Some(Err(TcpError::NoAvailablePort))
        } else {
            None
        }
    }

    /// Draws ports until one is not in use.
    pub fn select_unused_port(&self, rng: &mut Generator) -> (r: Result<u16, TcpError>)
        requires
            self.wf(),
        ensures
            old(rng).drawn().is_prefix_of(final(rng).drawn()),
            self@.selects_port(final(rng).drawn().skip(old(rng).drawn().len() as int), r),
    {
        let ghost before = rng.drawn();
        let ghost mut draws: Seq<Draw> = Seq::empty();
        let mut round: u16 = 0;
        assert(before + draws =~= before);
        loop
            invariant
                self.wf(),
                rng.drawn() == before + draws,
                before == old(rng).drawn(),
                draws.len() == round < PORT_RANGE_END - PORT_RANGE_START,
                forall|i: int|
                    0 <= i < draws.len() ==> (#[trigger] draws[i]).is_from(
                        PORT_RANGE_START as u32,
                        PORT_RANGE_END as u32,
                    ) && self@.port_used(draws[i].number as u16),
            decreases PORT_RANGE_END - PORT_RANGE_START - round,
        {
            let number: u32 = rng.draw(PORT_RANGE_START as u32, PORT_RANGE_END as u32);
            proof {
                draws = draws.push(
                    Draw { start: PORT_RANGE_START as u32, end: PORT_RANGE_END as u32, number },
                );
                assert(rng.drawn() =~= before + draws);
                assert(rng.drawn().skip(before.len() as int) =~= draws);
            }
            if let Some(result) = self.try_port(number as u16, round) {
                return result;
            }
            round = round + 1;
        }
    }

    /// Starts an active open to a peer, as [`TCP::connect`] does, with a given
    /// generator.
    pub fn connect_with(
        &self,
        rng: &mut Generator,
        local_addr: Ipv4Addr,
        addr: Ipv4Addr,
        port: u16,
    ) -> (r: Result<Opening, TcpError>)
        requires
            self.wf(),
        ensures
            old(rng).drawn().is_prefix_of(final(rng).drawn()),
            self@.connects(
                final(rng).drawn().skip(old(rng).drawn().len() as int),
                local_addr,
                addr,
                port,
                opening_view(r),
            ),
            r matches Ok(opening) ==> self@.can_open(opening@),
    {
        let ghost before = rng.drawn();
        match self.select_unused_port(rng) {
            Ok(local_port) => {
                let ghost draws = rng.drawn().skip(before.len() as int);
                let initial_seq: u32 = rng.draw(1, INITIAL_SEQ_END);
                assert(rng.drawn().skip(before.len() as int).drop_last() =~= draws);
                Ok(Opening::connect(local_addr, addr, local_port, port, initial_seq))
            },
            Err(error) => Err(error),
        }
    }

    /// Starts an active open to a peer, from a random port that is not in use
    /// and with a random initial sequence number. Send the segment, then call
    /// [`TCP::opened`] and wait for `ConnectionCompleted` on the socket.
    pub fn connect(&self, local_addr: Ipv4Addr, addr: Ipv4Addr, port: u16) -> (r: Result<
        Opening,
        TcpError,
    >)
        requires
            self.wf(),
        ensures
            exists|rng: Generator|
                self@.connects(#[trigger] rng.drawn(), local_addr, addr, port, opening_view(r)),
            r matches Ok(opening) ==> self@.can_open(opening@),
    {
        let mut rng: Generator = Generator::new();
        let r = self.connect_with(&mut rng, local_addr, addr, port);
        assert(rng.drawn().skip(0) =~= rng.drawn());
        r
    }

    /// Finds the socket that the payload of a datagram is handed to, and reads
    /// the segment.
    fn deliver(
        &self,
        local_addr: Ipv4Addr,
        remote_addr: Option<Ipv4Addr>,
        payload: &[u8],
    ) -> (r: Option<(SocketID, TCPPacket)>)
        requires
            payload@.len() <= MAX_SEGMENT_SIZE,
        ensures
            match r {
                Some((id, packet)) => {
                    &&& self@.delivered_to(local_addr, remote_addr, payload@) == Some(id)
                    &&& self@.sockets.contains_key(id)
                    &&& packet@ == payload@
                    &&& remote_addr is Some
                },
                None => self@.delivered_to(local_addr, remote_addr, payload@) is None,
            },
    {
        let packet = match TCPPacket::parse(payload) {
            Some(packet) => packet,
            None => {
                return None;
            },
        };
        let remote: Ipv4Addr = match remote_addr {
            Some(remote) => remote,
            None => {
                return None;
            },
        };
        let connected: SocketID = SocketID(
            local_addr,
            remote,
            packet.get_dest(),
            packet.get_src(),
        );
        let listening: SocketID = SocketID(
            local_addr,
            Ipv4Addr { bits: UNDETERMINED_IP_ADDR },
            packet.get_dest(),
            UNDETERMINED_PORT,
        );
        let id: SocketID = if self.sockets.contains(connected) {
            connected
        } else if self.sockets.contains(listening) {
            listening
        } else {
            return None;
        };
        if packet.is_correct_checksum(local_addr, remote) {
            Some((id, packet))
        } else {
            None
        }
    }

    /// Whether the number after a segment's sequence number is needed and
    /// there is none.
    pub fn is_seq_overflowing(
        &self,
        local_addr: Ipv4Addr,
        remote_addr: Option<Ipv4Addr>,
        payload: &[u8],
    ) -> (r: bool)
        requires
            payload@.len() <= MAX_SEGMENT_SIZE,
        ensures
            r == self@.seq_overflows(local_addr, remote_addr, payload@),
    {
        match self.deliver(local_addr, remote_addr, payload) {
            Some((id, packet)) => {
                if packet.get_seq() < u32::MAX {
                    return false;
                }
                match self.sockets.get(id) {
                    Some(socket) => match socket.status() {
                        TcpStatus::Listen => packet.get_flag() & tcpflags::ACK == 0
                            && packet.get_flag() & tcpflags::SYN > 0,
                        TcpStatus::SynSent => socket.is_answering_syn(&packet),
                        _ => false,
                    },
                    None => false,
                }
            },
            None => false,
        }
    }

    /// Answers a SYN that came in at a listening socket.
    fn listen_handler(
        &self,
        listening_socket_id: SocketID,
        packet: &TCPPacket,
        remote_addr: Ipv4Addr,
        initial_seq: u32,
    ) -> (r: Option<Reply>)
        requires
            self.wf(),
            self@.sockets.contains_key(listening_socket_id),
            TcpView::asks_for_connection(packet@) ==> packet::seq_of(packet@) < u32::MAX,
            initial_seq < u32::MAX,
        ensures
            r is Some <==> TcpView::asks_for_connection(packet@),
            r matches Some(reply) ==> reply@ == ReplyView::Open(
                OpeningView::accept(
                    self@.sockets[listening_socket_id],
                    packet@,
                    remote_addr,
                    initial_seq,
                ),
            ) && self@.can_reply(reply@),
    {
        if packet.get_flag() & tcpflags::ACK > 0 {
            return None;
        }
        if packet.get_flag() & tcpflags::SYN > 0 {
            if let Some(listening_socket) = self.sockets.get(listening_socket_id) {
                let (socket, packet) = listening_socket.accepting(
                    packet,
                    remote_addr,
                    initial_seq,
                );
                return Some(Reply::Open(Opening { socket, packet }));
            }
        }
        None
    }

    /// Takes in a segment at a socket whose SYN is out.
    fn synsent_handler(&mut self, socket_id: SocketID, packet: &TCPPacket) -> (r: Option<Reply>)
        requires
            old(self).wf(),
            old(self)@.sockets.contains_key(socket_id),
            old(self)@.sockets[socket_id].synsent_accepts(packet@) ==> packet::seq_of(packet@)
                < u32::MAX,
        ensures
            final(self).wf(),
            final(self)@ == old(self)@.after_synsent(socket_id, packet@),
            r is Some <==> old(self)@.sockets[socket_id].synsent_accepts(packet@),
            r matches Some(reply) ==> {
                let stepped = old(self)@.sockets[socket_id].after_synsent(packet@);
                reply@ == ReplyView::Acknowledge(
                    AcknowledgementView {
                        socket_id,
                        packet: stepped.bare_ack(),
                        completed: stepped.status == TcpStatus::Estableished,
                    },
                )
            },
    {
        let ghost before = self@;
        let r = match self.sockets.get_mut(socket_id) {
            Some(socket) => match socket.handle_synsent(packet) {
                Some(packet) => {
                    let completed = socket.status() == TcpStatus::Estableished;
                    Some(Reply::Acknowledge(Acknowledgement { socket_id, packet, completed }))
                },
                None => None,
            },
            None => None,
        };
        proof {
            assert(before.socket_wf(before.sockets[socket_id]));
            assert(self@ =~= before.after_synsent(socket_id, packet@));
        }
        r
    }

    /// Takes in a segment at a socket that waits for the end of a handshake.
    fn synrcvd_handler(&mut self, socket_id: SocketID, packet: &TCPPacket)
        requires
            old(self).wf(),
            old(self)@.sockets.contains_key(socket_id),
        ensures
            final(self).wf(),
            final(self)@ == old(self)@.after_synrcvd(socket_id, packet@),
    {
        let ghost before = self@;
        let mut listening: Option<SocketID> = None;
        if let Some(socket) = self.sockets.get_mut(socket_id) {
            if socket.handle_synrcvd(packet) {
                listening = socket.listening_socket();
            }
        }
        proof {
            assert(before.socket_wf(before.sockets[socket_id]));
            let stepped = self@;
            assert(stepped.wf());
            if !before.sockets[socket_id].synrcvd_accepts(packet@) {
                assert(stepped =~= before);
            }
        }
        if let Some(id) = listening {
            let ghost stepped = self@;
            if let Some(listening_socket) = self.sockets.get_mut(id) {
                listening_socket.push_connected(socket_id);
            }
            proof {
                assert(stepped.socket_wf(stepped.sockets[id]));
            }
            self.publish_event(id, TCPEventKind::ConnectionCompleted);
        }
    }

    /// Takes in a segment on an established connection.
    fn established_handler(&mut self, socket_id: SocketID, packet: &TCPPacket)
        requires
            old(self).wf(),
            old(self)@.sockets.contains_key(socket_id),
        ensures
            final(self).wf(),
            final(self)@ == old(self)@.after_established(socket_id, packet@),
    {
        let ghost before = self@;
        let mut acked = false;
        if let Some(socket) = self.sockets.get_mut(socket_id) {
            acked = socket.handle_established(packet);
        }
        proof {
            assert(before.socket_wf(before.sockets[socket_id]));
            if !before.sockets[socket_id].advances(packet@) {
                assert(self@ =~= before);
            }
        }
        if acked {
            self.publish_event(socket_id, TCPEventKind::Acked);
        }
    }

    /// Takes in the payload of a datagram, `initial_seq` being the number of
    /// the own SYN if one is sent.
    pub fn receive(
        &mut self,
        local_addr: Ipv4Addr,
        remote_addr: Option<Ipv4Addr>,
        payload: &[u8],
        initial_seq: u32,
    ) -> (r: Option<Reply>)
        requires
            old(self).wf(),
            payload@.len() <= MAX_SEGMENT_SIZE,
            initial_seq < u32::MAX,
            !old(self)@.seq_overflows(local_addr, remote_addr, payload@),
        ensures
            final(self).wf(),
            final(self)@ == old(self)@.after_receiving(local_addr, remote_addr, payload@),
            match r {
                Some(reply) => old(self)@.reply(local_addr, remote_addr, payload@, initial_seq)
                    == Some(reply@) && final(self)@.can_reply(reply@),
                None => old(self)@.reply(local_addr, remote_addr, payload@, initial_seq) is None,
            },
    {
        let (socket_id, packet) = match self.deliver(local_addr, remote_addr, payload) {
            Some(found) => found,
            None => {
                return None;
            },
        };
        let status: TcpStatus = match self.sockets.get(socket_id) {
            Some(socket) => socket.status(),
            None => {
                return None;
            },
        };
        match status {
            TcpStatus::Listen => match remote_addr {
                Some(remote) => self.listen_handler(socket_id, &packet, remote, initial_seq),
                None => None,
            },
            TcpStatus::SynRcvd => {
                self.synrcvd_handler(socket_id, &packet);
                None
            },
            TcpStatus::SynSent => self.synsent_handler(socket_id, &packet),
            TcpStatus::Estableished => {
                self.established_handler(socket_id, &packet);
                None
            },
            _ => None,
        }
    }

    /// Takes in the payload of a datagram that came from `remote_addr` (`None`
    /// if that is not an IPv4 address) to `local_addr`. If there is a reply,
    /// send it and record that it went out, as [`Reply`] says.
    pub fn receive_handler(
        &mut self,
        local_addr: Ipv4Addr,
        remote_addr: Option<Ipv4Addr>,
        payload: &[u8],
    ) -> (r: Option<Reply>)
        requires
            old(self).wf(),
            payload@.len() <= MAX_SEGMENT_SIZE,
            !old(self)@.seq_overflows(local_addr, remote_addr, payload@),
        ensures
            final(self).wf(),
            final(self)@ == old(self)@.after_receiving(local_addr, remote_addr, payload@),
            exists|rng: Generator|
                {
                    let draws = #[trigger] rng.drawn();
                    &&& draws.len() == 1
                    &&& draws[0].is_from(1, INITIAL_SEQ_END)
                    &&& match r {
                        Some(reply) => old(self)@.reply(
                            local_addr,
                            remote_addr,
                            payload@,
                            draws[0].number,
                        ) == Some(reply@) && final(self)@.can_reply(reply@),
                        None => old(self)@.reply(
                            local_addr,
                            remote_addr,
                            payload@,
                            draws[0].number,
                        ) is None,
                    }
                },
    {
        let mut rng: Generator = Generator::new();
        let initial_seq: u32 = rng.draw(1, INITIAL_SEQ_END);
        assert(rng.drawn()[0].is_from(1, INITIAL_SEQ_END));
        self.receive(local_addr, remote_addr, payload, initial_seq)
    }

    /// Whether the timer would have to measure a negative time.
    pub fn is_clock_behind(&self, now: u128) -> (r: bool)
        requires
            self.wf(),
        ensures
            r == self@.clock_behind(now),
    {
        let ids: Vec<SocketID> = self.sockets.ids();
        for i in 0..ids.len()
            invariant
                ids@.to_set() == self@.sockets.dom(),
                forall|j: int| 0 <= j < i ==> !self@.sockets[#[trigger] ids@[j]].clock_behind(now),
        {
            assert(ids@.to_set().contains(ids@[i as int]));
            if let Some(socket) = self.sockets.get(ids[i]) {
                if socket.is_clock_behind(now) {
                    assert(self@.sockets.contains_key(ids@[i as int]));
                    return true;
                }
            }
        }
        assert forall|id: SocketID| #[trigger] self@.sockets.contains_key(id) implies
            !self@.sockets[id].clock_behind(now) by {
            assert(ids@.to_set().contains(id));
            let j = choose|j: int| 0 <= j < ids@.len() && ids@[j] == id;
            assert(!self@.sockets[ids@[j]].clock_behind(now));
        }
        false
    }

    /// Lets the timer work on every socket, and returns the segments to send
    /// again, in no particular order.
    pub fn timer(&mut self, now: u128) -> (r: Vec<Retransmission>)
        requires
            old(self).wf(),
            !old(self)@.clock_behind(now),
        ensures
            final(self).wf(),
            final(self)@ == old(self)@.after_timer(now),
            forall|i: int|
                0 <= i < r@.len() ==> old(self)@.sockets.contains_key(
                    (#[trigger] r@[i]).socket_id,
                ) && old(self)@.sockets[r@[i].socket_id].retransmits(now) == Some(r@[i].packet@),
            forall|i: int, j: int|
                0 <= i < j < r@.len() ==> (#[trigger] r@[i]).socket_id != (
                #[trigger] r@[j]).socket_id,
            forall|id: SocketID| #[trigger]
                old(self)@.sockets.contains_key(id) && old(self)@.sockets[id].retransmits(
                    now,
                ) is Some ==> exists|i: int| 0 <= i < r@.len() && (#[trigger] r@[i]).socket_id == id,
    {
        let ghost before = self@;
        let ids: Vec<SocketID> = self.sockets.ids();
        let mut r: Vec<Retransmission> = Vec::new();
        // Where in `ids` the socket of each retransmission stands.
        let ghost mut places: Seq<int> = Seq::empty();
        let mut k: usize = 0;
        while k < ids.len()
            invariant
                k <= ids@.len(),
                self.wf(),
                !before.clock_behind(now),
                ids@.no_duplicates(),
                ids@.to_set() == before.sockets.dom(),
                self@.event == before.event,
                self@.sockets.dom() == before.sockets.dom(),
                forall|j: int|
                    0 <= j < k ==> self@.sockets[#[trigger] ids@[j]]
                        == before.sockets[ids@[j]].after_timer(now),
                forall|j: int|
                    k <= j < ids@.len() ==> self@.sockets[#[trigger] ids@[j]]
                        == before.sockets[ids@[j]],
                places.len() == r@.len(),
                forall|i: int|
                    0 <= i < r@.len() ==> {
                        &&& ids@[places[i]] == (#[trigger] r@[i]).socket_id
                        &&& before.sockets[r@[i].socket_id].retransmits(now) == Some(r@[i].packet@)
                    },
                forall|i: int| 0 <= i < places.len() ==> 0 <= #[trigger] places[i] < k,
                forall|i: int, j: int| 0 <= i < j < places.len() ==> places[i] < places[j],
                forall|j: int|
                    0 <= j < k && before.sockets[#[trigger] ids@[j]].retransmits(now) is Some
                        ==> places.contains(j),
            decreases ids@.len() - k,
        {
            let ghost at = self@;
            let ghost places_before = places;
            let id: SocketID = ids[k];
            assert(ids@.to_set().contains(id));
            assert(at.sockets.contains_key(id));
            assert(at.socket_wf(at.sockets[id]));
            if let Some(socket) = self.sockets.get_mut(id) {
                if let Some(packet) = socket.timer(now) {
                    r.push(Retransmission { socket_id: id, packet });
                    proof {
                        places = places.push(k as int);
                        assert(places.last() == k);
                    }
                }
            }
            assert(self@.sockets.dom() =~= before.sockets.dom());
            assert forall|j: int| places_before.contains(j) implies places.contains(j) by {
                let i = choose|i: int| 0 <= i < places_before.len() && places_before[i] == j;
                assert(places[i] == j);
            }
            k = k + 1;
        }
        proof {
            assert forall|id: SocketID| #[trigger] before.sockets.contains_key(id) implies exists|
                j: int,
            |
                0 <= j < ids@.len() && ids@[j] == id by {
                assert(ids@.to_set().contains(id));
            }
            assert(self@ =~= before.after_timer(now));
            assert forall|i: int| 0 <= i < r@.len() implies before.sockets.contains_key(
                (#[trigger] r@[i]).socket_id,
            ) by {
                assert(0 <= places[i] < ids@.len());
                assert(ids@.to_set().contains(ids@[places[i]]));
            }
            assert forall|id: SocketID| #[trigger]
                before.sockets.contains_key(id) && before.sockets[id].retransmits(
                    now,
                ) is Some implies exists|i: int|
                0 <= i < r@.len() && (#[trigger] r@[i]).socket_id == id by {
                let j = choose|j: int| 0 <= j < ids@.len() && ids@[j] == id;
                assert(places.contains(j));
                let i = choose|i: int| 0 <= i < places.len() && places[i] == j;
                assert(r@[i].socket_id == id);
            }
        }
        r
    }
}

} // verus!
