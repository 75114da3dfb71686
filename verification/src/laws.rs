//! What holds of the stack across its operations.

use crate::addr::{Ipv4Addr, UNDETERMINED_IP_ADDR};
use crate::error::TcpError;
use crate::event::{TCPEvent, TCPEventKind};
use crate::packet;
use crate::packet::TCP_HEADER_SIZE;
use crate::random::Draw;
use crate::socket;
use crate::socket::{EntryView, SendParam, SocketID, SocketView, TcpStatus, MAX_TRANSMITTION};
use crate::tcp;
use crate::tcp::{
    ChunkView, OpeningView, ReplyView, TcpView, MSS, PORT_RANGE_END, PORT_RANGE_START,
    UNDETERMINED_PORT,
};
use crate::tcpflags;
use vstd::prelude::*;

verus! {

/// What SYN, SYN with ACK, and ACK alone carry.
proof fn lemma_flags()
    ensures
        !(tcpflags::SYN & tcpflags::ACK > 0),
        tcpflags::SYN & tcpflags::SYN > 0,
        (tcpflags::SYN | tcpflags::ACK) & tcpflags::ACK > 0,
        (tcpflags::SYN | tcpflags::ACK) & tcpflags::SYN > 0,
        tcpflags::ACK & tcpflags::ACK > 0,
        !(tcpflags::ACK & tcpflags::SYN > 0),
{
    assert(!(0x02u8 & 0x10u8 > 0)) by (bit_vector);
    assert(0x02u8 & 0x02u8 > 0) by (bit_vector);
    assert((0x02u8 | 0x10u8) & 0x10u8 > 0) by (bit_vector);
    assert((0x02u8 | 0x10u8) & 0x02u8 > 0) by (bit_vector);
    assert(0x10u8 & 0x10u8 > 0) by (bit_vector);
    assert(!(0x10u8 & 0x02u8 > 0)) by (bit_vector);
}

/// A segment that a socket builds reads back as it was built, and is received
/// with a correct checksum at the other end.
pub proof fn sent_segment_reads_back(
    socket: SocketView,
    seq: u32,
    ack: u32,
    flag: u8,
    payload: Seq<u8>,
)
    ensures
        ({
            let b = socket.segment(seq, ack, flag, payload);
            &&& b.len() == TCP_HEADER_SIZE + payload.len()
            &&& packet::src_of(b) == socket.local_port
            &&& packet::dest_of(b) == socket.remote_port
            &&& packet::seq_of(b) == seq
            &&& packet::ack_of(b) == ack
            &&& packet::flag_of(b) == flag
            &&& packet::window_of(b) == socket.recv_param.window
            &&& b.skip(TCP_HEADER_SIZE as int) == payload
            &&& packet::checksum_ok(b, socket.remote_addr, socket.local_addr)
        }),
{
    packet::built_segment_reads_back(
        packet::Fields {
            src: socket.local_port,
            dest: socket.remote_port,
            seq,
            ack,
            flag,
            window: socket.recv_param.window,
        },
        payload,
        socket.local_addr,
        socket.remote_addr,
    );
}

/// The handshake between two stacks: a client opens a connection to a port on
/// which a server listens, and each hands the other what it sends.
pub struct Handshake {
    pub client_addr: Ipv4Addr,
    pub client_port: u16,
    pub client_seq: u32,
    pub server_addr: Ipv4Addr,
    pub server_port: u16,
    pub server_seq: u32,
}

impl Handshake {
    pub open spec fn client_id(self) -> SocketID {
        SocketID(self.client_addr, self.server_addr, self.client_port, self.server_port)
    }

    pub open spec fn server_id(self) -> SocketID {
        SocketID(self.server_addr, self.client_addr, self.server_port, self.client_port)
    }

    pub open spec fn listening_id(self) -> SocketID {
        tcp::listening_id(self.server_addr, self.server_port)
    }

    /// What the client starts with.
    pub open spec fn opening(self) -> OpeningView {
        OpeningView::connect(
            self.client_addr,
            self.server_addr,
            self.client_port,
            self.server_port,
            self.client_seq,
        )
    }

    /// The server listens on the port, and the connection does not exist there yet.
    pub open spec fn possible(self, server: TcpView) -> bool {
        &&& tcp::initial_seq_ok(self.client_seq)
        &&& tcp::initial_seq_ok(self.server_seq)
        &&& server.wf()
        &&& server.sockets.contains_key(self.listening_id())
        &&& server.sockets[self.listening_id()].status == TcpStatus::Listen
        &&& !server.sockets.contains_key(self.server_id())
    }
}

/// The SYN of an active open is answered by the socket that listens at its
/// destination: with SYN and ACK, and with nothing else changed.
#[verifier::spinoff_prover]
#[verifier::rlimit(40)]
pub proof fn syn_is_answered(h: Handshake, server: TcpView)
    requires
        h.possible(server),
    ensures
        ({
            let listener = server.sockets[h.listening_id()];
            let syn = h.opening().packet;
            let answer = OpeningView::accept(listener, syn, h.client_addr, h.server_seq);
            &&& !server.seq_overflows(h.server_addr, Some(h.client_addr), syn)
            &&& server.after_receiving(h.server_addr, Some(h.client_addr), syn) == server
            &&& server.reply(h.server_addr, Some(h.client_addr), syn, h.server_seq) == Some(
                ReplyView::Open(answer),
            )
            &&& server.can_open(answer)
            &&& answer.socket.id() == h.server_id()
            &&& packet::seq_of(answer.packet) == h.server_seq
            &&& packet::ack_of(answer.packet) == h.client_seq + 1
            &&& packet::flag_of(answer.packet) == tcpflags::SYN | tcpflags::ACK
        }),
{
    lemma_flags();
    let socket = h.opening().socket;
    sent_segment_reads_back(socket, h.client_seq, 0, tcpflags::SYN, Seq::empty());
    let listener = server.sockets[h.listening_id()];
    assert(listener.id() == h.listening_id());
    let answer = listener.accepting(h.opening().packet, h.client_addr, h.server_seq);
    sent_segment_reads_back(answer, h.server_seq, answer.recv_param.next, tcpflags::SYN | tcpflags::ACK, Seq::empty());
}

/// The answer to a SYN completes the connection at the client: it acknowledges
/// the server's SYN, and once that is out the completion is published.
#[verifier::spinoff_prover]
#[verifier::rlimit(40)]
pub proof fn syn_ack_completes_client(
    h: Handshake,
    client: TcpView,
    server: TcpView,
    sent_at: u128,
    drawn: u32,
)
    requires
        h.possible(server),
        client.wf(),
    ensures
        ({
            let opened = client.after_opening(h.opening(), sent_at);
            let answer = OpeningView::accept(
                server.sockets[h.listening_id()],
                h.opening().packet,
                h.client_addr,
                h.server_seq,
            ).packet;
            let stepped = opened.after_receiving(h.client_addr, Some(h.server_addr), answer);
            let reply = opened.reply(h.client_addr, Some(h.server_addr), answer, drawn);
            &&& !opened.seq_overflows(h.client_addr, Some(h.server_addr), answer)
            &&& stepped.sockets[h.client_id()].status == TcpStatus::Estableished
            &&& stepped.sockets[h.client_id()].send_param.unacked_seq == h.client_seq + 1
            &&& stepped.sockets[h.client_id()].send_param.next == h.client_seq + 1
            &&& stepped.sockets[h.client_id()].recv_param.next == h.server_seq + 1
            &&& reply matches Some(ReplyView::Acknowledge(ack)) && {
                &&& ack.socket_id == h.client_id()
                &&& ack.completed
                &&& ack.packet == stepped.sockets[h.client_id()].bare_ack()
                &&& packet::seq_of(ack.packet) == h.client_seq + 1
                &&& packet::ack_of(ack.packet) == h.server_seq + 1
                &&& packet::flag_of(ack.packet) == tcpflags::ACK
                &&& stepped.after_acknowledging(ack).event == Some(
                    TCPEvent {
                        socket_id: h.client_id(),
                        kind: TCPEventKind::ConnectionCompleted,
                    },
                )
            }
        }),
{
    lemma_flags();
    syn_is_answered(h, server);
    let answer = server.sockets[h.listening_id()].accepting(
        h.opening().packet,
        h.client_addr,
        h.server_seq,
    );
    sent_segment_reads_back(answer, h.server_seq, answer.recv_param.next, tcpflags::SYN | tcpflags::ACK, Seq::empty());
    assert(server.sockets[h.listening_id()].id() == h.listening_id());
    let opened = client.after_opening(h.opening(), sent_at);
    let socket = opened.sockets[h.client_id()].after_synsent(answer.syn_ack());
    sent_segment_reads_back(socket, socket.send_param.next, socket.recv_param.next, tcpflags::ACK, Seq::empty());
}

/// The last segment of the handshake completes the connection at the server:
/// it is queued at the listening socket, and that is published there.
#[verifier::spinoff_prover]
#[verifier::rlimit(40)]
pub proof fn ack_completes_server(
    h: Handshake,
    client: TcpView,
    server: TcpView,
    sent_at: u128,
    answered_at: u128,
)
    requires
        h.possible(server),
        client.wf(),
    ensures
        ({
            let listener = server.sockets[h.listening_id()];
            let answer = OpeningView::accept(
                listener,
                h.opening().packet,
                h.client_addr,
                h.server_seq,
            );
            let last = client.after_opening(h.opening(), sent_at).after_receiving(
                h.client_addr,
                Some(h.server_addr),
                answer.packet,
            ).sockets[h.client_id()].bare_ack();
            let opened = server.after_opening(answer, answered_at);
            let stepped = opened.after_receiving(h.server_addr, Some(h.client_addr), last);
            &&& !opened.seq_overflows(h.server_addr, Some(h.client_addr), last)
            &&& opened.reply(h.server_addr, Some(h.client_addr), last, 1) is None
            &&& stepped.sockets[h.server_id()].status == TcpStatus::Estableished
            &&& stepped.sockets[h.server_id()].send_param.unacked_seq == h.server_seq + 1
            &&& stepped.sockets[h.server_id()].send_param.next == h.server_seq + 1
            &&& stepped.sockets[h.server_id()].recv_param.next == h.client_seq + 1
            &&& stepped.sockets[h.listening_id()].connected_connection_queue
                == listener.connected_connection_queue.push(h.server_id())
            &&& stepped.event == Some(
                TCPEvent {
                    socket_id: h.listening_id(),
                    kind: TCPEventKind::ConnectionCompleted,
                },
            )
        }),
{
    lemma_flags();
    syn_is_answered(h, server);
    syn_ack_completes_client(h, client, server, sent_at, 1);
    let listener = server.sockets[h.listening_id()];
    assert(listener.id() == h.listening_id());
    let answer = OpeningView::accept(listener, h.opening().packet, h.client_addr, h.server_seq);
    let opened = client.after_opening(h.opening(), sent_at);
    sent_segment_reads_back(
        answer.socket,
        h.server_seq,
        answer.socket.recv_param.next,
        tcpflags::SYN | tcpflags::ACK,
        Seq::empty(),
    );
    let socket = opened.after_receiving(
        h.client_addr,
        Some(h.server_addr),
        answer.packet,
    ).sockets[h.client_id()];
    sent_segment_reads_back(
        socket,
        socket.send_param.next,
        socket.recv_param.next,
        tcpflags::ACK,
        Seq::empty(),
    );
}

/// A segment that reaches no socket changes nothing and is not answered. That
/// is so if it is too short for a header, comes from no IPv4 address, carries a
/// wrong checksum, or if there is neither a connection between its two ends nor
/// a socket that listens at its destination.
pub proof fn undeliverable_changes_nothing(
    view: TcpView,
    local_addr: Ipv4Addr,
    remote_addr: Option<Ipv4Addr>,
    payload: Seq<u8>,
    initial_seq: u32,
)
    requires
        ({
            ||| payload.len() < TCP_HEADER_SIZE
            ||| remote_addr is None
            ||| !packet::checksum_ok(payload, local_addr, remote_addr->0)
            ||| !view.sockets.contains_key(
                SocketID(
                    local_addr,
                    remote_addr->0,
                    packet::dest_of(payload),
                    packet::src_of(payload),
                ),
            ) && !view.sockets.contains_key(
                tcp::listening_id(local_addr, packet::dest_of(payload)),
            )
        }),
    ensures
        view.after_receiving(local_addr, remote_addr, payload) == view,
        view.reply(local_addr, remote_addr, payload, initial_seq) is None,
{
}

/// A listening socket answers a SYN without ACK and nothing else, and is itself
/// not changed by what comes in.
pub proof fn listener_answers_syn_only(
    view: TcpView,
    local_addr: Ipv4Addr,
    remote_addr: Option<Ipv4Addr>,
    payload: Seq<u8>,
    initial_seq: u32,
    id: SocketID,
)
    requires
        view.delivered_to(local_addr, remote_addr, payload) == Some(id),
        view.sockets[id].status == TcpStatus::Listen,
    ensures
        view.after_receiving(local_addr, remote_addr, payload) == view,
        view.reply(local_addr, remote_addr, payload, initial_seq) is Some <==> !packet::has_flag(
            payload,
            tcpflags::ACK,
        ) && packet::has_flag(payload, tcpflags::SYN),
{
}

/// On an established connection, an acknowledgement of something that was not
/// sent yet is dropped: nothing changes and nothing is answered.
pub proof fn ack_of_unsent_is_dropped(
    view: TcpView,
    local_addr: Ipv4Addr,
    remote_addr: Option<Ipv4Addr>,
    payload: Seq<u8>,
    initial_seq: u32,
    id: SocketID,
)
    requires
        view.delivered_to(local_addr, remote_addr, payload) == Some(id),
        view.sockets[id].status == TcpStatus::Estableished,
        view.sockets[id].send_param.next < packet::ack_of(payload),
    ensures
        view.after_receiving(local_addr, remote_addr, payload) == view,
        view.reply(local_addr, remote_addr, payload, initial_seq) is None,
{
}

/// On an established connection, a segment without ACK is dropped: nothing
/// changes and nothing is answered, whatever acknowledgement number it holds.
pub proof fn segment_without_ack_is_dropped(
    view: TcpView,
    local_addr: Ipv4Addr,
    remote_addr: Option<Ipv4Addr>,
    payload: Seq<u8>,
    initial_seq: u32,
    id: SocketID,
)
    requires
        view.delivered_to(local_addr, remote_addr, payload) == Some(id),
        view.sockets[id].status == TcpStatus::Estableished,
        !packet::has_flag(payload, tcpflags::ACK),
    ensures
        view.after_receiving(local_addr, remote_addr, payload) == view,
        view.reply(local_addr, remote_addr, payload, initial_seq) is None,
{
}

/// Receiving changes a status in two ways only: the answer to a SYN leads on
/// from `SynSent`, and an acknowledgement leads from `SynRcvd` to `Estableished`.
/// Both happen only at the socket that the segment belongs to.
pub proof fn receiving_changes_status_so(
    view: TcpView,
    local_addr: Ipv4Addr,
    remote_addr: Option<Ipv4Addr>,
    payload: Seq<u8>,
    id: SocketID,
)
    requires
        view.wf(),
        view.sockets.contains_key(id),
    ensures
        ({
            let socket = view.sockets[id];
            let here = view.delivered_to(local_addr, remote_addr, payload) == Some(id);
            view.after_receiving(local_addr, remote_addr, payload).sockets[id].status == if here
                && socket.status == TcpStatus::SynSent && socket.synsent_accepts(payload) {
                if packet::ack_of(payload) > socket.send_param.initial_seq {
                    TcpStatus::Estableished
                } else {
                    TcpStatus::SynRcvd
                }
            } else if here && socket.status == TcpStatus::SynRcvd && socket.synrcvd_accepts(
                payload,
            ) {
                TcpStatus::Estableished
            } else {
                socket.status
            }
        }),
{
}

/// Receiving neither adds nor removes sockets, takes no acknowledgement back,
/// and leaves alone what was sent so far.
pub proof fn receiving_only_advances(
    view: TcpView,
    local_addr: Ipv4Addr,
    remote_addr: Option<Ipv4Addr>,
    payload: Seq<u8>,
    id: SocketID,
)
    requires
        view.wf(),
        view.sockets.contains_key(id),
    ensures
        ({
            let stepped = view.after_receiving(local_addr, remote_addr, payload);
            &&& stepped.sockets.dom() == view.sockets.dom()
            &&& stepped.sockets[id].id() == id
            &&& stepped.sockets[id].send_param.unacked_seq
                >= view.sockets[id].send_param.unacked_seq
            &&& stepped.sockets[id].send_param.next == view.sockets[id].send_param.next
            &&& stepped.sockets[id].send_param.initial_seq
                == view.sockets[id].send_param.initial_seq
            &&& stepped.sockets[id].listening_socket == view.sockets[id].listening_socket
            &&& view.sockets[id].status == TcpStatus::Estableished
                ==> stepped.sockets[id].status == TcpStatus::Estableished
        }),
{
    let stepped = view.after_receiving(local_addr, remote_addr, payload);
    assert(view.sockets[id].id() == id);
    if let Some(to) = view.delivered_to(local_addr, remote_addr, payload) {
        assert(view.sockets.contains_key(to));
        assert(view.socket_wf(view.sockets[to]));
        assert(view.sockets[to].id() == to);
        if let Some(listening) = view.sockets[to].listening_socket {
            assert(view.sockets.contains_key(listening));
            assert(view.sockets[listening].id() == listening);
        }
    }
    assert(stepped.sockets.dom() =~= view.sockets.dom());
}

/// An event that is published is what a caller waiting for it finds, whatever
/// was published before it.
pub proof fn last_event_is_found(
    view: TcpView,
    earlier: SocketID,
    earlier_kind: TCPEventKind,
    id: SocketID,
    kind: TCPEventKind,
)
    ensures
        view.with_event(earlier, earlier_kind).with_event(id, kind) == view.with_event(id, kind),
        view.with_event(id, kind).event == Some(TCPEvent { socket_id: id, kind }),
        view.with_event(id, kind).sockets == view.sockets,
{
}

/// The segments that carry a buffer from `cursor` on, if nothing else happens
/// on the stack meanwhile and each of them goes out; `clock` gives the time at
/// which the one at a cursor does.
pub open spec fn chunks(
    view: TcpView,
    id: SocketID,
    buffer: Seq<u8>,
    cursor: int,
    clock: spec_fn(int) -> u128,
) -> Seq<ChunkView>
    decreases buffer.len() - cursor,
{
    if cursor >= buffer.len() {
        Seq::empty()
    } else {
        let chunk = view.chunk_at(id, buffer, cursor);
        seq![chunk] + chunks(
            view.after_chunk(chunk, clock(cursor)),
            id,
            buffer,
            cursor + chunk.size,
            clock,
        )
    }
}

/// The state after all of these segments went out.
pub open spec fn after_chunks(
    view: TcpView,
    id: SocketID,
    buffer: Seq<u8>,
    cursor: int,
    clock: spec_fn(int) -> u128,
) -> TcpView
    decreases buffer.len() - cursor,
{
    if cursor >= buffer.len() {
        view
    } else {
        let chunk = view.chunk_at(id, buffer, cursor);
        after_chunks(
            view.after_chunk(chunk, clock(cursor)),
            id,
            buffer,
            cursor + chunk.size,
            clock,
        )
    }
}

/// The payloads of segments, one after the other.
pub open spec fn joined(chunks: Seq<ChunkView>) -> Seq<u8>
    decreases chunks.len(),
{
    if chunks.len() == 0 {
        Seq::empty()
    } else {
        chunks[0].packet.skip(TCP_HEADER_SIZE as int) + joined(chunks.drop_first())
    }
}

/// The size of the next segment when `left` bytes are left to send.
pub open spec fn chunk_size(left: int) -> int {
    if left < MSS {
        left
    } else {
        MSS as int
    }
}

/// One segment of a buffer, and what its transmission does to the socket.
#[verifier::spinoff_prover]
#[verifier::rlimit(40)]
proof fn lemma_chunk(view: TcpView, id: SocketID, buffer: Seq<u8>, cursor: int, now: u128)
    requires
        view.sockets.contains_key(id),
        0 <= cursor < buffer.len(),
    ensures
        ({
            let socket = view.sockets[id];
            let chunk = view.chunk_at(id, buffer, cursor);
            let next = view.after_chunk(chunk, now);
            &&& chunk.size == chunk_size(buffer.len() - cursor)
            &&& packet::seq_of(chunk.packet) == socket.send_param.next
            &&& packet::ack_of(chunk.packet) == socket.recv_param.next
            &&& packet::flag_of(chunk.packet) == tcpflags::ACK
            &&& chunk.packet.skip(TCP_HEADER_SIZE as int) == buffer.subrange(
                cursor,
                cursor + chunk.size,
            )
            &&& next.sockets.contains_key(id)
            &&& next.sockets[id] == SocketView {
                send_param: SendParam {
                    next: (socket.send_param.next + chunk.size) as u32,
                    ..socket.send_param
                },
                retransmission_queue: socket.retransmission_queue.push(
                    EntryView {
                        packet: chunk.packet,
                        latest_transmission_time: now,
                        transmission_count: 1,
                    },
                ),
                ..socket
            }
        }),
{
    let socket = view.sockets[id];
    let chunk = view.chunk_at(id, buffer, cursor);
    sent_segment_reads_back(
        socket,
        socket.send_param.next,
        socket.recv_param.next,
        tcpflags::ACK,
        buffer.subrange(cursor, cursor + chunk.size),
    );
}

/// The segments of a buffer hold, one after the other, exactly its bytes.
#[verifier::spinoff_prover]
#[verifier::rlimit(40)]
pub proof fn chunks_join_to_buffer(
    view: TcpView,
    id: SocketID,
    buffer: Seq<u8>,
    cursor: int,
    clock: spec_fn(int) -> u128,
)
    requires
        view.sockets.contains_key(id),
        0 <= cursor <= buffer.len(),
    ensures
        joined(chunks(view, id, buffer, cursor, clock)) == buffer.skip(cursor),
    decreases buffer.len() - cursor,
{
    if cursor < buffer.len() {
        lemma_chunk(view, id, buffer, cursor, clock(cursor));
        let chunk = view.chunk_at(id, buffer, cursor);
        let next = view.after_chunk(chunk, clock(cursor));
        chunks_join_to_buffer(next, id, buffer, cursor + chunk.size, clock);
        let all = chunks(view, id, buffer, cursor, clock);
        assert(all.drop_first() =~= chunks(next, id, buffer, cursor + chunk.size, clock));
        assert(buffer.skip(cursor) =~= buffer.subrange(cursor, cursor + chunk.size) + buffer.skip(
            cursor + chunk.size,
        ));
    } else {
        assert(buffer.skip(cursor) =~= Seq::empty());
    }
}

/// The segments of a buffer are full but for the last, and their sequence
/// numbers follow on each other.
#[verifier::spinoff_prover]
#[verifier::rlimit(40)]
pub proof fn chunks_number_the_stream(
    view: TcpView,
    id: SocketID,
    buffer: Seq<u8>,
    cursor: int,
    clock: spec_fn(int) -> u128,
    i: int,
)
    requires
        view.sockets.contains_key(id),
        0 <= cursor <= buffer.len(),
        view.sockets[id].send_param.next + (buffer.len() - cursor) <= u32::MAX,
        0 <= i < chunks(view, id, buffer, cursor, clock).len(),
    ensures
        ({
            let socket = view.sockets[id];
            let chunk = chunks(view, id, buffer, cursor, clock)[i];
            &&& chunk.size == chunk_size(buffer.len() - cursor - i * MSS)
            &&& 1 <= chunk.size <= MSS
            &&& packet::seq_of(chunk.packet) == socket.send_param.next + i * MSS
            &&& packet::ack_of(chunk.packet) == socket.recv_param.next
            &&& packet::flag_of(chunk.packet) == tcpflags::ACK
        }),
    decreases buffer.len() - cursor,
{
    lemma_chunk(view, id, buffer, cursor, clock(cursor));
    let chunk = view.chunk_at(id, buffer, cursor);
    let next = view.after_chunk(chunk, clock(cursor));
    if i > 0 {
        let rest = chunks(next, id, buffer, cursor + chunk.size, clock);
        assert(chunks(view, id, buffer, cursor, clock)[i] == rest[i - 1]);
        chunks_number_the_stream(next, id, buffer, cursor + chunk.size, clock, i - 1);
    }
}

/// What a socket keeps of the segments of a buffer: one entry each, in order,
/// with the time at which it went out.
pub open spec fn entries(
    chunks: Seq<ChunkView>,
    cursor: int,
    clock: spec_fn(int) -> u128,
) -> Seq<EntryView> {
    Seq::new(
        chunks.len(),
        |i: int|
            EntryView {
                packet: chunks[i].packet,
                latest_transmission_time: clock(cursor + i * MSS),
                transmission_count: 1,
            },
    )
}

/// The entry of the first segment, and after it those of the others.
proof fn lemma_entries(
    queue: Seq<EntryView>,
    chunk: ChunkView,
    rest: Seq<ChunkView>,
    cursor: int,
    after: int,
    clock: spec_fn(int) -> u128,
)
    requires
        rest.len() > 0 ==> after == cursor + MSS,
    ensures
        queue.push(
            EntryView {
                packet: chunk.packet,
                latest_transmission_time: clock(cursor),
                transmission_count: 1,
            },
        ) + entries(rest, after, clock) == queue + entries(seq![chunk] + rest, cursor, clock),
{
    let all = seq![chunk] + rest;
    let whole = queue + entries(all, cursor, clock);
    let first = EntryView {
        packet: chunk.packet,
        latest_transmission_time: clock(cursor),
        transmission_count: 1,
    };
    let parts = queue.push(first) + entries(rest, after, clock);
    assert forall|i: int| 0 <= i < whole.len() implies whole[i] == parts[i] by {
        let j = i - queue.len();
        if j > 0 {
            assert(all[j] == rest[j - 1]);
            assert(cursor + j * MSS == after + (j - 1) * MSS);
        }
    }
    assert(parts =~= whole);
}

/// Once the segments of a buffer are out, the socket has moved on by the length
/// of the buffer, and the segments are kept in order at the end of the
/// retransmission queue. Nothing else is changed: not the rest of the socket,
/// no other socket and not the event.
#[verifier::spinoff_prover]
#[verifier::rlimit(40)]
pub proof fn chunks_are_kept(
    view: TcpView,
    id: SocketID,
    buffer: Seq<u8>,
    cursor: int,
    clock: spec_fn(int) -> u128,
)
    requires
        view.sockets.contains_key(id),
        0 <= cursor <= buffer.len(),
        view.sockets[id].send_param.next + (buffer.len() - cursor) <= u32::MAX,
    ensures
        ({
            let socket = view.sockets[id];
            after_chunks(view, id, buffer, cursor, clock) == view.with_socket(
                id,
                SocketView {
                    send_param: SendParam {
                        next: (socket.send_param.next + (buffer.len() - cursor)) as u32,
                        ..socket.send_param
                    },
                    retransmission_queue: socket.retransmission_queue + entries(
                        chunks(view, id, buffer, cursor, clock),
                        cursor,
                        clock,
                    ),
                    ..socket
                },
            )
        }),
    decreases buffer.len() - cursor,
{
    let queue = view.sockets[id].retransmission_queue;
    let all = chunks(view, id, buffer, cursor, clock);
    let end = after_chunks(view, id, buffer, cursor, clock);
    if cursor < buffer.len() {
        lemma_chunk(view, id, buffer, cursor, clock(cursor));
        let chunk = view.chunk_at(id, buffer, cursor);
        let next = view.after_chunk(chunk, clock(cursor));
        let after = cursor + chunk.size;
        let rest = chunks(next, id, buffer, after, clock);
        chunks_are_kept(next, id, buffer, after, clock);
        assert(all == seq![chunk] + rest);
        assert(rest.len() > 0 ==> chunk.size == MSS);
        lemma_entries(queue, chunk, rest, cursor, after, clock);
        assert(end.sockets =~= view.sockets.insert(id, end.sockets[id]));
    } else {
        assert(queue + entries(all, cursor, clock) =~= queue);
        assert(end.sockets =~= view.sockets.insert(id, view.sockets[id]));
    }
}

/// Dropping what is acknowledged removes a prefix of acknowledged segments, and
/// what is left does not begin with one.
pub proof fn lemma_drop_acked(queue: Seq<EntryView>, unacked_seq: u32) -> (k: int)
    ensures
        0 <= k <= queue.len(),
        socket::drop_acked(queue, unacked_seq) == queue.skip(k),
        forall|i: int| 0 <= i < k ==> (#[trigger] queue[i]).acked(unacked_seq),
        k < queue.len() ==> !queue[k].acked(unacked_seq),
    decreases queue.len(),
{
    if queue.len() > 0 && queue[0].acked(unacked_seq) {
        let rest = queue.drop_first();
        let k = lemma_drop_acked(rest, unacked_seq);
        assert(queue.skip(k + 1) =~= rest.skip(k));
        assert forall|i: int| 0 <= i < k + 1 implies (#[trigger] queue[i]).acked(unacked_seq) by {
            if i > 0 {
                assert(queue[i] == rest[i - 1]);
            }
        }
        k + 1
    } else {
        assert(queue.skip(0) =~= queue);
        0
    }
}

/// Dropping what is stale removes a prefix of stale segments, and what is left
/// does not begin with one.
pub proof fn lemma_drop_stale(queue: Seq<EntryView>, unacked_seq: u32, now: u128) -> (k: int)
    ensures
        0 <= k <= queue.len(),
        socket::drop_stale(queue, unacked_seq, now) == queue.skip(k),
        forall|i: int| 0 <= i < k ==> (#[trigger] queue[i]).stale(unacked_seq, now),
        k < queue.len() ==> !queue[k].stale(unacked_seq, now),
    decreases queue.len(),
{
    if queue.len() > 0 && queue[0].stale(unacked_seq, now) {
        let rest = queue.drop_first();
        let k = lemma_drop_stale(rest, unacked_seq, now);
        assert(queue.skip(k + 1) =~= rest.skip(k));
        assert forall|i: int| 0 <= i < k + 1 implies (#[trigger] queue[i]).stale(
            unacked_seq,
            now,
        ) by {
            if i > 0 {
                assert(queue[i] == rest[i - 1]);
            }
        }
        k + 1
    } else {
        assert(queue.skip(0) =~= queue);
        0
    }
}

/// An acknowledgement removes only segments that it covers from the
/// retransmission queue, and what is left does not begin with one that it covers.
pub proof fn ack_frees_only_what_it_covers(socket: SocketView, packet: Seq<u8>)
    ensures
        ({
            let queue = socket.retransmission_queue;
            let left = socket.after_ack(packet).retransmission_queue;
            &&& left.len() <= queue.len()
            &&& left == queue.skip(queue.len() - left.len())
            &&& forall|i: int|
                0 <= i < queue.len() - left.len() ==> (#[trigger] queue[i]).acked(
                    packet::ack_of(packet),
                )
            &&& left.len() > 0 ==> !left[0].acked(packet::ack_of(packet))
        }),
{
    let k = lemma_drop_acked(socket.retransmission_queue, packet::ack_of(packet));
}

/// What the timer sends again was not acknowledged, is due, and was sent less
/// often than allowed; it moves to the end of the queue with one more
/// transmission counted, and the time of its first transmission stays recorded.
pub proof fn timer_sends_only_what_is_due(socket: SocketView, now: u128)
    requires
        socket.retransmits(now) is Some,
    ensures
        ({
            let entry = socket.kept(now)[0];
            let queue = socket.after_timer(now).retransmission_queue;
            &&& socket.retransmission_queue.contains(entry)
            &&& socket.retransmits(now) == Some(entry.packet)
            &&& !entry.acked(socket.send_param.unacked_seq)
            &&& entry.timed_out(now)
            &&& entry.transmission_count < MAX_TRANSMITTION
            &&& queue.len() > 0
            &&& queue.last().packet == entry.packet
            &&& queue.last().transmission_count == entry.transmission_count + 1
            &&& queue.last().latest_transmission_time == entry.latest_transmission_time
        }),
{
    let queue = socket.retransmission_queue;
    let k = lemma_drop_stale(queue, socket.send_param.unacked_seq, now);
    assert(queue.skip(k)[0] == queue[k]);
}

/// The timer touches nothing but the retransmission queue, and drops only what
/// is stale: every other segment is still there, with at most one more
/// transmission counted.
pub proof fn timer_drops_only_what_is_stale(socket: SocketView, now: u128, i: int)
    requires
        0 <= i < socket.retransmission_queue.len(),
        !socket.retransmission_queue[i].stale(socket.send_param.unacked_seq, now),
    ensures
        ({
            let entry = socket.retransmission_queue[i];
            let queue = socket.after_timer(now).retransmission_queue;
            queue.contains(entry) || queue.contains(entry.sent_again())
        }),
        socket.after_timer(now) == (SocketView {
            retransmission_queue: socket.after_timer(now).retransmission_queue,
            ..socket
        }),
{
    let queue = socket.retransmission_queue;
    let k = lemma_drop_stale(queue, socket.send_param.unacked_seq, now);
    let kept = queue.skip(k);
    let left = socket.after_timer(now).retransmission_queue;
    assert(k <= i);
    assert(kept[i - k] == queue[i]);
    if socket.retransmits(now) is Some {
        if i == k {
            assert(left.last() == queue[i].sent_again());
        } else {
            assert(left[i - k - 1] == queue[i]);
        }
    } else {
        assert(left[i - k] == queue[i]);
    }
}

/// A port that is selected lies in the range and is not in use.
pub proof fn selected_port_is_free(view: TcpView, draws: Seq<Draw>, port: u16)
    requires
        view.selects_port(draws, Ok(port)),
    ensures
        PORT_RANGE_START <= port < PORT_RANGE_END,
        !view.port_used(port),
{
    assert(draws[draws.len() - 1].number == port);
}

/// As long as no port of the range is in use, whatever port is drawn first is
/// selected.
pub proof fn selection_succeeds_on_free_range(
    view: TcpView,
    draws: Seq<Draw>,
    result: Result<u16, TcpError>,
)
    requires
        view.selects_port(draws, result),
        forall|port: u16|
            PORT_RANGE_START <= port < PORT_RANGE_END ==> !#[trigger] view.port_used(port),
    ensures
        result == Ok::<u16, TcpError>(draws[0].number as u16),
{
    let first = draws[0];
    assert(first.is_from(PORT_RANGE_START as u32, PORT_RANGE_END as u32));
    if result is Err || draws.len() > 1 {
        assert(view.port_used(first.number as u16));
    }
}

/// What is drawn decides which port is selected. Of as many draws as a full
/// round holds, the first port that no socket uses is selected, and the search
/// fails if and only if all of them are used.
pub proof fn draws_decide_the_port(
    view: TcpView,
    round: Seq<Draw>,
    draws: Seq<Draw>,
    result: Result<u16, TcpError>,
)
    requires
        round.len() == PORT_RANGE_END - PORT_RANGE_START,
        draws.is_prefix_of(round),
        view.selects_port(draws, result),
    ensures
        match result {
            Ok(port) => exists|i: int|
                {
                    &&& 0 <= i < round.len()
                    &&& (#[trigger] round[i]).number == port
                    &&& !view.port_used(port)
                    &&& forall|j: int|
                        0 <= j < i ==> view.port_used((#[trigger] round[j]).number as u16)
                },
            Err(error) => error == TcpError::NoAvailablePort && forall|i: int|
                0 <= i < round.len() ==> view.port_used((#[trigger] round[i]).number as u16),
        },
{
    assert forall|i: int| 0 <= i < draws.len() implies #[trigger] round[i] == draws[i] by {}
    if result is Ok {
        let last = draws.len() - 1;
        assert(round[last].number == result->Ok_0);
    }
}

/// Whether every connection that waits to be accepted is established.
pub open spec fn queued_are_established(view: TcpView) -> bool {
    forall|id: SocketID, i: int|
        view.sockets.contains_key(id) && 0 <= i
            < view.sockets[id].connected_connection_queue.len() ==> view.sockets[
        #[trigger] view.sockets[id].connected_connection_queue[i]].status
            == TcpStatus::Estableished
}

/// Whether a name waits to be accepted at a socket other than its own.
pub open spec fn queued_elsewhere(view: TcpView, id: SocketID) -> bool {
    exists|other: SocketID|
        other != id && #[trigger] view.sockets.contains_key(other)
            && view.sockets[other].connected_connection_queue.contains(id)
}

/// A stack without sockets has no connection waiting that is not established.
pub proof fn queue_law_holds_at_first(view: TcpView)
    requires
        view.sockets == Map::<SocketID, SocketView>::empty(),
    ensures
        queued_are_established(view),
{
}

/// Putting a socket without waiting connections into the table, as listening
/// and opening do, keeps waiting connections established, unless it takes the
/// place of one of them.
pub proof fn new_socket_keeps_queue_law(view: TcpView, id: SocketID, socket: SocketView)
    requires
        queued_are_established(view),
        socket.connected_connection_queue.len() == 0,
        !queued_elsewhere(view, id),
    ensures
        queued_are_established(view.with_socket(id, socket)),
{
    let stepped = view.with_socket(id, socket);
    assert forall|other: SocketID, i: int|
        stepped.sockets.contains_key(other) && 0 <= i
            < stepped.sockets[other].connected_connection_queue.len() implies stepped.sockets[
    #[trigger] stepped.sockets[other].connected_connection_queue[i]].status
        == TcpStatus::Estableished by {
        let queue = view.sockets[other].connected_connection_queue;
        assert(other != id);
        assert(stepped.sockets[other] == view.sockets[other]);
        assert(view.sockets.contains_key(other));
        assert(queue.contains(queue[i]));
        assert(queue[i] != id);
    }
}

/// A name that is not in the table waits nowhere.
pub proof fn absent_name_waits_nowhere(view: TcpView, id: SocketID)
    requires
        view.wf(),
        !view.sockets.contains_key(id),
    ensures
        !queued_elsewhere(view, id),
{
    assert forall|other: SocketID| #[trigger]
        view.sockets.contains_key(other) implies !view.waiting(other).contains(id) by {
        assert(view.socket_wf(view.sockets[other]));
    }
}

/// What an active open starts with is not in the table before, and putting it
/// there keeps waiting connections established.
pub proof fn connecting_keeps_queue_law(
    view: TcpView,
    draws: Seq<Draw>,
    local_addr: Ipv4Addr,
    remote_addr: Ipv4Addr,
    local_port: u16,
    remote_port: u16,
    initial_seq: u32,
    now: u128,
)
    requires
        view.wf(),
        queued_are_established(view),
        view.selects_port(draws, Ok(local_port)),
    ensures
        ({
            let opening = OpeningView::connect(
                local_addr,
                remote_addr,
                local_port,
                remote_port,
                initial_seq,
            );
            &&& !view.sockets.contains_key(opening.socket.id())
            &&& queued_are_established(view.after_opening(opening, now))
        }),
{
    let opening = OpeningView::connect(
        local_addr,
        remote_addr,
        local_port,
        remote_port,
        initial_seq,
    );
    let id = opening.socket.id();
    if view.sockets.contains_key(id) {
        assert(id.2 == local_port);
        assert(view.port_used(local_port));
    }
    absent_name_waits_nowhere(view, id);
    new_socket_keeps_queue_law(
        view,
        id,
        opening.socket.after_sending(opening.packet, now),
    );
}

/// What a listening socket opens for a SYN is named by the two ends of the
/// segment, and is not in the table before. Left out is a peer at port zero of
/// `0.0.0.0`, whose connection has the listening socket's name.
pub proof fn answered_name_is_absent(
    view: TcpView,
    local_addr: Ipv4Addr,
    remote_addr: Ipv4Addr,
    payload: Seq<u8>,
    initial_seq: u32,
)
    requires
        view.wf(),
        view.reply(local_addr, Some(remote_addr), payload, initial_seq) is Some,
        view.reply(local_addr, Some(remote_addr), payload, initial_seq)->0 is Open,
        remote_addr.bits != UNDETERMINED_IP_ADDR || packet::src_of(payload) != UNDETERMINED_PORT,
    ensures
        ({
            let opening = view.reply(local_addr, Some(remote_addr), payload, initial_seq)->0->Open_0;
            &&& opening.socket.id() == SocketID(
                local_addr,
                remote_addr,
                packet::dest_of(payload),
                packet::src_of(payload),
            )
            &&& !view.sockets.contains_key(opening.socket.id())
        }),
{
    let to = view.delivered_to(local_addr, Some(remote_addr), payload)->0;
    assert(view.sockets.contains_key(to));
    assert(view.socket_wf(view.sockets[to]));
    assert(view.sockets[to].id() == to);
}

/// What a listening socket opens for a SYN is not in the table before, and
/// putting it there keeps waiting connections established. Left out is a peer
/// at port zero of `0.0.0.0`, whose connection has the listening socket's name.
pub proof fn answering_keeps_queue_law(
    view: TcpView,
    local_addr: Ipv4Addr,
    remote_addr: Ipv4Addr,
    payload: Seq<u8>,
    initial_seq: u32,
    now: u128,
)
    requires
        view.wf(),
        queued_are_established(view),
        view.reply(local_addr, Some(remote_addr), payload, initial_seq) is Some,
        view.reply(local_addr, Some(remote_addr), payload, initial_seq)->0 is Open,
        remote_addr.bits != UNDETERMINED_IP_ADDR || packet::src_of(payload) != UNDETERMINED_PORT,
    ensures
        ({
            let opening = view.reply(local_addr, Some(remote_addr), payload, initial_seq)->0->Open_0;
            &&& opening.socket.id() == SocketID(
                local_addr,
                remote_addr,
                packet::dest_of(payload),
                packet::src_of(payload),
            )
            &&& !view.sockets.contains_key(opening.socket.id())
            &&& queued_are_established(view.after_opening(opening, now))
        }),
{
    let opening = view.reply(local_addr, Some(remote_addr), payload, initial_seq)->0->Open_0;
    answered_name_is_absent(view, local_addr, remote_addr, payload, initial_seq);
    let id = opening.socket.id();
    absent_name_waits_nowhere(view, id);
    new_socket_keeps_queue_law(
        view,
        id,
        opening.socket.after_sending(opening.packet, now),
    );
}

/// Receiving keeps waiting connections established.
pub proof fn receiving_keeps_queue_law(
    view: TcpView,
    local_addr: Ipv4Addr,
    remote_addr: Option<Ipv4Addr>,
    payload: Seq<u8>,
)
    requires
        view.wf(),
        queued_are_established(view),
    ensures
        queued_are_established(view.after_receiving(local_addr, remote_addr, payload)),
{
    let stepped = view.after_receiving(local_addr, remote_addr, payload);
    assert forall|other: SocketID, i: int|
        stepped.sockets.contains_key(other) && 0 <= i
            < stepped.sockets[other].connected_connection_queue.len() implies stepped.sockets[
    #[trigger] stepped.sockets[other].connected_connection_queue[i]].status
        == TcpStatus::Estableished by {
        receiving_only_advances(view, local_addr, remote_addr, payload, other);
        let queue = view.sockets[other].connected_connection_queue;
        if i < queue.len() {
            assert(view.socket_wf(view.sockets[other]));
            assert(view.sockets.contains_key(queue[i]));
            receiving_only_advances(view, local_addr, remote_addr, payload, queue[i]);
            assert(view.sockets[queue[i]].status == TcpStatus::Estableished);
            assert(stepped.sockets[other].connected_connection_queue[i] == queue[i]);
        }
    }
}

/// Sending keeps waiting connections established.
pub proof fn sending_keeps_queue_law(view: TcpView, chunk: ChunkView, now: u128)
    requires
        view.wf(),
        view.sockets.contains_key(chunk.socket_id),
        queued_are_established(view),
    ensures
        queued_are_established(view.after_chunk(chunk, now)),
{
    let stepped = view.after_chunk(chunk, now);
    assert forall|id: SocketID, i: int|
        stepped.sockets.contains_key(id) && 0 <= i
            < stepped.sockets[id].connected_connection_queue.len() implies stepped.sockets[
    #[trigger] stepped.sockets[id].connected_connection_queue[i]].status
        == TcpStatus::Estableished by {
        let queue = view.sockets[id].connected_connection_queue;
        assert(stepped.sockets[id].connected_connection_queue == queue);
        assert(view.sockets[queue[i]].status == TcpStatus::Estableished);
    }
}

/// The timer keeps waiting connections established.
pub proof fn timer_keeps_queue_law(view: TcpView, now: u128)
    requires
        view.wf(),
        queued_are_established(view),
    ensures
        queued_are_established(view.after_timer(now)),
{
    let stepped = view.after_timer(now);
    assert forall|id: SocketID, i: int|
        stepped.sockets.contains_key(id) && 0 <= i
            < stepped.sockets[id].connected_connection_queue.len() implies stepped.sockets[
    #[trigger] stepped.sockets[id].connected_connection_queue[i]].status
        == TcpStatus::Estableished by {
        let queue = view.sockets[id].connected_connection_queue;
        assert(view.socket_wf(view.sockets[id]));
        assert(stepped.sockets[id].connected_connection_queue == queue);
        assert(view.sockets.contains_key(queue[i]));
        assert(view.sockets[queue[i]].status == TcpStatus::Estableished);
    }
}

/// A connection that is accepted is established, and those that go on waiting
/// stay so.
pub proof fn accepted_is_established(view: TcpView, listening: SocketID)
    requires
        view.wf(),
        queued_are_established(view),
        view.can_accept(listening),
    ensures
        view.sockets.contains_key(view.waiting(listening)[0]),
        view.sockets[view.waiting(listening)[0]].status == TcpStatus::Estableished,
        queued_are_established(view.after_accepting(listening)),
{
    let queue = view.waiting(listening);
    assert(view.socket_wf(view.sockets[listening]));
    assert(view.sockets[listening].connected_connection_queue[0] == queue[0]);
    let stepped = view.after_accepting(listening);
    assert forall|id: SocketID, i: int|
        stepped.sockets.contains_key(id) && 0 <= i
            < stepped.sockets[id].connected_connection_queue.len() implies stepped.sockets[
    #[trigger] stepped.sockets[id].connected_connection_queue[i]].status
        == TcpStatus::Estableished by {
        if id == listening {
            assert(queue.drop_first()[i] == queue[i + 1]);
            assert(view.sockets[view.sockets[listening].connected_connection_queue[i + 1]].status
                == TcpStatus::Estableished);
        } else {
            let other = view.sockets[id].connected_connection_queue;
            assert(stepped.sockets[id].connected_connection_queue == other);
            assert(view.sockets[other[i]].status == TcpStatus::Estableished);
        }
    }
}

} // verus!
