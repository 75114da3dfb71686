//! One end of a connection: its parameters, its queues, and how segments and
//! time change them.

use crate::addr::Ipv4Addr;
use crate::checksum::MAX_SEGMENT_SIZE;
use crate::packet;
use crate::packet::{Fields, TCPPacket, TCP_HEADER_SIZE};
use crate::tcpflags;
use std::collections::VecDeque;
use vstd::prelude::*;

verus! {

/// How often a segment is transmitted before it is given up.
pub const MAX_TRANSMITTION: u8 = 5;

/// The time after which a segment that was not acknowledged is sent again:
/// three seconds, in the nanoseconds in which the clock is read.
pub const RETRANSMITTION_TIMEOUT: u128 = 3_000_000_000;

/// The window that a new socket offers.
pub const SOCKET_BUFFER_SIZE: u16 = 4380;

/// Names a socket: local and remote address, local and remote port.
#[derive(Clone, Copy, PartialEq, Eq, Structural, Debug)]
pub struct SocketID(pub Ipv4Addr, pub Ipv4Addr, pub u16, pub u16);

impl SocketID {
    /// The number under which a socket is kept.
    pub open spec fn key(self) -> u128 {
        (self.0.bits * 0x1_0000_0000_0000_0000 + self.1.bits * 0x1_0000_0000 + self.2 * 0x1_0000
            + self.3) as u128
    }

    pub fn to_key(&self) -> (r: u128)
        ensures
            r == self.key(),
    {
        self.0.bits as u128 * 0x1_0000_0000_0000_0000 + self.1.bits as u128 * 0x1_0000_0000
            + self.2 as u128 * 0x1_0000 + self.3 as u128
    }

    /// The socket name that a number stands for.
    pub open spec fn of_key(key: u128) -> SocketID {
        SocketID(
            Ipv4Addr { bits: (key / 0x1_0000_0000_0000_0000) as u32 },
            Ipv4Addr { bits: (key / 0x1_0000_0000 % 0x1_0000_0000) as u32 },
            (key / 0x1_0000 % 0x1_0000) as u16,
            (key % 0x1_0000) as u16,
        )
    }

    pub fn from_key(key: u128) -> (r: SocketID)
        requires
            key < 0x1_0000_0000_0000_0000_0000_0000,
        ensures
            r == SocketID::of_key(key),
    {
        SocketID(
            Ipv4Addr { bits: (key / 0x1_0000_0000_0000_0000) as u32 },
            Ipv4Addr { bits: (key / 0x1_0000_0000 % 0x1_0000_0000) as u32 },
            (key / 0x1_0000 % 0x1_0000) as u16,
            (key % 0x1_0000) as u16,
        )
    }
}

/// A name is recovered from its number.
pub proof fn lemma_of_key(id: SocketID)
    ensures
        SocketID::of_key(id.key()) == id,
        id.key() < 0x1_0000_0000_0000_0000_0000_0000,
{
    let (a, b, c, d) = (id.0.bits as int, id.1.bits as int, id.2 as int, id.3 as int);
    let ports = c * 0x1_0000 + d;
    let key = a * 0x1_0000_0000_0000_0000 + b * 0x1_0000_0000 + ports;
    assert(id.key() == key);
    assert(key / 0x1_0000_0000_0000_0000 == a);
    assert(key / 0x1_0000_0000 == a * 0x1_0000_0000 + b);
    assert((a * 0x1_0000_0000 + b) % 0x1_0000_0000 == b);
    assert(key / 0x1_0000 == (a * 0x1_0000_0000 + b) * 0x1_0000 + c);
    assert(((a * 0x1_0000_0000 + b) * 0x1_0000 + c) % 0x1_0000 == c);
    assert(key % 0x1_0000 == d);
}

/// A number below the bound is recovered from its name.
pub proof fn lemma_key_of(key: u128)
    requires
        key < 0x1_0000_0000_0000_0000_0000_0000,
    ensures
        SocketID::of_key(key).key() == key,
{
    let k = key as int;
    let (k1, k2, k3) = (k / 0x1_0000, k / 0x1_0000_0000, k / 0x1_0000_0000_0000_0000);
    assert(k == k1 * 0x1_0000 + k % 0x1_0000);
    assert(k1 / 0x1_0000 == k2);
    assert(k1 == k2 * 0x1_0000 + k1 % 0x1_0000);
    assert(k2 / 0x1_0000_0000 == k3);
    assert(k2 == k3 * 0x1_0000_0000 + k2 % 0x1_0000_0000);
    assert(k3 < 0x1_0000_0000);
    let id = SocketID::of_key(key);
    assert(id.0.bits == k3);
    assert(id.1.bits == k2 % 0x1_0000_0000);
    assert(id.2 == k1 % 0x1_0000);
    assert(id.3 == k % 0x1_0000);
}

/// The states of a connection. The handshake leads to `Estableished`; the
/// states in which a connection is closed are never entered.
#[derive(Clone, Copy, PartialEq, Eq, Structural, Debug)]
pub enum TcpStatus {
    Listen,
    SynSent,
    SynRcvd,
    Estableished,
    FinWait1,
    FinWait2,
    TimeWait,
    CloseWait,
    LastAck,
}

/// What the sending side keeps track of.
#[derive(Clone, Copy, PartialEq, Eq, Structural, Debug)]
pub struct SendParam {
    /// The first sequence number that the peer has not acknowledged.
    pub unacked_seq: u32,
    /// The sequence number of the next byte to send.
    pub next: u32,
    /// The window that the peer offered.
    pub window: u16,
    /// The sequence number of the own SYN.
    pub initial_seq: u32,
}

/// What the receiving side keeps track of.
#[derive(Clone, Copy, PartialEq, Eq, Structural, Debug)]
pub struct RecvParam {
    /// The sequence number that is expected next.
    pub next: u32,
    /// The window that is offered to the peer.
    pub window: u16,
    /// The sequence number of the peer's SYN.
    pub initial_seq: u32,
}

/// A segment that was sent and not yet acknowledged.
pub struct EntryView {
    pub packet: Seq<u8>,
    pub latest_transmission_time: u128,
    pub transmission_count: u8,
}

impl EntryView {
    /// Whether everything below `unacked_seq` covers the start of the segment.
    pub open spec fn acked(self, unacked_seq: u32) -> bool {
        unacked_seq > packet::seq_of(self.packet)
    }

    /// Whether the timeout has passed since the recorded transmission.
    pub open spec fn timed_out(self, now: u128) -> bool {
        now - self.latest_transmission_time >= RETRANSMITTION_TIMEOUT
    }

    /// Whether the timer drops the segment: it was acknowledged, or it timed
    /// out and was transmitted often enough.
    pub open spec fn stale(self, unacked_seq: u32, now: u128) -> bool {
        self.acked(unacked_seq) || (self.timed_out(now) && self.transmission_count
            >= MAX_TRANSMITTION)
    }

    /// The entry after one more transmission; the recorded time stays that of
    /// the first.
    pub open spec fn sent_again(self) -> EntryView {
        EntryView { transmission_count: (self.transmission_count + 1) as u8, ..self }
    }
}

/// `queue` without its longest acknowledged prefix.
pub open spec fn drop_acked(queue: Seq<EntryView>, unacked_seq: u32) -> Seq<EntryView>
    decreases queue.len(),
{
    if queue.len() > 0 && queue[0].acked(unacked_seq) {
        drop_acked(queue.drop_first(), unacked_seq)
    } else {
        queue
    }
}

/// `queue` without its longest stale prefix.
pub open spec fn drop_stale(queue: Seq<EntryView>, unacked_seq: u32, now: u128) -> Seq<EntryView>
    decreases queue.len(),
{
    if queue.len() > 0 && queue[0].stale(unacked_seq, now) {
        drop_stale(queue.drop_first(), unacked_seq, now)
    } else {
        queue
    }
}

/// Whether a segment is kept until it is acknowledged: everything but a bare ACK.
pub open spec fn awaits_ack(packet: Seq<u8>) -> bool {
    !(packet.len() == TCP_HEADER_SIZE && packet::flag_of(packet) == tcpflags::ACK)
}

/// The state of a socket.
#[verifier::ext_equal]
pub struct SocketView {
    pub local_addr: Ipv4Addr,
    pub remote_addr: Ipv4Addr,
    pub local_port: u16,
    pub remote_port: u16,
    pub send_param: SendParam,
    pub recv_param: RecvParam,
    pub status: TcpStatus,
    pub retransmission_queue: Seq<EntryView>,
    pub connected_connection_queue: Seq<SocketID>,
    pub listening_socket: Option<SocketID>,
}

impl SocketView {
    pub open spec fn id(self) -> SocketID {
        SocketID(self.local_addr, self.remote_addr, self.local_port, self.remote_port)
    }

    /// What holds of every socket: nothing is acknowledged that was not sent,
    /// and no segment was transmitted more often than allowed.
    pub open spec fn wf(self) -> bool {
        &&& self.send_param.unacked_seq <= self.send_param.next
        &&& forall|i: int|
            0 <= i < self.retransmission_queue.len() ==> 1 <= (
            #[trigger] self.retransmission_queue[i]).transmission_count <= MAX_TRANSMITTION
    }

    /// A socket before anything was sent or received on it.
    pub open spec fn fresh(
        local_addr: Ipv4Addr,
        remote_addr: Ipv4Addr,
        local_port: u16,
        remote_port: u16,
        status: TcpStatus,
    ) -> SocketView {
        SocketView {
            local_addr,
            remote_addr,
            local_port,
            remote_port,
            send_param: SendParam {
                unacked_seq: 0,
                next: 0,
                window: SOCKET_BUFFER_SIZE,
                initial_seq: 0,
            },
            recv_param: RecvParam { next: 0, window: SOCKET_BUFFER_SIZE, initial_seq: 0 },
            status,
            retransmission_queue: Seq::empty(),
            connected_connection_queue: Seq::empty(),
            listening_socket: None,
        }
    }

    /// The segment that the socket sends with these numbers, bits and payload.
    pub open spec fn segment(self, seq: u32, ack: u32, flag: u8, payload: Seq<u8>) -> Seq<u8> {
        packet::segment_bytes(
            Fields {
                src: self.local_port,
                dest: self.remote_port,
                seq,
                ack,
                flag,
                window: self.recv_param.window,
            },
            payload,
            self.local_addr,
            self.remote_addr,
        )
    }

    /// The socket once a segment of it went out: the segment is kept for
    /// retransmission, unless it is a bare ACK.
    pub open spec fn after_sending(self, packet: Seq<u8>, now: u128) -> SocketView {
        if awaits_ack(packet) {
            SocketView {
                retransmission_queue: self.retransmission_queue.push(
                    EntryView { packet, latest_transmission_time: now, transmission_count: 1 },
                ),
                ..self
            }
        } else {
            self
        }
    }

    /// The socket of an active open whose SYN has the number `initial_seq`.
    pub open spec fn connecting(
        local_addr: Ipv4Addr,
        remote_addr: Ipv4Addr,
        local_port: u16,
        remote_port: u16,
        initial_seq: u32,
    ) -> SocketView {
        let fresh = SocketView::fresh(
            local_addr,
            remote_addr,
            local_port,
            remote_port,
            TcpStatus::SynSent,
        );
        SocketView {
            send_param: SendParam {
                unacked_seq: initial_seq,
                next: (initial_seq + 1) as u32,
                initial_seq,
                ..fresh.send_param
            },
            ..fresh
        }
    }

    /// The SYN of an active open.
    pub open spec fn syn(self) -> Seq<u8> {
        self.segment(self.send_param.initial_seq, 0, tcpflags::SYN, Seq::empty())
    }

    /// The socket that a listening socket opens for a SYN from `remote_addr`,
    /// its own SYN having the number `initial_seq`.
    pub open spec fn accepting(
        self,
        packet: Seq<u8>,
        remote_addr: Ipv4Addr,
        initial_seq: u32,
    ) -> SocketView {
        let fresh = SocketView::fresh(
            self.local_addr,
            remote_addr,
            self.local_port,
            packet::src_of(packet),
            TcpStatus::SynRcvd,
        );
        SocketView {
            send_param: SendParam {
                unacked_seq: initial_seq,
                next: (initial_seq + 1) as u32,
                window: packet::window_of(packet),
                initial_seq,
            },
            recv_param: RecvParam {
                next: (packet::seq_of(packet) + 1) as u32,
                initial_seq: packet::seq_of(packet),
                ..fresh.recv_param
            },
            listening_socket: Some(self.id()),
            ..fresh
        }
    }

    /// The SYN and ACK that such a socket answers with.
    pub open spec fn syn_ack(self) -> Seq<u8> {
        self.segment(
            self.send_param.initial_seq,
            self.recv_param.next,
            tcpflags::SYN | tcpflags::ACK,
            Seq::empty(),
        )
    }

    /// The bare ACK of everything that was received.
    pub open spec fn bare_ack(self) -> Seq<u8> {
        self.segment(self.send_param.next, self.recv_param.next, tcpflags::ACK, Seq::empty())
    }

    /// Whether an acknowledgement number lies between what is acknowledged and
    /// what was sent.
    pub open spec fn ack_in_flight(self, packet: Seq<u8>) -> bool {
        self.send_param.unacked_seq <= packet::ack_of(packet) <= self.send_param.next
    }

    /// Whether a segment answers the SYN that was sent: it carries SYN and an
    /// ACK of something in flight.
    pub open spec fn synsent_accepts(self, packet: Seq<u8>) -> bool {
        packet::has_flag(packet, tcpflags::ACK) && self.ack_in_flight(packet) && packet::has_flag(
            packet,
            tcpflags::SYN,
        )
    }

    /// The socket after such an answer. The connection stands if the SYN itself
    /// was acknowledged.
    pub open spec fn after_synsent(self, packet: Seq<u8>) -> SocketView {
        SocketView {
            send_param: SendParam {
                unacked_seq: packet::ack_of(packet),
                window: packet::window_of(packet),
                ..self.send_param
            },
            recv_param: RecvParam {
                next: (packet::seq_of(packet) + 1) as u32,
                initial_seq: packet::seq_of(packet),
                ..self.recv_param
            },
            status: if packet::ack_of(packet) > self.send_param.initial_seq {
                TcpStatus::Estableished
            } else {
                TcpStatus::SynRcvd
            },
            ..self
        }
    }

    /// Whether a segment acknowledges the SYN and ACK that were sent.
    pub open spec fn synrcvd_accepts(self, packet: Seq<u8>) -> bool {
        packet::has_flag(packet, tcpflags::ACK) && self.ack_in_flight(packet)
    }

    /// The socket after such an acknowledgement.
    pub open spec fn after_synrcvd(self, packet: Seq<u8>) -> SocketView {
        SocketView {
            send_param: SendParam { unacked_seq: packet::ack_of(packet), ..self.send_param },
            recv_param: RecvParam { next: packet::seq_of(packet), ..self.recv_param },
            status: TcpStatus::Estableished,
            ..self
        }
    }

    /// Whether a segment carries ACK and acknowledges something new that was
    /// really sent.
    pub open spec fn advances(self, packet: Seq<u8>) -> bool {
        packet::has_flag(packet, tcpflags::ACK) && self.send_param.unacked_seq < packet::ack_of(
            packet,
        ) <= self.send_param.next
    }

    /// The socket after such an acknowledgement: what it covers is not kept any longer.
    pub open spec fn after_ack(self, packet: Seq<u8>) -> SocketView {
        SocketView {
            send_param: SendParam { unacked_seq: packet::ack_of(packet), ..self.send_param },
            retransmission_queue: drop_acked(self.retransmission_queue, packet::ack_of(packet)),
            ..self
        }
    }

    /// Whether such an acknowledgement covers a segment that is kept.
    pub open spec fn ack_frees(self, packet: Seq<u8>) -> bool {
        self.retransmission_queue.len() > 0 && self.retransmission_queue[0].acked(packet::ack_of(packet))
    }

    /// What is kept once the timer has dropped what is stale.
    pub open spec fn kept(self, now: u128) -> Seq<EntryView> {
        drop_stale(self.retransmission_queue, self.send_param.unacked_seq, now)
    }

    /// Whether the timer would have to measure a negative time.
    pub open spec fn clock_behind(self, now: u128) -> bool {
        self.kept(now).len() > 0 && now < self.kept(now)[0].latest_transmission_time
    }

    /// The segment that the timer sends again, if there is one.
    pub open spec fn retransmits(self, now: u128) -> Option<Seq<u8>> {
        if self.kept(now).len() > 0 && self.kept(now)[0].timed_out(now) {
            Some(self.kept(now)[0].packet)
        } else {
            None
        }
    }

    /// The socket after the timer: a segment that is sent again moves to the end.
    pub open spec fn after_timer(self, now: u128) -> SocketView {
        let kept = self.kept(now);
        SocketView {
            retransmission_queue: if self.retransmits(now) is Some {
                kept.drop_first().push(kept[0].sent_again())
            } else {
                kept
            },
            ..self
        }
    }

    /// The socket after the next `size` sequence numbers went out in `packet`.
    pub open spec fn after_data(self, packet: Seq<u8>, size: int, now: u128) -> SocketView {
        let sent = self.after_sending(packet, now);
        SocketView {
            send_param: SendParam {
                next: (self.send_param.next + size) as u32,
                ..self.send_param
            },
            ..sent
        }
    }
}

/// A segment in the retransmission queue.
pub struct RetransmissionQueueEntry {
    packet: TCPPacket,
    latest_transmission_time: u128,
    transmission_count: u8,
}

impl View for RetransmissionQueueEntry {
    type V = EntryView;

    closed spec fn view(&self) -> EntryView {
        EntryView {
            packet: self.packet@,
            latest_transmission_time: self.latest_transmission_time,
            transmission_count: self.transmission_count,
        }
    }
}

spec fn queue_view(queue: Seq<RetransmissionQueueEntry>) -> Seq<EntryView> {
    queue.map_values(|e: RetransmissionQueueEntry| e@)
}

/// One end of a connection.
pub struct Socket {
    local_addr: Ipv4Addr,
    remote_addr: Ipv4Addr,
    local_port: u16,
    remote_port: u16,
    send_param: SendParam,
    recv_param: RecvParam,
    status: TcpStatus,
    retransmission_queue: VecDeque<RetransmissionQueueEntry>,
    connected_connection_queue: VecDeque<SocketID>,
    listening_socket: Option<SocketID>,
}

impl View for Socket {
    type V = SocketView;

    closed spec fn view(&self) -> SocketView {
        SocketView {
            local_addr: self.local_addr,
            remote_addr: self.remote_addr,
            local_port: self.local_port,
            remote_port: self.remote_port,
            send_param: self.send_param,
            recv_param: self.recv_param,
            status: self.status,
            retransmission_queue: queue_view(self.retransmission_queue@),
            connected_connection_queue: self.connected_connection_queue@,
            listening_socket: self.listening_socket,
        }
    }
}

impl Socket {
    pub fn new(
        local_addr: Ipv4Addr,
        remote_addr: Ipv4Addr,
        local_port: u16,
        remote_port: u16,
        status: TcpStatus,
    ) -> (r: Self)
        ensures
            r@ == SocketView::fresh(local_addr, remote_addr, local_port, remote_port, status),
            r@.wf(),
    {
        Socket {
            local_addr,
            remote_addr,
            local_port,
            remote_port,
            send_param: SendParam {
                unacked_seq: 0,
                next: 0,
                window: SOCKET_BUFFER_SIZE,
                initial_seq: 0,
            },
            recv_param: RecvParam { next: 0, window: SOCKET_BUFFER_SIZE, initial_seq: 0 },
            status,
            retransmission_queue: VecDeque::new(),
            connected_connection_queue: VecDeque::new(),
            listening_socket: None,
        }
    }

    pub fn get_socket_id(&self) -> (r: SocketID)
        ensures
            r == self@.id(),
    {
        SocketID(self.local_addr, self.remote_addr, self.local_port, self.remote_port)
    }

    pub fn status(&self) -> (r: TcpStatus)
        ensures
            r == self@.status,
    {
        self.status
    }

    pub fn send_param(&self) -> (r: SendParam)
        ensures
            r == self@.send_param,
    {
        self.send_param
    }

    pub fn recv_param(&self) -> (r: RecvParam)
        ensures
            r == self@.recv_param,
    {
        self.recv_param
    }

    pub fn listening_socket(&self) -> (r: Option<SocketID>)
        ensures
            r == self@.listening_socket,
    {
        self.listening_socket
    }

    /// Builds a segment of this socket.
    pub fn tcp_packet(&self, seq: u32, ack: u32, flag: u8, payload: &[u8]) -> (r: TCPPacket)
        requires
            payload@.len() <= MAX_SEGMENT_SIZE - TCP_HEADER_SIZE,
        ensures
            r@ == self@.segment(seq, ack, flag, payload@),
    {
        TCPPacket::new(
            Fields {
                src: self.local_port,
                dest: self.remote_port,
                seq,
                ack,
                flag,
                window: self.recv_param.window,
            },
            payload,
            self.local_addr,
            self.remote_addr,
        )
    }

    /// Records that a segment of this socket went out.
    pub fn tcp_packet_sent(&mut self, packet: TCPPacket, now: u128)
        ensures
            final(self)@ == old(self)@.after_sending(packet@, now),
            old(self)@.wf() ==> final(self)@.wf(),
    {
        if !(packet.has_no_payload() && packet.get_flag() == tcpflags::ACK) {
            let ghost before = self.retransmission_queue@;
            self.retransmission_queue.push_back(
                RetransmissionQueueEntry {
                    packet,
                    latest_transmission_time: now,
                    transmission_count: 1,
                },
            );
            assert(queue_view(self.retransmission_queue@) =~= queue_view(before).push(
                self.retransmission_queue@.last()@,
            ));
        }
    }

    /// Removes the acknowledged segments from the front of the retransmission
    /// queue, and tells whether there were any.
    pub fn delete_acked_segment_from_retransmission_queue(&mut self) -> (acked: bool)
        ensures
            final(self)@ == (SocketView {
                retransmission_queue: drop_acked(
                    old(self)@.retransmission_queue,
                    old(self)@.send_param.unacked_seq,
                ),
                ..old(self)@
            }),
            acked == (old(self)@.retransmission_queue.len() > 0
                && old(self)@.retransmission_queue[0].acked(old(self)@.send_param.unacked_seq)),
            old(self)@.wf() ==> final(self)@.wf(),
    {
        let ghost start = self@;
        let unacked_seq: u32 = self.send_param.unacked_seq;
        let mut acked = false;
        loop
            invariant
                unacked_seq == start.send_param.unacked_seq,
                self@ == (SocketView {
                    retransmission_queue: self@.retransmission_queue,
                    ..start
                }),
                drop_acked(self@.retransmission_queue, unacked_seq) == drop_acked(
                    start.retransmission_queue,
                    unacked_seq,
                ),
                !acked ==> self@.retransmission_queue == start.retransmission_queue,
                acked ==> start.retransmission_queue.len() > 0
                    && start.retransmission_queue[0].acked(unacked_seq),
                start.wf() ==> self@.wf(),
            ensures
                self@.retransmission_queue == drop_acked(start.retransmission_queue, unacked_seq),
                acked == (start.retransmission_queue.len() > 0
                    && start.retransmission_queue[0].acked(unacked_seq)),
            decreases self.retransmission_queue@.len(),
        {
            let ghost before = self.retransmission_queue@;
            match self.retransmission_queue.pop_front() {
                None => {
                    break;
                },
                Some(item) => {
                    assert(queue_view(before).drop_first() =~= queue_view(
                        self.retransmission_queue@,
                    ));
                    assert(queue_view(before)[0] == item@);
                    if unacked_seq > item.packet.get_seq() {
                        acked = true;
                    } else {
                        self.retransmission_queue.push_front(item);
                        assert(self.retransmission_queue@ =~= before);
                        break;
                    }
                },
            }
        }
        acked
    }

    /// Makes the socket of an active open, and its SYN.
    pub fn connecting(
        local_addr: Ipv4Addr,
        remote_addr: Ipv4Addr,
        local_port: u16,
        remote_port: u16,
        initial_seq: u32,
    ) -> (r: (Self, TCPPacket))
        requires
            initial_seq < u32::MAX,
        ensures
            r.0@ == SocketView::connecting(
                local_addr,
                remote_addr,
                local_port,
                remote_port,
                initial_seq,
            ),
            r.0@.wf(),
            r.1@ == r.0@.syn(),
    {
        let mut socket = Socket::new(
            local_addr,
            remote_addr,
            local_port,
            remote_port,
            TcpStatus::SynSent,
        );
        socket.send_param.initial_seq = initial_seq;
        let packet = socket.tcp_packet(initial_seq, 0, tcpflags::SYN, &[]);
        socket.send_param.unacked_seq = initial_seq;
        socket.send_param.next = initial_seq + 1;
        (socket, packet)
    }

    /// Makes the socket that this listening one opens for a SYN, and its answer.
    pub fn accepting(&self, packet: &TCPPacket, remote_addr: Ipv4Addr, initial_seq: u32) -> (r: (
        Self,
        TCPPacket,
    ))
        requires
            packet::seq_of(packet@) < u32::MAX,
            initial_seq < u32::MAX,
        ensures
            r.0@ == self@.accepting(packet@, remote_addr, initial_seq),
            r.0@.wf(),
            r.1@ == r.0@.syn_ack(),
    {
        let mut socket = Socket::new(
            self.local_addr,
            remote_addr,
            self.local_port,
            packet.get_src(),
            TcpStatus::SynRcvd,
        );
        socket.recv_param.next = packet.get_seq() + 1;
        socket.recv_param.initial_seq = packet.get_seq();
        socket.send_param.initial_seq = initial_seq;
        socket.send_param.window = packet.get_window_size();
        let answer = socket.tcp_packet(
            initial_seq,
            socket.recv_param.next,
            tcpflags::SYN | tcpflags::ACK,
            &[],
        );
        socket.send_param.next = initial_seq + 1;
        socket.send_param.unacked_seq = initial_seq;
        socket.listening_socket = Some(self.get_socket_id());
        (socket, answer)
    }

    /// Whether a segment answers the SYN that was sent.
    pub fn is_answering_syn(&self, packet: &TCPPacket) -> (r: bool)
        ensures
            r == self@.synsent_accepts(packet@),
    {
        packet.get_flag() & tcpflags::ACK > 0 && self.send_param.unacked_seq <= packet.get_ack()
            && packet.get_ack() <= self.send_param.next && packet.get_flag() & tcpflags::SYN > 0
    }

    /// Takes in a segment while the own SYN is not answered, and returns the
    /// acknowledgement to send if it is the answer.
    pub fn handle_synsent(&mut self, packet: &TCPPacket) -> (r: Option<TCPPacket>)
        requires
            old(self)@.synsent_accepts(packet@) ==> packet::seq_of(packet@) < u32::MAX,
        ensures
            r is Some <==> old(self)@.synsent_accepts(packet@),
            final(self)@ == (if r is Some {
                old(self)@.after_synsent(packet@)
            } else {
                old(self)@
            }),
            r matches Some(ack) ==> ack@ == final(self)@.bare_ack(),
            old(self)@.wf() ==> final(self)@.wf(),
    {
        if self.is_answering_syn(packet) {
            self.recv_param.next = packet.get_seq() + 1;
            self.recv_param.initial_seq = packet.get_seq();
            self.send_param.unacked_seq = packet.get_ack();
            self.send_param.window = packet.get_window_size();
            if self.send_param.unacked_seq > self.send_param.initial_seq {
                self.status = TcpStatus::Estableished;
            } else {
                self.status = TcpStatus::SynRcvd;
            }
                Some(
                self.tcp_packet(self.send_param.next, self.recv_param.next, tcpflags::ACK, &[]),
            )
        } else {
            None
        }
    }

    /// Takes in a segment while the own SYN and ACK are not acknowledged, and
    /// tells whether it acknowledges them.
    pub fn handle_synrcvd(&mut self, packet: &TCPPacket) -> (r: bool)
        ensures
            r == old(self)@.synrcvd_accepts(packet@),
            final(self)@ == (if r {
                old(self)@.after_synrcvd(packet@)
            } else {
                old(self)@
            }),
            old(self)@.wf() ==> final(self)@.wf(),
    {
        if packet.get_flag() & tcpflags::ACK > 0 && self.send_param.unacked_seq <= packet.get_ack()
            && packet.get_ack() <= self.send_param.next {
            self.recv_param.next = packet.get_seq();
            self.send_param.unacked_seq = packet.get_ack();
            self.status = TcpStatus::Estableished;
            true
        } else {
            false
        }
    }

    /// Takes in the acknowledgement of a segment on an established connection,
    /// and tells whether it covers a segment that was kept.
    pub fn handle_established(&mut self, packet: &TCPPacket) -> (acked: bool)
        ensures
            final(self)@ == (if old(self)@.advances(packet@) {
                old(self)@.after_ack(packet@)
            } else {
                old(self)@
            }),
            acked == (old(self)@.advances(packet@) && old(self)@.ack_frees(packet@)),
            old(self)@.wf() ==> final(self)@.wf(),
    {
        if packet.get_flag() & tcpflags::ACK == 0 {
            return false;
        }
        if self.send_param.unacked_seq < packet.get_ack() && packet.get_ack()
            <= self.send_param.next {
            self.send_param.unacked_seq = packet.get_ack();
            self.delete_acked_segment_from_retransmission_queue()
        } else {
            // An acknowledgement of nothing new, or of something not yet sent.
            false
        }
    }

    /// Records that a connection of this listening socket is complete.
    pub fn push_connected(&mut self, id: SocketID)
        ensures
            final(self)@ == (SocketView {
                connected_connection_queue: old(self)@.connected_connection_queue.push(id),
                ..old(self)@
            }),
            old(self)@.wf() ==> final(self)@.wf(),
    {
        self.connected_connection_queue.push_back(id);
    }

    /// Hands out the connection that was completed first.
    pub fn pop_connected(&mut self) -> (r: Option<SocketID>)
        ensures
            r is Some <==> old(self)@.connected_connection_queue.len() > 0,
            r matches Some(id) ==> id == old(self)@.connected_connection_queue[0] && final(self)@
                == (SocketView {
                connected_connection_queue: old(self)@.connected_connection_queue.drop_first(),
                ..old(self)@
            }),
            r is None ==> final(self)@ == old(self)@,
            old(self)@.wf() ==> final(self)@.wf(),
    {
        self.connected_connection_queue.pop_front()
    }

    /// Records that the next bytes of the stream went out.
    pub fn data_sent(&mut self, packet: TCPPacket, size: u32, now: u128)
        requires
            old(self)@.send_param.next + size <= u32::MAX,
        ensures
            final(self)@ == old(self)@.after_data(packet@, size as int, now),
            old(self)@.wf() ==> final(self)@.wf(),
    {
        self.tcp_packet_sent(packet, now);
        self.send_param.next = self.send_param.next + size;
    }

    /// Whether the timer would have to measure a negative time.
    pub fn is_clock_behind(&self, now: u128) -> (r: bool)
        ensures
            r == self@.clock_behind(now),
    {
        let ghost queue = self@.retransmission_queue;
        let unacked_seq: u32 = self.send_param.unacked_seq;
        let mut i: usize = 0;
        assert(queue.skip(0) =~= queue);
        while i < self.retransmission_queue.len()
            invariant
                i <= self.retransmission_queue@.len(),
                queue == queue_view(self.retransmission_queue@),
                queue == self@.retransmission_queue,
                unacked_seq == self@.send_param.unacked_seq,
                drop_stale(queue.skip(i as int), unacked_seq, now) == drop_stale(
                    queue,
                    unacked_seq,
                    now,
                ),
            decreases self.retransmission_queue@.len() - i,
        {
            let item = &self.retransmission_queue[i];
            assert(queue.skip(i as int)[0] == item@);
            assert(queue.skip(i as int).drop_first() =~= queue.skip(i + 1));
            if unacked_seq <= item.packet.get_seq() {
                if now < item.latest_transmission_time {
                    return true;
                }
                if now - item.latest_transmission_time < RETRANSMITTION_TIMEOUT
                    || item.transmission_count < MAX_TRANSMITTION {
                    return false;
                }
            }
            i = i + 1;
        }
        false
    }

    /// Lets the timer work on the retransmission queue: what is stale is
    /// dropped, and the first segment after that is returned for another
    /// transmission if it timed out.
    pub fn timer(&mut self, now: u128) -> (r: Option<TCPPacket>)
        requires
            !old(self)@.clock_behind(now),
        ensures
            final(self)@ == old(self)@.after_timer(now),
            r is Some <==> old(self)@.retransmits(now) is Some,
            r matches Some(packet) ==> old(self)@.retransmits(now) == Some(packet@),
            old(self)@.wf() ==> final(self)@.wf(),
    {
        let ghost start = self@;
        let unacked_seq: u32 = self.send_param.unacked_seq;
        loop
            invariant
                unacked_seq == start.send_param.unacked_seq,
                !start.clock_behind(now),
                start == old(self)@,
                self@ == (SocketView {
                    retransmission_queue: self@.retransmission_queue,
                    ..start
                }),
                drop_stale(self@.retransmission_queue, unacked_seq, now) == start.kept(now),
                start.wf() ==> self@.wf(),
            decreases self.retransmission_queue@.len(),
        {
            let ghost before = self.retransmission_queue@;
            match self.retransmission_queue.pop_front() {
                None => {
                    assert(start.kept(now) =~= queue_view(before));
                    return None;
                },
                Some(mut item) => {
                    assert(queue_view(before).drop_first() =~= queue_view(
                        self.retransmission_queue@,
                    ));
                    assert(queue_view(before)[0] == item@);
                    if unacked_seq > item.packet.get_seq() {
                        continue;
                    }
                    if now - item.latest_transmission_time < RETRANSMITTION_TIMEOUT {
                        self.retransmission_queue.push_front(item);
                        assert(self.retransmission_queue@ =~= before);
                        return None;
                    }
                    if item.transmission_count < MAX_TRANSMITTION {
                        let packet = item.packet.clone();
                        item.transmission_count = item.transmission_count + 1;
                        let ghost rest = self.retransmission_queue@;
                        self.retransmission_queue.push_back(item);
                        assert(queue_view(self.retransmission_queue@) =~= queue_view(rest).push(
                            item@,
                        ));
                        return Some(packet);
                    }
                },
            }
        }
    }
}

} // verus!
