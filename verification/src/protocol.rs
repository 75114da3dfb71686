//! The protocol, one segment, one timer pass and one call at a time: what each
//! operation does, told over the fields of segments and sockets.

use crate::addr::Ipv4Addr;
use crate::error::TcpError;
use crate::event::{TCPEvent, TCPEventKind};
use crate::laws;
use crate::packet;
use crate::random::Draw;
use crate::socket::{EntryView, RecvParam, SendParam, SocketID, SocketView, TcpStatus};
use crate::tcp;
use crate::tcp::{ChunkView, OpeningView, ReplyView, TcpView};
use crate::tcpflags;
use vstd::prelude::*;

verus! {

/// A segment with a whole header and a correct checksum is handed to the
/// connection between its two ends if there is one, or else to the socket that
/// listens on its destination port. Any other segment is handed to no socket.
pub proof fn segment_finds_its_socket(
    view: TcpView,
    local_addr: Ipv4Addr,
    remote_addr: Option<Ipv4Addr>,
    payload: Seq<u8>,
)
    ensures
        ({
            let to = view.delivered_to(local_addr, remote_addr, payload);
            let remote = remote_addr->0;
            let (dest, src) = (packet::dest_of(payload), packet::src_of(payload));
            let connection = SocketID(local_addr, remote, dest, src);
            let listener = SocketID(local_addr, Ipv4Addr { bits: 0 }, dest, 0);
            let sound = remote_addr is Some && payload.len() >= 20 && packet::checksum_ok(
                payload,
                local_addr,
                remote,
            );
            &&& sound && view.sockets.contains_key(connection) ==> to == Some(connection)
            &&& sound && !view.sockets.contains_key(connection) && view.sockets.contains_key(
                listener,
            ) ==> to == Some(listener)
            &&& sound && !view.sockets.contains_key(connection) && !view.sockets.contains_key(
                listener,
            ) ==> to is None
            &&& !sound ==> to is None
        }),
{
}

/// Every segment that asks a listening socket for a connection, of any length
/// and with any other control bits, opens a socket in `SynRcvd` and is answered
/// with SYN and ACK: the answer has the drawn number, and acknowledges the SYN.
#[verifier::spinoff_prover]
#[verifier::rlimit(40)]
pub proof fn listener_opens_for_any_syn(
    view: TcpView,
    local_addr: Ipv4Addr,
    remote_addr: Ipv4Addr,
    payload: Seq<u8>,
    initial_seq: u32,
    id: SocketID,
)
    requires
        view.wf(),
        view.delivered_to(local_addr, Some(remote_addr), payload) == Some(id),
        view.sockets[id].status == TcpStatus::Listen,
        packet::has_flag(payload, tcpflags::SYN),
        !packet::has_flag(payload, tcpflags::ACK),
        packet::seq_of(payload) < u32::MAX,
        initial_seq < u32::MAX,
    ensures
        view.after_receiving(local_addr, Some(remote_addr), payload) == view,
        view.reply(local_addr, Some(remote_addr), payload, initial_seq) matches Some(
            ReplyView::Open(opening),
        ) && {
            let answer = opening.packet;
            &&& opening.socket == SocketView {
                local_addr,
                remote_addr,
                local_port: packet::dest_of(payload),
                remote_port: packet::src_of(payload),
                send_param: SendParam {
                    unacked_seq: initial_seq,
                    next: (initial_seq + 1) as u32,
                    window: packet::window_of(payload),
                    initial_seq,
                },
                recv_param: RecvParam {
                    next: (packet::seq_of(payload) + 1) as u32,
                    window: 4380,
                    initial_seq: packet::seq_of(payload),
                },
                status: TcpStatus::SynRcvd,
                retransmission_queue: Seq::empty(),
                connected_connection_queue: Seq::empty(),
                listening_socket: Some(id),
            }
            &&& answer.len() == 20
            &&& packet::src_of(answer) == packet::dest_of(payload)
            &&& packet::dest_of(answer) == packet::src_of(payload)
            &&& packet::seq_of(answer) == initial_seq
            &&& packet::ack_of(answer) == packet::seq_of(payload) + 1
            &&& packet::flag_of(answer) == 0x12
            &&& packet::window_of(answer) == 4380
            &&& packet::checksum_ok(answer, remote_addr, local_addr)
            &&& view.can_open(opening)
        },
{
    let listener = view.sockets[id];
    assert(view.sockets.contains_key(id));
    assert(listener.id() == id);
    assert(0x02u8 | 0x10u8 == 0x12u8) by (bit_vector);
    let socket = listener.accepting(payload, remote_addr, initial_seq);
    laws::sent_segment_reads_back(
        socket,
        initial_seq,
        socket.recv_param.next,
        tcpflags::SYN | tcpflags::ACK,
        Seq::empty(),
    );
}

/// Whatever else reaches a listening socket changes nothing and is not answered.
pub proof fn listener_ignores_the_rest(
    view: TcpView,
    local_addr: Ipv4Addr,
    remote_addr: Option<Ipv4Addr>,
    payload: Seq<u8>,
    initial_seq: u32,
    id: SocketID,
)
    requires
        view.delivered_to(local_addr, remote_addr, payload) == Some(id),
        view.sockets[id].status == TcpStatus::Listen,
        packet::has_flag(payload, tcpflags::ACK) || !packet::has_flag(payload, tcpflags::SYN),
    ensures
        view.after_receiving(local_addr, remote_addr, payload) == view,
        view.reply(local_addr, remote_addr, payload, initial_seq) is None,
{
}

/// Every segment with SYN and ACK that acknowledges between what is acknowledged
/// and what was sent, of any length, is taken as the answer to the own SYN. It is
/// acknowledged, and if it covers the own SYN the connection stands, which is
/// published once the acknowledgement is out. Nothing else is changed.
#[verifier::spinoff_prover]
#[verifier::rlimit(40)]
pub proof fn any_answer_to_syn_is_taken(
    view: TcpView,
    local_addr: Ipv4Addr,
    remote_addr: Option<Ipv4Addr>,
    payload: Seq<u8>,
    initial_seq: u32,
    id: SocketID,
)
    requires
        view.delivered_to(local_addr, remote_addr, payload) == Some(id),
        view.sockets[id].status == TcpStatus::SynSent,
        packet::has_flag(payload, tcpflags::SYN),
        packet::has_flag(payload, tcpflags::ACK),
        view.sockets[id].send_param.unacked_seq <= packet::ack_of(payload)
            <= view.sockets[id].send_param.next,
        packet::seq_of(payload) < u32::MAX,
    ensures
        ({
            let socket = view.sockets[id];
            let stands = packet::ack_of(payload) > socket.send_param.initial_seq;
            let stepped = view.after_receiving(local_addr, remote_addr, payload);
            &&& stepped.event == view.event
            &&& stepped.sockets == view.sockets.insert(
                id,
                SocketView {
                    send_param: SendParam {
                        unacked_seq: packet::ack_of(payload),
                        next: socket.send_param.next,
                        window: packet::window_of(payload),
                        initial_seq: socket.send_param.initial_seq,
                    },
                    recv_param: RecvParam {
                        next: (packet::seq_of(payload) + 1) as u32,
                        window: socket.recv_param.window,
                        initial_seq: packet::seq_of(payload),
                    },
                    status: if stands {
                        TcpStatus::Estableished
                    } else {
                        TcpStatus::SynRcvd
                    },
                    ..socket
                },
            )
            &&& view.reply(local_addr, remote_addr, payload, initial_seq) matches Some(
                ReplyView::Acknowledge(ack),
            ) && {
                &&& ack.socket_id == id
                &&& ack.packet.len() == 20
                &&& packet::src_of(ack.packet) == socket.local_port
                &&& packet::dest_of(ack.packet) == socket.remote_port
                &&& packet::seq_of(ack.packet) == socket.send_param.next
                &&& packet::ack_of(ack.packet) == packet::seq_of(payload) + 1
                &&& packet::flag_of(ack.packet) == 0x10
                &&& packet::window_of(ack.packet) == socket.recv_param.window
                &&& packet::checksum_ok(ack.packet, socket.remote_addr, socket.local_addr)
                &&& stepped.after_acknowledging(ack).sockets == stepped.sockets
                &&& stepped.after_acknowledging(ack).event == if stands {
                    Some(TCPEvent { socket_id: id, kind: TCPEventKind::ConnectionCompleted })
                } else {
                    view.event
                }
            }
        }),
{
    let socket = view.sockets[id].after_synsent(payload);
    laws::sent_segment_reads_back(
        socket,
        socket.send_param.next,
        socket.recv_param.next,
        tcpflags::ACK,
        Seq::empty(),
    );
}

/// Whatever else reaches a socket whose SYN is out changes nothing and is not
/// answered.
pub proof fn no_answer_to_syn_is_ignored(
    view: TcpView,
    local_addr: Ipv4Addr,
    remote_addr: Option<Ipv4Addr>,
    payload: Seq<u8>,
    initial_seq: u32,
    id: SocketID,
)
    requires
        view.delivered_to(local_addr, remote_addr, payload) == Some(id),
        view.sockets[id].status == TcpStatus::SynSent,
        !packet::has_flag(payload, tcpflags::SYN) || !packet::has_flag(payload, tcpflags::ACK)
            || packet::ack_of(payload) < view.sockets[id].send_param.unacked_seq
            || packet::ack_of(payload) > view.sockets[id].send_param.next,
    ensures
        view.after_receiving(local_addr, remote_addr, payload) == view,
        view.reply(local_addr, remote_addr, payload, initial_seq) is None,
{
}

/// Every segment with ACK that acknowledges between what is acknowledged and
/// what was sent, of any length, completes a handshake that waits for its end.
/// The connection is queued last at its listening socket, if it has one, and
/// that is published there. Nothing is answered and nothing else is changed.
#[verifier::spinoff_prover]
#[verifier::rlimit(40)]
pub proof fn any_ack_ends_the_handshake(
    view: TcpView,
    local_addr: Ipv4Addr,
    remote_addr: Option<Ipv4Addr>,
    payload: Seq<u8>,
    initial_seq: u32,
    id: SocketID,
)
    requires
        view.wf(),
        view.delivered_to(local_addr, remote_addr, payload) == Some(id),
        view.sockets[id].status == TcpStatus::SynRcvd,
        packet::has_flag(payload, tcpflags::ACK),
        view.sockets[id].send_param.unacked_seq <= packet::ack_of(payload)
            <= view.sockets[id].send_param.next,
    ensures
        ({
            let socket = view.sockets[id];
            let stepped = view.after_receiving(local_addr, remote_addr, payload);
            let standing = SocketView {
                send_param: SendParam {
                    unacked_seq: packet::ack_of(payload),
                    next: socket.send_param.next,
                    window: socket.send_param.window,
                    initial_seq: socket.send_param.initial_seq,
                },
                recv_param: RecvParam {
                    next: packet::seq_of(payload),
                    window: socket.recv_param.window,
                    initial_seq: socket.recv_param.initial_seq,
                },
                status: TcpStatus::Estableished,
                ..socket
            };
            &&& view.reply(local_addr, remote_addr, payload, initial_seq) is None
            &&& stepped.sockets.dom() == view.sockets.dom()
            &&& match socket.listening_socket {
                Some(listening) => {
                    &&& stepped.event == Some(
                        TCPEvent {
                            socket_id: listening,
                            kind: TCPEventKind::ConnectionCompleted,
                        },
                    )
                    &&& listening != id ==> stepped.sockets[id] == standing
                    &&& listening != id ==> stepped.sockets[listening] == SocketView {
                        connected_connection_queue:
                            view.sockets[listening].connected_connection_queue.push(id),
                        ..view.sockets[listening]
                    }
                    &&& listening == id ==> stepped.sockets[id] == SocketView {
                        connected_connection_queue: socket.connected_connection_queue.push(id),
                        ..standing
                    }
                    &&& forall|other: SocketID| #[trigger]
                        view.sockets.contains_key(other) && other != id && other != listening
                            ==> stepped.sockets[other] == view.sockets[other]
                },
                None => {
                    &&& stepped.event == view.event
                    &&& stepped.sockets == view.sockets.insert(id, standing)
                },
            }
        }),
{
    let stepped = view.after_receiving(local_addr, remote_addr, payload);
    assert(view.sockets.contains_key(id));
    assert(view.socket_wf(view.sockets[id]));
    assert(stepped.sockets.dom() =~= view.sockets.dom());
}

/// Whatever else reaches a socket that waits for the end of a handshake changes
/// nothing and is not answered.
pub proof fn no_ack_leaves_the_handshake(
    view: TcpView,
    local_addr: Ipv4Addr,
    remote_addr: Option<Ipv4Addr>,
    payload: Seq<u8>,
    initial_seq: u32,
    id: SocketID,
)
    requires
        view.delivered_to(local_addr, remote_addr, payload) == Some(id),
        view.sockets[id].status == TcpStatus::SynRcvd,
        !packet::has_flag(payload, tcpflags::ACK) || packet::ack_of(payload)
            < view.sockets[id].send_param.unacked_seq || packet::ack_of(payload)
            > view.sockets[id].send_param.next,
    ensures
        view.after_receiving(local_addr, remote_addr, payload) == view,
        view.reply(local_addr, remote_addr, payload, initial_seq) is None,
{
}

/// On an established connection, every segment with ACK that acknowledges
/// something new that was sent, of any length, moves the socket on to the
/// number that it acknowledges. The segments at the front of the queue that
/// begin below that number are not kept any longer, and if there are any, `Acked`
/// is published. Nothing is answered and nothing else is changed.
#[verifier::spinoff_prover]
#[verifier::rlimit(40)]
pub proof fn any_new_ack_is_taken(
    view: TcpView,
    local_addr: Ipv4Addr,
    remote_addr: Option<Ipv4Addr>,
    payload: Seq<u8>,
    initial_seq: u32,
    id: SocketID,
)
    requires
        view.delivered_to(local_addr, remote_addr, payload) == Some(id),
        view.sockets[id].status == TcpStatus::Estableished,
        packet::has_flag(payload, tcpflags::ACK),
        view.sockets[id].send_param.unacked_seq < packet::ack_of(payload)
            <= view.sockets[id].send_param.next,
    ensures
        ({
            let socket = view.sockets[id];
            let acked = packet::ack_of(payload);
            let stepped = view.after_receiving(local_addr, remote_addr, payload);
            let queue = socket.retransmission_queue;
            let left = stepped.sockets[id].retransmission_queue;
            let freed = queue.len() - left.len();
            &&& view.reply(local_addr, remote_addr, payload, initial_seq) is None
            &&& stepped.sockets == view.sockets.insert(
                id,
                SocketView {
                    send_param: SendParam {
                        unacked_seq: acked,
                        next: socket.send_param.next,
                        window: socket.send_param.window,
                        initial_seq: socket.send_param.initial_seq,
                    },
                    retransmission_queue: left,
                    ..socket
                },
            )
            &&& freed >= 0
            &&& left == queue.skip(freed)
            &&& forall|i: int|
                0 <= i < freed ==> packet::seq_of((#[trigger] queue[i]).packet) < acked
            &&& left.len() > 0 ==> packet::seq_of(left[0].packet) >= acked
            &&& stepped.event == if freed > 0 {
                Some(TCPEvent { socket_id: id, kind: TCPEventKind::Acked })
            } else {
                view.event
            }
        }),
{
    let queue = view.sockets[id].retransmission_queue;
    let k = laws::lemma_drop_acked(queue, packet::ack_of(payload));
    let stepped = view.after_receiving(local_addr, remote_addr, payload);
    assert(stepped.sockets[id].retransmission_queue == queue.skip(k));
    assert(k < queue.len() ==> queue.skip(k)[0] == queue[k]);
}

/// Whatever else reaches an established connection changes nothing and is not
/// answered.
pub proof fn no_new_ack_is_ignored(
    view: TcpView,
    local_addr: Ipv4Addr,
    remote_addr: Option<Ipv4Addr>,
    payload: Seq<u8>,
    initial_seq: u32,
    id: SocketID,
)
    requires
        view.delivered_to(local_addr, remote_addr, payload) == Some(id),
        view.sockets[id].status == TcpStatus::Estableished,
        !packet::has_flag(payload, tcpflags::ACK) || packet::ack_of(payload)
            <= view.sockets[id].send_param.unacked_seq || packet::ack_of(payload)
            > view.sockets[id].send_param.next,
    ensures
        view.after_receiving(local_addr, remote_addr, payload) == view,
        view.reply(local_addr, remote_addr, payload, initial_seq) is None,
{
}

/// In the states of a connection that is being closed nothing is taken in.
pub proof fn closing_states_take_nothing(
    view: TcpView,
    local_addr: Ipv4Addr,
    remote_addr: Option<Ipv4Addr>,
    payload: Seq<u8>,
    initial_seq: u32,
    id: SocketID,
)
    requires
        view.delivered_to(local_addr, remote_addr, payload) == Some(id),
        view.sockets[id].status != TcpStatus::Listen,
        view.sockets[id].status != TcpStatus::SynSent,
        view.sockets[id].status != TcpStatus::SynRcvd,
        view.sockets[id].status != TcpStatus::Estableished,
    ensures
        view.after_receiving(local_addr, remote_addr, payload) == view,
        view.reply(local_addr, remote_addr, payload, initial_seq) is None,
{
}

/// A segment cannot be taken in only where it has the greatest sequence number
/// and either asks a listening socket for a connection or answers a SYN.
pub proof fn overflow_needs_the_last_number(
    view: TcpView,
    local_addr: Ipv4Addr,
    remote_addr: Option<Ipv4Addr>,
    payload: Seq<u8>,
)
    ensures
        view.seq_overflows(local_addr, remote_addr, payload) <==> {
            let to = view.delivered_to(local_addr, remote_addr, payload);
            let socket = view.sockets[to->0];
            let syn = packet::has_flag(payload, tcpflags::SYN);
            let ack = packet::has_flag(payload, tcpflags::ACK);
            &&& to is Some
            &&& packet::seq_of(payload) == 0xFFFF_FFFF
            &&& syn
            &&& {
                ||| socket.status == TcpStatus::Listen && !ack
                ||| socket.status == TcpStatus::SynSent && ack && socket.send_param.unacked_seq
                    <= packet::ack_of(payload) <= socket.send_param.next
            }
        },
{
}

/// Whether the timer gives a segment up: it begins below what is acknowledged,
/// or three seconds have passed and it was transmitted five times.
pub open spec fn given_up(entry: EntryView, unacked_seq: u32, now: u128) -> bool {
    ||| packet::seq_of(entry.packet) < unacked_seq
    ||| now - entry.latest_transmission_time >= 3_000_000_000 && entry.transmission_count >= 5
}

/// Whether the segment at `k` is the first that the timer does not give up.
pub open spec fn first_kept(socket: SocketView, now: u128, k: int) -> bool {
    let queue = socket.retransmission_queue;
    &&& 0 <= k < queue.len()
    &&& forall|i: int|
        0 <= i < k ==> given_up(#[trigger] queue[i], socket.send_param.unacked_seq, now)
    &&& !given_up(queue[k], socket.send_param.unacked_seq, now)
}

/// Where `drop_stale` stops is the first segment that is not given up.
proof fn lemma_first_kept(socket: SocketView, now: u128, k: int)
    requires
        first_kept(socket, now, k),
    ensures
        socket.kept(now) == socket.retransmission_queue.skip(k),
        socket.kept(now)[0] == socket.retransmission_queue[k],
{
    let queue = socket.retransmission_queue;
    let j = laws::lemma_drop_stale(queue, socket.send_param.unacked_seq, now);
    if j < k {
        assert(given_up(queue[j], socket.send_param.unacked_seq, now));
    }
    if k < j {
        assert(queue[k].stale(socket.send_param.unacked_seq, now));
    }
}

/// What is due is sent again, on every socket: if the first segment that is not
/// given up has waited three seconds, the timer hands it out, counts one more
/// transmission, and puts it last. What was before it is gone, what was after it
/// stays, and the rest of the socket is unchanged.
pub proof fn timer_sends_what_is_due(socket: SocketView, now: u128, k: int)
    requires
        first_kept(socket, now, k),
        now - socket.retransmission_queue[k].latest_transmission_time >= 3_000_000_000,
    ensures
        ({
            let queue = socket.retransmission_queue;
            &&& socket.retransmits(now) == Some(queue[k].packet)
            &&& socket.after_timer(now) == SocketView {
                retransmission_queue: queue.skip(k + 1).push(
                    EntryView {
                        packet: queue[k].packet,
                        latest_transmission_time: queue[k].latest_transmission_time,
                        transmission_count: (queue[k].transmission_count + 1) as u8,
                    },
                ),
                ..socket
            }
        }),
{
    lemma_first_kept(socket, now, k);
    let queue = socket.retransmission_queue;
    assert(queue.skip(k).drop_first() =~= queue.skip(k + 1));
}

/// What is not due waits: if the first segment that is not given up has waited
/// less than three seconds, nothing is sent, and it stays first.
pub proof fn timer_waits_for_what_is_not_due(socket: SocketView, now: u128, k: int)
    requires
        first_kept(socket, now, k),
        now - socket.retransmission_queue[k].latest_transmission_time < 3_000_000_000,
    ensures
        socket.retransmits(now) is None,
        socket.after_timer(now) == (SocketView {
            retransmission_queue: socket.retransmission_queue.skip(k),
            ..socket
        }),
{
    lemma_first_kept(socket, now, k);
}

/// Where every segment is given up, nothing is sent and nothing is kept.
pub proof fn timer_drops_what_is_given_up(socket: SocketView, now: u128)
    requires
        forall|i: int|
            0 <= i < socket.retransmission_queue.len() ==> given_up(
                #[trigger] socket.retransmission_queue[i],
                socket.send_param.unacked_seq,
                now,
            ),
    ensures
        socket.retransmits(now) is None,
        socket.after_timer(now) == (SocketView { retransmission_queue: Seq::empty(), ..socket }),
        !socket.clock_behind(now),
{
    let queue = socket.retransmission_queue;
    let j = laws::lemma_drop_stale(queue, socket.send_param.unacked_seq, now);
    if j < queue.len() {
        assert(given_up(queue[j], socket.send_param.unacked_seq, now));
    }
    assert(queue.skip(j) =~= Seq::empty());
}

/// The clock is behind a socket exactly where the first segment that is not
/// given up was sent later than now.
pub proof fn clock_is_behind_the_first_kept(socket: SocketView, now: u128, k: int)
    requires
        first_kept(socket, now, k),
    ensures
        socket.clock_behind(now) <==> now < socket.retransmission_queue[k].latest_transmission_time,
{
    lemma_first_kept(socket, now, k);
}

/// The timer works on every socket of the table, whatever its status, and on
/// nothing else; the clock must be behind none of them.
pub proof fn timer_works_on_every_socket(view: TcpView, now: u128)
    ensures
        view.after_timer(now).event == view.event,
        view.after_timer(now).sockets.dom() == view.sockets.dom(),
        forall|id: SocketID| #[trigger]
            view.sockets.contains_key(id) ==> view.after_timer(now).sockets[id]
                == view.sockets[id].after_timer(now),
        view.clock_behind(now) <==> exists|id: SocketID| #[trigger]
            view.sockets.contains_key(id) && view.sockets[id].clock_behind(now),
{
    assert(view.after_timer(now).sockets.dom() =~= view.sockets.dom());
}

/// A lone segment that is never acknowledged is sent five times in all: once at
/// first, then on the first four timer passes that come three seconds later or
/// more. The pass after that gives it up.
pub proof fn segment_is_sent_five_times(
    socket: SocketView,
    sent_at: u128,
    packet: Seq<u8>,
    times: Seq<u128>,
)
    requires
        socket.retransmission_queue == seq![
            EntryView { packet, latest_transmission_time: sent_at, transmission_count: 1 },
        ],
        packet::seq_of(packet) >= socket.send_param.unacked_seq,
        times.len() == 5,
        forall|i: int| 0 <= i < 5 ==> #[trigger] times[i] - sent_at >= 3_000_000_000,
    ensures
        ({
            let first = socket.after_timer(times[0]);
            let second = first.after_timer(times[1]);
            let third = second.after_timer(times[2]);
            let fourth = third.after_timer(times[3]);
            &&& socket.retransmits(times[0]) == Some(packet)
            &&& first.retransmits(times[1]) == Some(packet)
            &&& second.retransmits(times[2]) == Some(packet)
            &&& third.retransmits(times[3]) == Some(packet)
            &&& fourth.retransmits(times[4]) is None
            &&& fourth.after_timer(times[4]).retransmission_queue.len() == 0
        }),
{
    let first = lemma_lone_segment(socket, times[0]);
    let second = lemma_lone_segment(first, times[1]);
    let third = lemma_lone_segment(second, times[2]);
    let fourth = lemma_lone_segment(third, times[3]);
    timer_drops_what_is_given_up(fourth, times[4]);
}

/// One timer pass over a lone segment that is due.
proof fn lemma_lone_segment(socket: SocketView, now: u128) -> (next: SocketView)
    requires
        socket.retransmission_queue.len() == 1,
        packet::seq_of(socket.retransmission_queue[0].packet) >= socket.send_param.unacked_seq,
        socket.retransmission_queue[0].transmission_count < 5,
        now - socket.retransmission_queue[0].latest_transmission_time >= 3_000_000_000,
    ensures
        next == socket.after_timer(now),
        socket.retransmits(now) == Some(socket.retransmission_queue[0].packet),
        next.send_param == socket.send_param,
        next.retransmission_queue == seq![
            EntryView {
                transmission_count: (socket.retransmission_queue[0].transmission_count + 1) as u8,
                ..socket.retransmission_queue[0]
            },
        ],
{
    timer_sends_what_is_due(socket, now, 0);
    let next = socket.after_timer(now);
    assert(next.retransmission_queue =~= seq![
        EntryView {
            transmission_count: (socket.retransmission_queue[0].transmission_count + 1) as u8,
            ..socket.retransmission_queue[0]
        },
    ]);
    next
}

/// A segment that goes out is kept at the end of the queue, with the time and
/// one transmission counted, unless it is a header with ACK alone. Nothing else
/// of the socket is changed.
pub proof fn sent_segment_is_kept(socket: SocketView, packet: Seq<u8>, now: u128)
    ensures
        socket.after_sending(packet, now) == if packet.len() == 20 && packet::flag_of(packet)
            == 0x10 {
            socket
        } else {
            SocketView {
                retransmission_queue: socket.retransmission_queue.push(
                    EntryView { packet, latest_transmission_time: now, transmission_count: 1 },
                ),
                ..socket
            }
        },
{
}

/// The part of a buffer that goes out next is a segment of the connection: it
/// carries the connection's ports and numbers, ACK alone, and as many bytes from
/// the cursor on as are left, 1460 at most.
#[verifier::spinoff_prover]
#[verifier::rlimit(40)]
pub proof fn chunk_is_a_segment_of_the_connection(
    view: TcpView,
    id: SocketID,
    buffer: Seq<u8>,
    cursor: int,
)
    requires
        view.sockets.contains_key(id),
        0 <= cursor < buffer.len(),
    ensures
        ({
            let socket = view.sockets[id];
            let chunk = view.chunk_at(id, buffer, cursor);
            let left = buffer.len() - cursor;
            &&& chunk.socket_id == id
            &&& chunk.size == if left < 1460 { left } else { 1460 }
            &&& chunk.packet.len() == 20 + chunk.size
            &&& packet::src_of(chunk.packet) == socket.local_port
            &&& packet::dest_of(chunk.packet) == socket.remote_port
            &&& packet::seq_of(chunk.packet) == socket.send_param.next
            &&& packet::ack_of(chunk.packet) == socket.recv_param.next
            &&& packet::flag_of(chunk.packet) == 0x10
            &&& packet::window_of(chunk.packet) == socket.recv_param.window
            &&& packet::checksum_ok(chunk.packet, socket.remote_addr, socket.local_addr)
            &&& forall|i: int|
                0 <= i < chunk.size ==> #[trigger] chunk.packet[20 + i] == buffer[cursor + i]
        }),
{
    let socket = view.sockets[id];
    let chunk = view.chunk_at(id, buffer, cursor);
    let part = buffer.subrange(cursor, cursor + chunk.size);
    laws::sent_segment_reads_back(
        socket,
        socket.send_param.next,
        socket.recv_param.next,
        tcpflags::ACK,
        part,
    );
    assert forall|i: int| 0 <= i < chunk.size implies #[trigger] chunk.packet[20 + i]
        == buffer[cursor + i] by {
        assert(chunk.packet.skip(20)[i] == part[i]);
    }
}

/// Every segment of a buffer has the connection's ports and offers its window,
/// and a stack at the other end that holds the mirrored connection hands it to
/// that connection.
#[verifier::spinoff_prover]
#[verifier::rlimit(40)]
pub proof fn chunks_reach_the_peer(
    view: TcpView,
    id: SocketID,
    buffer: Seq<u8>,
    cursor: int,
    clock: spec_fn(int) -> u128,
    i: int,
    peer: TcpView,
)
    requires
        view.sockets.contains_key(id),
        view.sockets[id].id() == id,
        0 <= cursor <= buffer.len(),
        0 <= i < laws::chunks(view, id, buffer, cursor, clock).len(),
        peer.sockets.contains_key(SocketID(id.1, id.0, id.3, id.2)),
    ensures
        ({
            let chunk = laws::chunks(view, id, buffer, cursor, clock)[i];
            &&& chunk.socket_id == id
            &&& packet::src_of(chunk.packet) == id.2
            &&& packet::dest_of(chunk.packet) == id.3
            &&& packet::window_of(chunk.packet) == view.sockets[id].recv_param.window
            &&& peer.delivered_to(id.1, Some(id.0), chunk.packet) == Some(
                SocketID(id.1, id.0, id.3, id.2),
            )
        }),
    decreases buffer.len() - cursor,
{
    chunk_is_a_segment_of_the_connection(view, id, buffer, cursor);
    let chunk = view.chunk_at(id, buffer, cursor);
    let next = view.after_chunk(chunk, clock(cursor));
    segment_finds_its_socket(peer, id.1, Some(id.0), chunk.packet);
    if i > 0 {
        let rest = laws::chunks(next, id, buffer, cursor + chunk.size, clock);
        assert(laws::chunks(view, id, buffer, cursor, clock)[i] == rest[i - 1]);
        chunks_reach_the_peer(next, id, buffer, cursor + chunk.size, clock, i - 1, peer);
    }
}

/// A chunk that goes out moves the next number of its socket on by its size, is
/// kept as any segment is, and changes nothing else. It runs over if and only if
/// that number does not fit into 32 bits.
pub proof fn chunk_moves_the_socket_on(view: TcpView, chunk: ChunkView, now: u128)
    requires
        view.sockets.contains_key(chunk.socket_id),
    ensures
        view.chunk_overflows(chunk) <==> view.sockets[chunk.socket_id].send_param.next + chunk.size
            >= 0x1_0000_0000,
        ({
            let socket = view.sockets[chunk.socket_id];
            let sent = socket.after_sending(chunk.packet, now);
            let stepped = view.after_chunk(chunk, now);
            &&& stepped.event == view.event
            &&& !view.chunk_overflows(chunk) ==> stepped.sockets == view.sockets.insert(
                chunk.socket_id,
                SocketView {
                    send_param: SendParam {
                        unacked_seq: socket.send_param.unacked_seq,
                        next: (socket.send_param.next + chunk.size) as u32,
                        window: socket.send_param.window,
                        initial_seq: socket.send_param.initial_seq,
                    },
                    ..sent
                },
            )
        }),
{
}

/// Once a whole buffer is out on a connection of which nothing else is kept, the
/// acknowledgement of all of it frees every segment, and that is published.
#[verifier::spinoff_prover]
#[verifier::rlimit(40)]
pub proof fn ack_of_a_buffer_frees_it(
    view: TcpView,
    id: SocketID,
    buffer: Seq<u8>,
    clock: spec_fn(int) -> u128,
    local_addr: Ipv4Addr,
    remote_addr: Option<Ipv4Addr>,
    payload: Seq<u8>,
)
    requires
        view.sockets.contains_key(id),
        view.sockets[id].status == TcpStatus::Estableished,
        view.sockets[id].retransmission_queue.len() == 0,
        view.sockets[id].send_param.unacked_seq <= view.sockets[id].send_param.next,
        view.sockets[id].send_param.next + buffer.len() <= u32::MAX,
        buffer.len() > 0,
        laws::after_chunks(view, id, buffer, 0, clock).delivered_to(
            local_addr,
            remote_addr,
            payload,
        ) == Some(id),
        packet::has_flag(payload, tcpflags::ACK),
        packet::ack_of(payload) == view.sockets[id].send_param.next + buffer.len(),
    ensures
        ({
            let sent = laws::after_chunks(view, id, buffer, 0, clock);
            let stepped = sent.after_receiving(local_addr, remote_addr, payload);
            let socket = stepped.sockets[id];
            &&& sent.sockets[id].retransmission_queue.len() > 0
            &&& socket.retransmission_queue.len() == 0
            &&& socket.send_param.unacked_seq == socket.send_param.next
            &&& socket.send_param.next == view.sockets[id].send_param.next + buffer.len()
            &&& stepped.event == Some(TCPEvent { socket_id: id, kind: TCPEventKind::Acked })
        }),
{
    let all = laws::chunks(view, id, buffer, 0, clock);
    let sent = laws::after_chunks(view, id, buffer, 0, clock);
    laws::chunks_are_kept(view, id, buffer, 0, clock);
    any_new_ack_is_taken(sent, local_addr, remote_addr, payload, 1, id);
    let queue = sent.sockets[id].retransmission_queue;
    assert(queue =~= laws::entries(all, 0, clock));
    let left = sent.after_receiving(local_addr, remote_addr, payload).sockets[id].retransmission_queue;
    assert(all.len() > 0);
    if left.len() > 0 {
        let i = queue.len() - left.len();
        assert(left[0] == queue[i]);
        laws::chunks_number_the_stream(view, id, buffer, 0, clock, i);
        assert(queue[i].packet == all[i].packet);
    }
}

/// Listening puts one socket into the table, which listens on the address and
/// the port for any peer, and changes nothing else.
pub proof fn listening_adds_a_listener(view: TcpView, local_addr: Ipv4Addr, local_port: u16)
    ensures
        ({
            let stepped = view.after_listening(local_addr, local_port);
            &&& stepped.event == view.event
            &&& tcp::listening_id(local_addr, local_port) == SocketID(
                local_addr,
                Ipv4Addr { bits: 0 },
                local_port,
                0,
            )
            &&& stepped.sockets == view.sockets.insert(
                SocketID(local_addr, Ipv4Addr { bits: 0 }, local_port, 0),
                SocketView {
                    local_addr,
                    remote_addr: Ipv4Addr { bits: 0 },
                    local_port,
                    remote_port: 0,
                    send_param: SendParam { unacked_seq: 0, next: 0, window: 4380, initial_seq: 0 },
                    recv_param: RecvParam { next: 0, window: 4380, initial_seq: 0 },
                    status: TcpStatus::Listen,
                    retransmission_queue: Seq::empty(),
                    connected_connection_queue: Seq::empty(),
                    listening_socket: None,
                },
            )
        }),
{
}

/// Accepting takes the first connection that waits at a socket, leaves the
/// others in order, and changes nothing else. It succeeds if and only if the
/// socket exists and a connection waits there.
pub proof fn accepting_takes_the_first(view: TcpView, id: SocketID)
    ensures
        view.can_accept(id) <==> view.sockets.contains_key(id)
            && view.sockets[id].connected_connection_queue.len() >= 1,
        view.waiting(id) == view.sockets[id].connected_connection_queue,
        view.can_accept(id) ==> {
            let queue = view.sockets[id].connected_connection_queue;
            let stepped = view.after_accepting(id);
            let left = stepped.sockets[id].connected_connection_queue;
            &&& queue == seq![view.waiting(id)[0]] + left
            &&& stepped.event == view.event
            &&& stepped.sockets == view.sockets.insert(
                id,
                SocketView { connected_connection_queue: left, ..view.sockets[id] },
            )
        },
{
    if view.can_accept(id) {
        let queue = view.sockets[id].connected_connection_queue;
        assert(queue =~= seq![queue[0]] + queue.drop_first());
    }
}

/// A socket is named by its own addresses and ports, the local ones first.
pub proof fn socket_is_named_by_its_ends(socket: SocketView)
    ensures
        socket.id().0 == socket.local_addr,
        socket.id().1 == socket.remote_addr,
        socket.id().2 == socket.local_port,
        socket.id().3 == socket.remote_port,
{
}

/// A new socket knows the two ends that it was made for and its status, offers a
/// window of 4380 bytes, and has sent, received and queued nothing.
pub proof fn new_socket_is_blank(
    local_addr: Ipv4Addr,
    remote_addr: Ipv4Addr,
    local_port: u16,
    remote_port: u16,
    status: TcpStatus,
)
    ensures
        SocketView::fresh(local_addr, remote_addr, local_port, remote_port, status) == (SocketView {
            local_addr,
            remote_addr,
            local_port,
            remote_port,
            send_param: SendParam { unacked_seq: 0, next: 0, window: 4380, initial_seq: 0 },
            recv_param: RecvParam { next: 0, window: 4380, initial_seq: 0 },
            status,
            retransmission_queue: Seq::empty(),
            connected_connection_queue: Seq::empty(),
            listening_socket: None,
        }),
{
}

/// A socket looks at the fields of a segment alone: two segments with the same
/// ports, numbers, control bits and window do the same to it, whatever options
/// and payload they carry.
pub proof fn only_the_fields_count(
    socket: SocketView,
    one: Seq<u8>,
    other: Seq<u8>,
    remote_addr: Ipv4Addr,
    initial_seq: u32,
)
    requires
        packet::src_of(one) == packet::src_of(other),
        packet::dest_of(one) == packet::dest_of(other),
        packet::seq_of(one) == packet::seq_of(other),
        packet::ack_of(one) == packet::ack_of(other),
        packet::flag_of(one) == packet::flag_of(other),
        packet::window_of(one) == packet::window_of(other),
    ensures
        TcpView::asks_for_connection(one) == TcpView::asks_for_connection(other),
        socket.accepting(one, remote_addr, initial_seq) == socket.accepting(
            other,
            remote_addr,
            initial_seq,
        ),
        socket.synsent_accepts(one) == socket.synsent_accepts(other),
        socket.after_synsent(one) == socket.after_synsent(other),
        socket.synrcvd_accepts(one) == socket.synrcvd_accepts(other),
        socket.after_synrcvd(one) == socket.after_synrcvd(other),
        socket.advances(one) == socket.advances(other),
        socket.after_ack(one) == socket.after_ack(other),
        socket.ack_frees(one) == socket.ack_frees(other),
{
}

/// Opening puts the socket into the table under its own name, with its first
/// segment kept, and changes nothing else.
pub proof fn opening_adds_the_socket(view: TcpView, opening: OpeningView, now: u128)
    ensures
        view.after_opening(opening, now).event == view.event,
        view.after_opening(opening, now).sockets == view.sockets.insert(
            opening.socket.id(),
            opening.socket.after_sending(opening.packet, now),
        ),
{
}

/// An acknowledgement that completes a connection publishes that on its socket
/// once it is out; any other changes nothing.
pub proof fn acknowledging_publishes_completion(view: TcpView, ack: tcp::AcknowledgementView)
    ensures
        view.after_acknowledging(ack).sockets == view.sockets,
        view.after_acknowledging(ack).event == if ack.completed {
            Some(TCPEvent { socket_id: ack.socket_id, kind: TCPEventKind::ConnectionCompleted })
        } else {
            view.event
        },
{
}

/// An active open starts with a socket in `SynSent` that has the drawn number
/// unacknowledged, and with a SYN of that number from its own port to the peer's.
/// Once it is out the SYN is kept.
#[verifier::spinoff_prover]
#[verifier::rlimit(40)]
pub proof fn active_open_starts_with_syn(
    local_addr: Ipv4Addr,
    remote_addr: Ipv4Addr,
    local_port: u16,
    remote_port: u16,
    initial_seq: u32,
    now: u128,
)
    requires
        initial_seq < u32::MAX,
    ensures
        ({
            let opening = OpeningView::connect(
                local_addr,
                remote_addr,
                local_port,
                remote_port,
                initial_seq,
            );
            let syn = opening.packet;
            &&& opening.socket == SocketView {
                local_addr,
                remote_addr,
                local_port,
                remote_port,
                send_param: SendParam {
                    unacked_seq: initial_seq,
                    next: (initial_seq + 1) as u32,
                    window: 4380,
                    initial_seq,
                },
                recv_param: RecvParam { next: 0, window: 4380, initial_seq: 0 },
                status: TcpStatus::SynSent,
                retransmission_queue: Seq::empty(),
                connected_connection_queue: Seq::empty(),
                listening_socket: None,
            }
            &&& syn.len() == 20
            &&& packet::src_of(syn) == local_port
            &&& packet::dest_of(syn) == remote_port
            &&& packet::seq_of(syn) == initial_seq
            &&& packet::ack_of(syn) == 0
            &&& packet::flag_of(syn) == 0x02
            &&& packet::window_of(syn) == 4380
            &&& packet::checksum_ok(syn, remote_addr, local_addr)
            &&& opening.socket.after_sending(syn, now).retransmission_queue == seq![
                EntryView { packet: syn, latest_transmission_time: now, transmission_count: 1 },
            ]
        }),
{
    let socket = SocketView::connecting(
        local_addr,
        remote_addr,
        local_port,
        remote_port,
        initial_seq,
    );
    laws::sent_segment_reads_back(socket, initial_seq, 0, tcpflags::SYN, Seq::empty());
    sent_segment_is_kept(socket, socket.syn(), now);
    assert(socket.after_sending(socket.syn(), now).retransmission_queue =~= seq![
        EntryView { packet: socket.syn(), latest_transmission_time: now, transmission_count: 1 },
    ]);
}

/// A port is in use exactly while a socket of the table has it as local port.
pub proof fn port_is_used_by_a_socket(view: TcpView, port: u16)
    ensures
        forall|id: SocketID| #[trigger] view.sockets.contains_key(id) ==> view.port_used(id.2),
        (forall|id: SocketID| #[trigger] view.sockets.contains_key(id) ==> id.2 != port)
            ==> !view.port_used(port),
{
}

/// What looking for a port returns: the last number drawn, which no socket uses,
/// after at most twenty thousand draws from 40000 up to 60000 of which all others
/// are used; or an error after exactly that many, all used.
pub proof fn port_is_the_first_unused(
    view: TcpView,
    draws: Seq<Draw>,
    result: Result<u16, TcpError>,
)
    ensures
        view.selects_port(draws, result) <==> {
            &&& 1 <= draws.len() <= 20000
            &&& forall|i: int|
                0 <= i < draws.len() ==> {
                    &&& (#[trigger] draws[i]).start == 40000
                    &&& draws[i].end == 60000
                    &&& 40000 <= draws[i].number < 60000
                }
            &&& forall|i: int|
                0 <= i < draws.len() - 1 ==> view.port_used((#[trigger] draws[i]).number as u16)
            &&& {
                let last = draws[draws.len() - 1].number as u16;
                if view.port_used(last) {
                    draws.len() == 20000 && result == Err::<u16, TcpError>(
                        TcpError::NoAvailablePort,
                    )
                } else {
                    result == Ok::<u16, TcpError>(last)
                }
            }
        },
{
    if view.selects_port(draws, result) {
        assert(draws[draws.len() - 1].is_from(40000, 60000));
    } else if draws.len() >= 1 {
        assert(draws[draws.len() - 1] == draws.last());
    }
}

/// What an active open returns: if a port is found, the next number drawn, from
/// one up to two to the power of thirty-one, is that of the SYN; if none is
/// found, the error of the search, and nothing more is drawn.
pub proof fn active_open_uses_what_is_drawn(
    view: TcpView,
    draws: Seq<Draw>,
    local_addr: Ipv4Addr,
    addr: Ipv4Addr,
    port: u16,
    result: Result<OpeningView, TcpError>,
)
    requires
        view.connects(draws, local_addr, addr, port, result),
    ensures
        match result {
            Ok(opening) => {
                let drawn = draws[draws.len() - 1];
                let local_port = draws[draws.len() - 2].number as u16;
                &&& draws.len() >= 2
                &&& drawn.start == 1
                &&& drawn.end == 0x8000_0000
                &&& 1 <= drawn.number < 0x8000_0000
                &&& view.selects_port(draws.take(draws.len() - 1), Ok(local_port))
                &&& !view.port_used(local_port)
                &&& opening == OpeningView::connect(
                    local_addr,
                    addr,
                    local_port,
                    port,
                    drawn.number,
                )
            },
            Err(error) => {
                &&& error == TcpError::NoAvailablePort
                &&& draws.len() == 20000
                &&& forall|i: int|
                    0 <= i < draws.len() ==> view.port_used((#[trigger] draws[i]).number as u16)
            },
        },
{
    if result is Ok {
        let before = draws.drop_last();
        assert(before =~= draws.take(draws.len() - 1));
        port_is_the_first_unused(view, before, Ok(result->Ok_0.socket.local_port));
    }
}

} // verus!
