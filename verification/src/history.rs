//! What holds over any number of operations: in which order connections are
//! accepted.

use crate::addr::{Ipv4Addr, UNDETERMINED_IP_ADDR};
use crate::event::TCPEvent;
use crate::laws;
use crate::packet;
use crate::random::Draw;
use crate::socket::{SocketID, SocketView, TcpStatus};
use crate::tcp;
use crate::tcp::{
    AcknowledgementView, ChunkView, OpeningView, ReplyView, TcpView, UNDETERMINED_PORT,
};
use vstd::prelude::*;

verus! {

/// One operation on a stack that changes its state.
pub enum Step {
    Listen { local_addr: Ipv4Addr, local_port: u16 },
    Open { opening: OpeningView, now: u128 },
    Receive { local_addr: Ipv4Addr, remote_addr: Option<Ipv4Addr>, payload: Seq<u8> },
    Acknowledge { ack: AcknowledgementView },
    Send { chunk: ChunkView, now: u128 },
    Timer { now: u128 },
    Accept { socket_id: SocketID },
    Event { event: Option<TCPEvent> },
}

impl Step {
    /// Whether the operation may be called in a state.
    pub open spec fn possible(self, view: TcpView) -> bool {
        match self {
            Step::Open { opening, .. } => view.can_open(opening),
            Step::Receive { local_addr, remote_addr, payload } => !view.seq_overflows(
                local_addr,
                remote_addr,
                payload,
            ),
            Step::Send { chunk, .. } => view.sockets.contains_key(chunk.socket_id)
                && !view.chunk_overflows(chunk),
            Step::Timer { now } => !view.clock_behind(now),
            _ => true,
        }
    }

    /// The state that the operation leads to.
    pub open spec fn after(self, view: TcpView) -> TcpView {
        match self {
            Step::Listen { local_addr, local_port } => view.after_listening(
                local_addr,
                local_port,
            ),
            Step::Open { opening, now } => view.after_opening(opening, now),
            Step::Receive { local_addr, remote_addr, payload } => view.after_receiving(
                local_addr,
                remote_addr,
                payload,
            ),
            Step::Acknowledge { ack } => view.after_acknowledging(ack),
            Step::Send { chunk, now } => view.after_chunk(chunk, now),
            Step::Timer { now } => view.after_timer(now),
            Step::Accept { socket_id } => if view.can_accept(socket_id) {
                view.after_accepting(socket_id)
            } else {
                view
            },
            Step::Event { event } => TcpView { event, ..view },
        }
    }

    /// Whether the operation puts a new socket under a name.
    pub open spec fn replaces(self, id: SocketID) -> bool {
        match self {
            Step::Listen { local_addr, local_port } => tcp::listening_id(local_addr, local_port)
                == id,
            Step::Open { opening, .. } => opening.socket.id() == id,
            _ => false,
        }
    }

    /// Whether a socket that the operation opens has a name that is not in the
    /// table.
    pub open spec fn opens_new(self, view: TcpView) -> bool {
        self matches Step::Open { opening, .. } ==> !view.sockets.contains_key(opening.socket.id())
    }

    /// Whether a socket that the operation opens is what an active open or the
    /// answer to a SYN starts with in this state. Left out is the answer to a
    /// peer at port zero of `0.0.0.0`, whose connection has the listening
    /// socket's name.
    pub open spec fn arises(self, view: TcpView) -> bool {
        self matches Step::Open { opening, .. } ==> opened_actively(view, opening)
            || opened_for_syn(view, opening)
    }

    /// The connection of a listening socket that the operation completes.
    pub open spec fn completes(self, view: TcpView, listening: SocketID) -> Seq<SocketID> {
        match self {
            Step::Receive { local_addr, remote_addr, payload } => match view.delivered_to(
                local_addr,
                remote_addr,
                payload,
            ) {
                Some(id) => if view.sockets[id].status == TcpStatus::SynRcvd
                    && view.sockets[id].synrcvd_accepts(payload)
                    && view.sockets[id].listening_socket == Some(listening) {
                    seq![id]
                } else {
                    Seq::empty()
                },
                None => Seq::empty(),
            },
            _ => Seq::empty(),
        }
    }

    /// The connection of a listening socket that the operation hands out.
    pub open spec fn hands_out(self, view: TcpView, listening: SocketID) -> Seq<SocketID> {
        match self {
            Step::Accept { socket_id } => if socket_id == listening && view.can_accept(
                listening,
            ) {
                seq![view.waiting(listening)[0]]
            } else {
                Seq::empty()
            },
            _ => Seq::empty(),
        }
    }
}

/// Whether a socket is what an active open starts with: its port is not in use.
pub open spec fn opened_actively(view: TcpView, opening: OpeningView) -> bool {
    exists|
        local_addr: Ipv4Addr,
        remote_addr: Ipv4Addr,
        local_port: u16,
        remote_port: u16,
        initial_seq: u32,
    |
        !view.port_used(local_port) && opening == #[trigger] OpeningView::connect(
            local_addr,
            remote_addr,
            local_port,
            remote_port,
            initial_seq,
        )
}

/// Whether a socket is what the answer to a SYN starts with, the peer not being
/// port zero of `0.0.0.0`.
pub open spec fn opened_for_syn(view: TcpView, opening: OpeningView) -> bool {
    exists|local_addr: Ipv4Addr, remote_addr: Ipv4Addr, payload: Seq<u8>, initial_seq: u32|
        {
            &&& #[trigger] view.reply(local_addr, Some(remote_addr), payload, initial_seq) == Some(
                ReplyView::Open(opening),
            )
            &&& remote_addr.bits != UNDETERMINED_IP_ADDR || packet::src_of(payload)
                != UNDETERMINED_PORT
        }
}

/// The state after a number of operations.
pub open spec fn after_steps(view: TcpView, steps: Seq<Step>) -> TcpView
    decreases steps.len(),
{
    if steps.len() == 0 {
        view
    } else {
        steps.last().after(after_steps(view, steps.drop_last()))
    }
}

/// The connections of a listening socket that the operations complete, in order.
pub open spec fn completed(view: TcpView, steps: Seq<Step>, listening: SocketID) -> Seq<SocketID>
    decreases steps.len(),
{
    if steps.len() == 0 {
        Seq::empty()
    } else {
        completed(view, steps.drop_last(), listening) + steps.last().completes(
            after_steps(view, steps.drop_last()),
            listening,
        )
    }
}

/// The connections of a listening socket that the operations hand out, in order.
pub open spec fn handed_out(view: TcpView, steps: Seq<Step>, listening: SocketID) -> Seq<SocketID>
    decreases steps.len(),
{
    if steps.len() == 0 {
        Seq::empty()
    } else {
        handed_out(view, steps.drop_last(), listening) + steps.last().hands_out(
            after_steps(view, steps.drop_last()),
            listening,
        )
    }
}

/// Whether each operation may be called where it is, and none puts another
/// socket under the listening socket's name.
pub open spec fn runs(view: TcpView, steps: Seq<Step>, listening: SocketID) -> bool
    decreases steps.len(),
{
    steps.len() == 0 || {
        &&& runs(view, steps.drop_last(), listening)
        &&& steps.last().possible(after_steps(view, steps.drop_last()))
        &&& !steps.last().replaces(listening)
    }
}

/// Whether no operation puts another socket under the name of a connection that
/// was completed before.
pub open spec fn names_last(view: TcpView, steps: Seq<Step>, listening: SocketID) -> bool
    decreases steps.len(),
{
    steps.len() == 0 || {
        &&& names_last(view, steps.drop_last(), listening)
        &&& forall|i: int|
            0 <= i < completed(view, steps.drop_last(), listening).len()
                ==> !steps.last().replaces(
                #[trigger] completed(view, steps.drop_last(), listening)[i],
            )
    }
}

/// Whether every socket that an operation opens has a name that is not in the
/// table.
pub open spec fn all_open_new(view: TcpView, steps: Seq<Step>) -> bool
    decreases steps.len(),
{
    steps.len() == 0 || {
        &&& all_open_new(view, steps.drop_last())
        &&& steps.last().opens_new(after_steps(view, steps.drop_last()))
    }
}

/// Whether each operation may be called where it is, every socket is opened as
/// [`Step::arises`] says, and nobody listens again under the same name.
pub open spec fn works(view: TcpView, steps: Seq<Step>, listening: SocketID) -> bool
    decreases steps.len(),
{
    steps.len() == 0 || {
        &&& works(view, steps.drop_last(), listening)
        &&& steps.last().possible(after_steps(view, steps.drop_last()))
        &&& steps.last().arises(after_steps(view, steps.drop_last()))
        &&& steps.last() is Listen ==> !steps.last().replaces(listening)
    }
}

/// The timer and acknowledgements keep a socket valid.
proof fn lemma_socket_keeps_wf(socket: SocketView, payload: Seq<u8>, now: u128)
    requires
        socket.wf(),
    ensures
        socket.after_timer(now).wf(),
        socket.advances(payload) ==> socket.after_ack(payload).wf(),
{
    let queue = socket.retransmission_queue;
    let k = laws::lemma_drop_stale(queue, socket.send_param.unacked_seq, now);
    let left = socket.after_timer(now).retransmission_queue;
    assert forall|i: int| 0 <= i < left.len() implies 1 <= (#[trigger] left[i]).transmission_count
        <= crate::socket::MAX_TRANSMITTION by {
        if socket.retransmits(now) is Some {
            if i < left.len() - 1 {
                assert(left[i] == queue[k + 1 + i]);
            } else {
                assert(left[i] == queue[k].sent_again());
            }
        } else {
            assert(left[i] == queue[k + i]);
        }
    }
    if socket.advances(payload) {
        let j = laws::lemma_drop_acked(queue, packet::ack_of(payload));
        let kept = socket.after_ack(payload).retransmission_queue;
        assert forall|i: int| 0 <= i < kept.len() implies 1 <= (
        #[trigger] kept[i]).transmission_count <= crate::socket::MAX_TRANSMITTION by {
            assert(kept[i] == queue[j + i]);
        }
    }
}

/// Every operation keeps the state valid and every socket in the table.
pub proof fn step_keeps_wf(view: TcpView, step: Step)
    requires
        view.wf(),
        step.possible(view),
    ensures
        step.after(view).wf(),
        view.sockets.dom().subset_of(step.after(view).sockets.dom()),
{
    let stepped = step.after(view);
    assert forall|id: SocketID| #[trigger] stepped.sockets.contains_key(id) implies
        stepped.sockets[id].id() == id && stepped.socket_wf(stepped.sockets[id]) by {
        if view.sockets.contains_key(id) {
            assert(view.socket_wf(view.sockets[id]));
            assert(view.sockets[id].id() == id);
        }
        match step {
            Step::Receive { local_addr, remote_addr, payload } => {
                if view.sockets.contains_key(id) {
                    lemma_socket_keeps_wf(view.sockets[id], payload, 0);
                }
                if let Some(to) = view.delivered_to(local_addr, remote_addr, payload) {
                    assert(view.sockets.contains_key(to));
                    assert(view.socket_wf(view.sockets[to]));
                    assert(view.sockets[to].id() == to);
                }
            },
            Step::Timer { now } => {
                lemma_socket_keeps_wf(view.sockets[id], Seq::empty(), now);
            },
            Step::Accept { socket_id } => {
                if id == socket_id && view.can_accept(id) {
                    let queue = view.waiting(id);
                    assert forall|i: int| 0 <= i < queue.len() - 1 implies queue[i + 1]
                        == #[trigger] queue.drop_first()[i] by {}
                }
            },
            _ => {},
        }
    }
}

/// One operation: what it hands out, followed by what then waits, is what
/// waited before, followed by what it completes.
pub proof fn step_serves_in_order(view: TcpView, step: Step, listening: SocketID)
    requires
        view.wf(),
        step.possible(view),
        view.sockets.contains_key(listening),
        !step.replaces(listening),
    ensures
        step.hands_out(view, listening) + step.after(view).waiting(listening) == view.waiting(
            listening,
        ) + step.completes(view, listening),
{
    let queue = view.waiting(listening);
    let left = step.after(view).waiting(listening);
    assert(queue + Seq::<SocketID>::empty() =~= queue);
    assert(Seq::<SocketID>::empty() + left =~= left);
    match step {
        Step::Receive { local_addr, remote_addr, payload } => {
            if let Some(to) = view.delivered_to(local_addr, remote_addr, payload) {
                assert(view.sockets.contains_key(to));
                assert(view.socket_wf(view.sockets[to]));
                assert(queue.push(to) =~= queue + seq![to]);
            }
        },
        Step::Accept { socket_id } => {
            if socket_id == listening && view.can_accept(listening) {
                assert(queue =~= seq![queue[0]] + queue.drop_first());
            }
        },
        _ => {},
    }
}

/// The two ends of the segment that an operation takes in, the local one first.
pub open spec fn ends_of(step: Step) -> SocketID {
    match step {
        Step::Receive { local_addr, remote_addr, payload } => SocketID(
            local_addr,
            remote_addr->0,
            packet::dest_of(payload),
            packet::src_of(payload),
        ),
        _ => arbitrary(),
    }
}

/// The ends of the segments that complete connections of a listening socket, in
/// order.
pub open spec fn completing_ends(
    view: TcpView,
    steps: Seq<Step>,
    listening: SocketID,
) -> Seq<SocketID>
    decreases steps.len(),
{
    if steps.len() == 0 {
        Seq::empty()
    } else {
        let before = completing_ends(view, steps.drop_last(), listening);
        if steps.last().completes(after_steps(view, steps.drop_last()), listening).len() > 0 {
            before.push(ends_of(steps.last()))
        } else {
            before
        }
    }
}

/// A status changes only by receiving, or where a new socket takes the name.
proof fn lemma_step_status(view: TcpView, step: Step, id: SocketID)
    requires
        view.wf(),
        step.possible(view),
        view.sockets.contains_key(id),
        !step.replaces(id),
    ensures
        view.sockets[id].status == TcpStatus::Estableished || view.sockets[id].status
            == TcpStatus::Listen ==> step.after(view).sockets[id].status
            == view.sockets[id].status,
{
    match step {
        Step::Receive { local_addr, remote_addr, payload } => {
            laws::receiving_changes_status_so(view, local_addr, remote_addr, payload, id);
        },
        _ => {},
    }
}

/// A connection that an operation completes is named by the two ends of the
/// segment, shares the listening socket's address and port, was not established
/// before and is so after.
pub proof fn completion_names_the_peer(view: TcpView, step: Step, listening: SocketID)
    requires
        view.wf(),
        view.sockets.contains_key(listening),
        view.sockets[listening].status == TcpStatus::Listen,
        step.completes(view, listening).len() > 0,
    ensures
        ({
            let id = step.completes(view, listening)[0];
            &&& step.completes(view, listening) == seq![id]
            &&& id == ends_of(step)
            &&& id.0 == listening.0
            &&& id.2 == listening.2
            &&& view.sockets.contains_key(id)
            &&& view.sockets[id].status == TcpStatus::SynRcvd
            &&& step.after(view).sockets[id].status == TcpStatus::Estableished
        }),
{
    let id = step.completes(view, listening)[0];
    assert(view.sockets[listening].id() == listening);
    assert(view.socket_wf(view.sockets[listening]));
    assert(view.sockets[id].id() == id);
    assert(view.socket_wf(view.sockets[id]));
}

/// Over any operations: the state stays valid, the listening socket goes on
/// listening, and what was handed out, followed by what waits, is what waited
/// at first, followed by what was completed, in order.
pub proof fn accepting_keeps_order(view: TcpView, steps: Seq<Step>, listening: SocketID)
    requires
        view.wf(),
        view.sockets.contains_key(listening),
        runs(view, steps, listening),
    ensures
        after_steps(view, steps).wf(),
        after_steps(view, steps).sockets.contains_key(listening),
        view.sockets[listening].status == TcpStatus::Listen ==> after_steps(
            view,
            steps,
        ).sockets[listening].status == TcpStatus::Listen,
        handed_out(view, steps, listening) + after_steps(view, steps).waiting(listening)
            == view.waiting(listening) + completed(view, steps, listening),
    decreases steps.len(),
{
    let waited = view.waiting(listening);
    if steps.len() == 0 {
        assert(Seq::<SocketID>::empty() + waited =~= waited + Seq::<SocketID>::empty());
    } else {
        let (init, step) = (steps.drop_last(), steps.last());
        accepting_keeps_order(view, init, listening);
        let at = after_steps(view, init);
        step_keeps_wf(at, step);
        step_serves_in_order(at, step, listening);
        lemma_step_status(at, step, listening);
        let handed = handed_out(view, init, listening);
        let done = completed(view, init, listening);
        let (out, more) = (step.hands_out(at, listening), step.completes(at, listening));
        let left = step.after(at).waiting(listening);
        assert((handed + out) + left =~= handed + (out + left));
        assert(handed + (at.waiting(listening) + more) =~= (handed + at.waiting(listening)) + more);
        assert((waited + done) + more =~= waited + (done + more));
    }
}

/// Over any operations, a connection of a listening socket is completed once,
/// under the name of the two ends that completed it, with the listening
/// socket's address and port, and it stays established. Left out are operations
/// that put another socket under the name of such a connection.
pub proof fn connections_complete_once(view: TcpView, steps: Seq<Step>, listening: SocketID)
    requires
        view.wf(),
        view.sockets.contains_key(listening),
        view.sockets[listening].status == TcpStatus::Listen,
        runs(view, steps, listening),
        names_last(view, steps, listening),
    ensures
        completed(view, steps, listening).no_duplicates(),
        completed(view, steps, listening) == completing_ends(view, steps, listening),
        forall|i: int|
            0 <= i < completed(view, steps, listening).len() ==> {
                let id = #[trigger] completed(view, steps, listening)[i];
                &&& id.0 == listening.0
                &&& id.2 == listening.2
                &&& after_steps(view, steps).sockets.contains_key(id)
                &&& after_steps(view, steps).sockets[id].status == TcpStatus::Estableished
            },
    decreases steps.len(),
{
    if steps.len() > 0 {
        let (init, step) = (steps.drop_last(), steps.last());
        connections_complete_once(view, init, listening);
        accepting_keeps_order(view, init, listening);
        let at = after_steps(view, init);
        step_keeps_wf(at, step);
        let done = completed(view, init, listening);
        let more = step.completes(at, listening);
        let all = completed(view, steps, listening);
        assert(all == done + more);
        if more.len() > 0 {
            completion_names_the_peer(at, step, listening);
            assert(all =~= done.push(more[0]));
        } else {
            assert(all =~= done);
        }
        assert forall|i: int| 0 <= i < all.len() implies {
            let id = #[trigger] all[i];
            &&& id.0 == listening.0
            &&& id.2 == listening.2
            &&& step.after(at).sockets.contains_key(id)
            &&& step.after(at).sockets[id].status == TcpStatus::Estableished
        } by {
            if i < done.len() {
                assert(all[i] == done[i]);
                lemma_step_status(at, step, done[i]);
                assert(at.sockets.dom().contains(done[i]));
            } else {
                assert(at.sockets.dom().contains(all[i]));
            }
        }
    }
}

/// What an active open returns may be opened, and is opened as histories ask.
pub proof fn connecting_is_a_step(
    view: TcpView,
    draws: Seq<Draw>,
    local_addr: Ipv4Addr,
    addr: Ipv4Addr,
    port: u16,
    opening: OpeningView,
    now: u128,
)
    requires
        view.connects(draws, local_addr, addr, port, Ok(opening)),
    ensures
        (Step::Open { opening, now }).possible(view),
        (Step::Open { opening, now }).arises(view),
{
}

/// What a SYN is answered with may be opened, and is opened as histories ask.
pub proof fn answering_is_a_step(
    view: TcpView,
    local_addr: Ipv4Addr,
    remote_addr: Ipv4Addr,
    payload: Seq<u8>,
    initial_seq: u32,
    opening: OpeningView,
    now: u128,
)
    requires
        view.wf(),
        tcp::initial_seq_ok(initial_seq),
        !view.seq_overflows(local_addr, Some(remote_addr), payload),
        view.reply(local_addr, Some(remote_addr), payload, initial_seq) == Some(
            ReplyView::Open(opening),
        ),
        remote_addr.bits != UNDETERMINED_IP_ADDR || packet::src_of(payload) != UNDETERMINED_PORT,
    ensures
        view.after_receiving(local_addr, Some(remote_addr), payload) == view,
        (Step::Open { opening, now }).possible(view),
        (Step::Open { opening, now }).arises(view),
{
    let to = view.delivered_to(local_addr, Some(remote_addr), payload)->0;
    assert(view.sockets.contains_key(to));
    assert(view.socket_wf(view.sockets[to]));
    assert(view.sockets[to].id() == to);
}

/// What active opens and answers put into the table has a name that is not
/// there before.
pub proof fn opened_name_is_new(view: TcpView, step: Step)
    requires
        view.wf(),
        step.arises(view),
    ensures
        step.opens_new(view),
{
    if let Step::Open { opening, .. } = step {
        let id = opening.socket.id();
        if opened_actively(view, opening) {
            let (local_addr, remote_addr, local_port, remote_port, initial_seq) = choose|
                local_addr: Ipv4Addr,
                remote_addr: Ipv4Addr,
                local_port: u16,
                remote_port: u16,
                initial_seq: u32,
            |
                !view.port_used(local_port) && opening == #[trigger] OpeningView::connect(
                    local_addr,
                    remote_addr,
                    local_port,
                    remote_port,
                    initial_seq,
                );
            assert(id.2 == local_port);
            assert(view.sockets.contains_key(id) ==> view.port_used(id.2));
        } else {
            let (local_addr, remote_addr, payload, initial_seq) = choose|
                local_addr: Ipv4Addr,
                remote_addr: Ipv4Addr,
                payload: Seq<u8>,
                initial_seq: u32,
            |
                {
                    &&& #[trigger] view.reply(
                        local_addr,
                        Some(remote_addr),
                        payload,
                        initial_seq,
                    ) == Some(ReplyView::Open(opening))
                    &&& remote_addr.bits != UNDETERMINED_IP_ADDR || packet::src_of(payload)
                        != UNDETERMINED_PORT
                };
            laws::answered_name_is_absent(view, local_addr, remote_addr, payload, initial_seq);
        }
    }
}

/// Where every socket is opened under a name that is not in the table, none
/// takes the place of a connection that was completed before; nor does one that
/// begins to listen.
pub proof fn new_names_replace_nothing(view: TcpView, steps: Seq<Step>, listening: SocketID)
    requires
        view.wf(),
        view.sockets.contains_key(listening),
        view.sockets[listening].status == TcpStatus::Listen,
        runs(view, steps, listening),
        all_open_new(view, steps),
    ensures
        names_last(view, steps, listening),
    decreases steps.len(),
{
    if steps.len() > 0 {
        let (init, step) = (steps.drop_last(), steps.last());
        new_names_replace_nothing(view, init, listening);
        accepting_keeps_order(view, init, listening);
        connections_complete_once(view, init, listening);
        let at = after_steps(view, init);
        let done = completed(view, init, listening);
        assert(at.sockets[listening].id() == listening);
        assert(at.socket_wf(at.sockets[listening]));
        assert forall|i: int| 0 <= i < done.len() implies !step.replaces(#[trigger] done[i]) by {
            assert(at.sockets.contains_key(done[i]));
        }
    }
}

/// Where sockets are opened by active opens and answers only, every name is new,
/// and none is the listening socket's.
pub proof fn working_opens_new_names(view: TcpView, steps: Seq<Step>, listening: SocketID)
    requires
        view.wf(),
        view.sockets.contains_key(listening),
        works(view, steps, listening),
    ensures
        runs(view, steps, listening),
        all_open_new(view, steps),
    decreases steps.len(),
{
    if steps.len() > 0 {
        let (init, step) = (steps.drop_last(), steps.last());
        working_opens_new_names(view, init, listening);
        accepting_keeps_order(view, init, listening);
        opened_name_is_new(after_steps(view, init), step);
    }
}

/// First come, first served: what a listening socket hands out is a prefix of
/// what was completed there, in the order of completion. No connection is
/// skipped or handed out twice. Each has the listening socket's address and
/// port, is named after its peer, and is established.
pub open spec fn served_in_order(view: TcpView, steps: Seq<Step>, listening: SocketID) -> bool {
    let handed = handed_out(view, steps, listening);
    let ends = completing_ends(view, steps, listening);
    &&& handed.len() <= completed(view, steps, listening).len()
    &&& handed == completed(view, steps, listening).take(handed.len() as int)
    &&& handed.no_duplicates()
    &&& forall|i: int|
        0 <= i < handed.len() ==> {
            let id = #[trigger] handed[i];
            &&& id == ends[i]
            &&& id.0 == listening.0
            &&& id.2 == listening.2
            &&& after_steps(view, steps).sockets.contains_key(id)
            &&& after_steps(view, steps).sockets[id].status == TcpStatus::Estableished
        }
}

/// Connections are accepted first come, first served, over any operations that
/// put no other socket under the name of the listening socket or of a connection
/// that was completed before.
pub proof fn kept_names_serve_in_order(view: TcpView, steps: Seq<Step>, listening: SocketID)
    requires
        view.wf(),
        view.sockets.contains_key(listening),
        view.sockets[listening].status == TcpStatus::Listen,
        view.waiting(listening).len() == 0,
        runs(view, steps, listening),
        names_last(view, steps, listening),
    ensures
        served_in_order(view, steps, listening),
{
    accepting_keeps_order(view, steps, listening);
    connections_complete_once(view, steps, listening);
    let handed = handed_out(view, steps, listening);
    let all = completed(view, steps, listening);
    assert(view.waiting(listening) + all =~= all);
    let left = after_steps(view, steps).waiting(listening);
    assert(handed + left == all);
    assert(handed =~= all.take(handed.len() as int));
    assert forall|i: int| 0 <= i < handed.len() implies #[trigger] handed[i] == all[i] by {
        assert((handed + left)[i] == handed[i]);
    }
}

/// Connections are accepted first come, first served, over any operations of the
/// stack: active opens, answers to SYNs, received segments, sent data, the timer
/// and other listening sockets.
pub proof fn first_come_first_served(view: TcpView, steps: Seq<Step>, listening: SocketID)
    requires
        view.wf(),
        view.sockets.contains_key(listening),
        view.sockets[listening].status == TcpStatus::Listen,
        view.waiting(listening).len() == 0,
        works(view, steps, listening),
    ensures
        served_in_order(view, steps, listening),
        completed(view, steps, listening).no_duplicates(),
{
    working_opens_new_names(view, steps, listening);
    new_names_replace_nothing(view, steps, listening);
    kept_names_serve_in_order(view, steps, listening);
    connections_complete_once(view, steps, listening);
}

/// Listening on a stack without sockets is where such a history begins.
pub proof fn listening_starts_a_history(view: TcpView, local_addr: Ipv4Addr, local_port: u16)
    requires
        view.sockets == Map::<SocketID, SocketView>::empty(),
    ensures
        ({
            let id = tcp::listening_id(local_addr, local_port);
            let stepped = view.after_listening(local_addr, local_port);
            &&& stepped.wf()
            &&& stepped.sockets.contains_key(id)
            &&& stepped.sockets[id].status == TcpStatus::Listen
            &&& stepped.waiting(id).len() == 0
        }),
{
}

} // verus!
