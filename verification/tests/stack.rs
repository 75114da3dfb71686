use toytcp::{
    tcpflags, Acknowledgement, Fields, Generator, Ipv4Addr, Opening, Reply, Retransmission, SocketID,
    TCPEventKind, TCPPacket, TcpError, TcpStatus, TCP,
};

const SECOND: u128 = 1_000_000_000;

fn client_addr() -> Ipv4Addr {
    Ipv4Addr::new(10, 0, 0, 1)
}

fn server_addr() -> Ipv4Addr {
    Ipv4Addr::new(10, 0, 1, 1)
}

fn opening(reply: Option<Reply>) -> Opening {
    match reply {
        Some(Reply::Open(opening)) => opening,
        _ => panic!("no connection is opened"),
    }
}

fn acknowledgement(reply: Option<Reply>) -> Acknowledgement {
    match reply {
        Some(Reply::Acknowledge(ack)) => ack,
        _ => panic!("nothing is acknowledged"),
    }
}

/// A client whose SYN, with the number 1000, went out at time zero.
fn connecting() -> (TCP, SocketID, Vec<u8>) {
    let mut tcp = TCP::new();
    let opening = Opening::connect(client_addr(), server_addr(), 42502, 40000, 1000);
    let syn = opening.packet().as_bytes().to_vec();
    let id = tcp.opened(opening, 0);
    (tcp, id, syn)
}

/// A segment from the server to the client.
fn from_server(seq: u32, ack: u32, flag: u8) -> Vec<u8> {
    let fields = Fields { src: 40000, dest: 42502, seq, ack, flag, window: 64240 };
    TCPPacket::new(fields, &[], server_addr(), client_addr()).as_bytes().to_vec()
}

/// A segment from the client to the server.
fn from_client(seq: u32, ack: u32, flag: u8) -> Vec<u8> {
    let fields = Fields { src: 42502, dest: 40000, seq, ack, flag, window: 64240 };
    TCPPacket::new(fields, &[], client_addr(), server_addr()).as_bytes().to_vec()
}

/// A client whose connection stands; the server's SYN had the number 5000.
fn connected() -> (TCP, SocketID) {
    let (mut tcp, id, _) = connecting();
    let answer = from_server(5000, 1001, tcpflags::SYN | tcpflags::ACK);
    let ack = acknowledgement(tcp.receive(client_addr(), Some(server_addr()), &answer, 1));
    tcp.acknowledged(ack);
    assert!(tcp.take_event(id, TCPEventKind::ConnectionCompleted));
    (tcp, id)
}

fn send_all(tcp: &mut TCP, id: SocketID, buffer: &[u8], now: u128) -> Vec<TCPPacket> {
    let mut packets = Vec::new();
    let mut cursor = 0;
    while let Some(chunk) = tcp.send(id, buffer, cursor).unwrap() {
        cursor += chunk.size;
        packets.push(chunk.packet.clone());
        assert!(!tcp.is_chunk_overflowing(&chunk));
        tcp.chunk_sent(chunk, now);
    }
    packets
}

#[test]
fn syn_of_an_active_open() {
    let (tcp, id, syn) = connecting();
    assert_eq!(id, SocketID(client_addr(), server_addr(), 42502, 40000));
    let packet = TCPPacket::parse(&syn).unwrap();
    assert_eq!(packet.get_flag(), tcpflags::SYN);
    assert_eq!(packet.get_seq(), 1000);
    assert_eq!(packet.get_ack(), 0);
    assert_eq!(packet.get_window_size(), 4380);
    assert_eq!(syn.len(), 20);
    let socket = tcp.socket(id).unwrap();
    assert_eq!(socket.status(), TcpStatus::SynSent);
    assert_eq!(socket.send_param().unacked_seq, 1000);
    assert_eq!(socket.send_param().next, 1001);
    assert_eq!(socket.send_param().initial_seq, 1000);
}

#[test]
fn two_stacks_shake_hands() {
    let mut server = TCP::new();
    let listening = server.listen(server_addr(), 40000);
    assert_eq!(listening, SocketID(server_addr(), Ipv4Addr::new(0, 0, 0, 0), 40000, 0));
    let (mut client, client_id, syn) = connecting();

    let open = opening(server.receive(server_addr(), Some(client_addr()), &syn, 5000));
    let server_id = SocketID(server_addr(), client_addr(), 40000, 42502);
    assert_eq!(open.socket_id(), server_id);
    assert!(server.socket(server_id).is_none());
    let syn_ack = open.packet().as_bytes().to_vec();
    let packet = TCPPacket::parse(&syn_ack).unwrap();
    assert_eq!(packet.get_flag(), tcpflags::SYN | tcpflags::ACK);
    assert_eq!(packet.get_seq(), 5000);
    assert_eq!(packet.get_ack(), 1001);
    assert_eq!(server.opened(open, 0), server_id);
    assert_eq!(server.socket(server_id).unwrap().status(), TcpStatus::SynRcvd);
    assert_eq!(server.socket(server_id).unwrap().listening_socket(), Some(listening));

    let ack = acknowledgement(client.receive(client_addr(), Some(server_addr()), &syn_ack, 1));
    assert_eq!(ack.socket_id, client_id);
    assert!(ack.completed);
    assert_eq!(ack.packet.get_flag(), tcpflags::ACK);
    assert_eq!(ack.packet.get_seq(), 1001);
    assert_eq!(ack.packet.get_ack(), 5001);
    assert_eq!(client.socket(client_id).unwrap().status(), TcpStatus::Estableished);
    let last = ack.packet.as_bytes().to_vec();
    assert!(!client.take_event(client_id, TCPEventKind::ConnectionCompleted));
    client.acknowledged(ack);
    assert!(client.take_event(client_id, TCPEventKind::ConnectionCompleted));
    assert!(!client.take_event(client_id, TCPEventKind::ConnectionCompleted));

    assert_eq!(server.accept(listening), Err(TcpError::NoConnectedSocket));
    assert!(server.receive(server_addr(), Some(client_addr()), &last, 1).is_none());
    assert_eq!(server.socket(server_id).unwrap().status(), TcpStatus::Estableished);
    assert_eq!(server.socket(server_id).unwrap().send_param().unacked_seq, 5001);
    assert_eq!(server.socket(server_id).unwrap().recv_param().next, 1001);
    assert!(server.take_event(listening, TCPEventKind::ConnectionCompleted));
    assert_eq!(server.accept(listening), Ok(server_id));
    assert_eq!(server.accept(listening), Err(TcpError::NoConnectedSocket));
}

#[test]
fn drawn_sequence_numbers_and_ports_lie_in_their_ranges() {
    for _ in 0..50 {
        let mut server = TCP::new();
        server.listen(server_addr(), 40000);
        let mut client = TCP::new();
        let open = client.connect(client_addr(), server_addr(), 40000).ok().unwrap();
        let port = open.socket_id().2;
        assert!((40000..60000).contains(&port));
        assert!((1..1 << 31).contains(&open.packet().get_seq()));
        let syn = open.packet().as_bytes().to_vec();
        let id = client.opened(open, 0);
        assert_eq!(id, SocketID(client_addr(), server_addr(), port, 40000));
        assert!(!client.is_port_unused(port));
        let answer = opening(server.receive_handler(server_addr(), Some(client_addr()), &syn));
        assert!((1..1 << 31).contains(&answer.packet().get_seq()));
    }
}

#[test]
fn draws_are_not_constant() {
    let tcp = TCP::new();
    let first = tcp.connect(client_addr(), server_addr(), 80).ok().unwrap();
    let differs = (0..20).any(|_| {
        let other = tcp.connect(client_addr(), server_addr(), 80).ok().unwrap();
        other.packet().get_seq() != first.packet().get_seq() && other.socket_id() != first.socket_id()
    });
    assert!(differs);
}

#[test]
fn no_available_port() {
    let mut tcp = TCP::new();
    for port in 40000..60000 {
        tcp.listen(client_addr(), port);
    }
    assert_eq!(tcp.connect(client_addr(), server_addr(), 80).err(), Some(TcpError::NoAvailablePort));
}

#[test]
fn drawn_port_is_taken_refused_or_the_last() {
    let mut tcp = TCP::new();
    tcp.listen(client_addr(), 40000);
    assert_eq!(tcp.try_port(40001, 0), Some(Ok(40001)));
    assert_eq!(tcp.try_port(40001, 19999), Some(Ok(40001)));
    assert_eq!(tcp.try_port(40000, 0), None);
    assert_eq!(tcp.try_port(40000, 19998), None);
    assert_eq!(tcp.try_port(40000, 19999), Some(Err(TcpError::NoAvailablePort)));
}

#[test]
fn used_ports_are_not_selected() {
    let mut tcp = TCP::new();
    for port in 40000..59990 {
        tcp.listen(client_addr(), port);
    }
    assert!(!tcp.is_port_unused(40000));
    assert!(tcp.is_port_unused(59990));
    let open = tcp.connect(client_addr(), server_addr(), 80).ok().unwrap();
    assert!(open.socket_id().2 >= 59990);
}

#[test]
fn one_generator_serves_several_opens() {
    let mut rng = Generator::new();
    assert_eq!(rng.draw(7, 8), 7);
    let mut tcp = TCP::new();
    for port in 40000..59000 {
        tcp.listen(client_addr(), port);
    }
    let free = tcp.select_unused_port(&mut rng).unwrap();
    assert!((59000..60000).contains(&free));
    let open = tcp.connect_with(&mut rng, client_addr(), server_addr(), 80).ok().unwrap();
    let port = open.socket_id().2;
    assert!((59000..60000).contains(&port));
    assert_eq!(open.socket_id(), SocketID(client_addr(), server_addr(), port, 80));
    assert!((1..1 << 31).contains(&open.packet().get_seq()));
    assert_eq!(open.packet().get_flag(), tcpflags::SYN);
}

#[test]
fn answer_that_does_not_cover_the_syn() {
    let (mut tcp, id, _) = connecting();
    let answer = from_server(5000, 1000, tcpflags::SYN | tcpflags::ACK);
    let ack = acknowledgement(tcp.receive(client_addr(), Some(server_addr()), &answer, 1));
    assert!(!ack.completed);
    tcp.acknowledged(ack);
    assert!(!tcp.take_event(id, TCPEventKind::ConnectionCompleted));
    assert_eq!(tcp.socket(id).unwrap().status(), TcpStatus::SynRcvd);
    // The acknowledgement of the SYN then completes the connection, without an event.
    let last = from_server(5001, 1001, tcpflags::ACK);
    assert!(tcp.receive(client_addr(), Some(server_addr()), &last, 1).is_none());
    assert_eq!(tcp.socket(id).unwrap().status(), TcpStatus::Estableished);
    assert!(!tcp.take_event(id, TCPEventKind::ConnectionCompleted));
}

#[test]
fn answers_to_another_syn_are_ignored() {
    for answer in [
        from_server(5000, 999, tcpflags::SYN | tcpflags::ACK),
        from_server(5000, 1002, tcpflags::SYN | tcpflags::ACK),
        from_server(5000, 1001, tcpflags::ACK),
        from_server(5000, 1001, tcpflags::SYN),
    ] {
        let (mut tcp, id, _) = connecting();
        assert!(tcp.receive(client_addr(), Some(server_addr()), &answer, 1).is_none());
        assert_eq!(tcp.socket(id).unwrap().status(), TcpStatus::SynSent);
        assert_eq!(tcp.socket(id).unwrap().send_param().unacked_seq, 1000);
    }
}

#[test]
fn listener_answers_syn_only() {
    for flag in [tcpflags::ACK, tcpflags::SYN | tcpflags::ACK, tcpflags::RST, 0] {
        let mut tcp = TCP::new();
        tcp.listen(server_addr(), 40000);
        let segment = from_client(1000, 0, flag);
        assert!(tcp.receive(server_addr(), Some(client_addr()), &segment, 1).is_none());
    }
}

#[test]
fn segments_without_a_socket_are_ignored() {
    let mut tcp = TCP::new();
    tcp.listen(server_addr(), 40001);
    let syn = from_client(1000, 0, tcpflags::SYN);
    assert!(tcp.receive(server_addr(), Some(client_addr()), &syn, 1).is_none());
    tcp.listen(server_addr(), 40000);
    assert!(tcp.receive(server_addr(), None, &syn, 1).is_none());
    assert!(tcp.receive(server_addr(), Some(client_addr()), &syn[..19], 1).is_none());
    let mut corrupt = syn.clone();
    corrupt[17] ^= 1;
    assert!(tcp.receive(server_addr(), Some(client_addr()), &corrupt, 1).is_none());
    assert!(tcp.receive(server_addr(), Some(client_addr()), &syn, 1).is_some());
}

#[test]
fn handshake_ignores_segments_without_ack() {
    let mut tcp = TCP::new();
    let listening = tcp.listen(server_addr(), 40000);
    let syn = from_client(1000, 0, tcpflags::SYN);
    let open = opening(tcp.receive(server_addr(), Some(client_addr()), &syn, 5000));
    let id = tcp.opened(open, 0);
    assert!(tcp.receive(server_addr(), Some(client_addr()), &syn, 6000).is_none());
    assert_eq!(tcp.socket(id).unwrap().status(), TcpStatus::SynRcvd);
    let beyond = from_client(1001, 5002, tcpflags::ACK);
    assert!(tcp.receive(server_addr(), Some(client_addr()), &beyond, 1).is_none());
    assert_eq!(tcp.socket(id).unwrap().status(), TcpStatus::SynRcvd);
    assert_eq!(tcp.accept(listening), Err(TcpError::NoConnectedSocket));
}

#[test]
fn connections_are_accepted_in_order() {
    let mut tcp = TCP::new();
    let listening = tcp.listen(server_addr(), 40000);
    let mut ids = Vec::new();
    for last in 1..4 {
        let remote = Ipv4Addr::new(10, 0, 0, last);
        let fields = |seq, ack, flag| Fields { src: 50000, dest: 40000, seq, ack, flag, window: 100 };
        let syn = TCPPacket::new(fields(7, 0, tcpflags::SYN), &[], remote, server_addr());
        let open = opening(tcp.receive(server_addr(), Some(remote), syn.as_bytes(), 900));
        ids.push(tcp.opened(open, 0));
        let ack = TCPPacket::new(fields(8, 901, tcpflags::ACK), &[], remote, server_addr());
        assert!(tcp.receive(server_addr(), Some(remote), ack.as_bytes(), 1).is_none());
    }
    assert_eq!(tcp.accept(listening), Ok(ids[0]));
    assert_eq!(ids[0], SocketID(server_addr(), Ipv4Addr::new(10, 0, 0, 1), 40000, 50000));
    assert_eq!(tcp.socket(ids[0]).unwrap().status(), TcpStatus::Estableished);
    // One that is completed meanwhile waits its turn.
    let remote = Ipv4Addr::new(10, 0, 0, 4);
    let fields = |seq, ack, flag| Fields { src: 50000, dest: 40000, seq, ack, flag, window: 100 };
    let syn = TCPPacket::new(fields(7, 0, tcpflags::SYN), &[], remote, server_addr());
    let open = opening(tcp.receive(server_addr(), Some(remote), syn.as_bytes(), 900));
    ids.push(tcp.opened(open, 0));
    let ack = TCPPacket::new(fields(8, 901, tcpflags::ACK), &[], remote, server_addr());
    assert!(tcp.receive(server_addr(), Some(remote), ack.as_bytes(), 1).is_none());
    assert_eq!(tcp.accept(listening), Ok(ids[1]));
    assert_eq!(tcp.accept(listening), Ok(ids[2]));
    assert_eq!(tcp.accept(listening), Ok(ids[3]));
    assert_eq!(tcp.accept(listening), Err(TcpError::NoConnectedSocket));
}

#[test]
fn listening_again_forgets_queued_connections() {
    let mut tcp = TCP::new();
    let listening = tcp.listen(server_addr(), 40000);
    let syn = from_client(1000, 0, tcpflags::SYN);
    let open = opening(tcp.receive(server_addr(), Some(client_addr()), &syn, 5000));
    tcp.opened(open, 0);
    let ack = from_client(1001, 5001, tcpflags::ACK);
    assert!(tcp.receive(server_addr(), Some(client_addr()), &ack, 1).is_none());
    assert_eq!(tcp.listen(server_addr(), 40000), listening);
    assert_eq!(tcp.accept(listening), Err(TcpError::NoConnectedSocket));
}

#[test]
fn accept_on_an_unknown_socket() {
    let mut tcp = TCP::new();
    let id = SocketID(server_addr(), client_addr(), 1, 2);
    assert_eq!(tcp.accept(id), Err(TcpError::NoSuchSocket(id)));
}

#[test]
fn buffer_is_cut_into_segments() {
    let (mut tcp, id) = connected();
    let buffer: Vec<u8> = (0..3000u32).map(|i| (i % 251) as u8).collect();
    let packets = send_all(&mut tcp, id, &buffer, 0);
    let sizes: Vec<usize> = packets.iter().map(|p| p.as_bytes().len() - 20).collect();
    assert_eq!(sizes, vec![1460, 1460, 80]);
    let seqs: Vec<u32> = packets.iter().map(|p| p.get_seq()).collect();
    assert_eq!(seqs, vec![1001, 2461, 3921]);
    let mut joined = Vec::new();
    for packet in &packets {
        assert_eq!(packet.get_ack(), 5001);
        assert_eq!(packet.get_flag(), tcpflags::ACK);
        assert!(packet.is_correct_checksum(server_addr(), client_addr()));
        joined.extend_from_slice(&packet.as_bytes()[20..]);
    }
    assert_eq!(joined, buffer);
    assert_eq!(tcp.socket(id).unwrap().send_param().next, 4001);
}

#[test]
fn sending_changes_only_the_sender() {
    let (mut tcp, id) = connected();
    let open = Opening::connect(client_addr(), server_addr(), 42503, 40000, 2000);
    let other = tcp.opened(open, 0);
    tcp.publish_event(other, TCPEventKind::Acked);
    send_all(&mut tcp, id, &[1; 3000], 0);
    let sender = tcp.socket(id).unwrap();
    assert_eq!(sender.status(), TcpStatus::Estableished);
    assert_eq!(sender.send_param().unacked_seq, 1001);
    assert_eq!(sender.send_param().initial_seq, 1000);
    assert_eq!(sender.recv_param().next, 5001);
    let bystander = tcp.socket(other).unwrap();
    assert_eq!(bystander.status(), TcpStatus::SynSent);
    assert_eq!(bystander.send_param().next, 2001);
    assert!(tcp.take_event(other, TCPEventKind::Acked));
}

#[test]
fn full_segments_leave_no_empty_one() {
    let (mut tcp, id) = connected();
    let packets = send_all(&mut tcp, id, &[1; 2920], 0);
    assert_eq!(packets.len(), 2);
}

#[test]
fn sending_without_a_socket() {
    let tcp = TCP::new();
    let id = SocketID(server_addr(), client_addr(), 1, 2);
    assert_eq!(tcp.send(id, &[1], 0).err(), Some(TcpError::NoSuchSocket(id)));
    assert!(matches!(tcp.send(id, &[], 0), Ok(None)));
    assert!(matches!(tcp.send(id, &[1], 1), Ok(None)));
}

#[test]
fn sequence_numbers_run_out() {
    let mut tcp = TCP::new();
    let open = Opening::connect(client_addr(), server_addr(), 42502, 40000, u32::MAX - 11);
    let id = tcp.opened(open, 0);
    let ten = tcp.send(id, &[0; 10], 0).unwrap().unwrap();
    assert!(!tcp.is_chunk_overflowing(&ten));
    let eleven = tcp.send(id, &[0; 11], 0).unwrap().unwrap();
    assert!(tcp.is_chunk_overflowing(&eleven));
}

#[test]
fn no_number_after_the_last() {
    let mut tcp = TCP::new();
    tcp.listen(server_addr(), 40000);
    let last = from_client(u32::MAX, 0, tcpflags::SYN);
    assert!(tcp.is_seq_overflowing(server_addr(), Some(client_addr()), &last));
    assert!(!tcp.is_seq_overflowing(server_addr(), None, &last));
    let acked = from_client(u32::MAX, 0, tcpflags::SYN | tcpflags::ACK);
    assert!(!tcp.is_seq_overflowing(server_addr(), Some(client_addr()), &acked));
    let before = from_client(u32::MAX - 1, 0, tcpflags::SYN);
    assert!(!tcp.is_seq_overflowing(server_addr(), Some(client_addr()), &before));
    let (client, _, _) = connecting();
    let answer = from_server(u32::MAX, 1001, tcpflags::SYN | tcpflags::ACK);
    assert!(client.is_seq_overflowing(client_addr(), Some(server_addr()), &answer));
    let other = from_server(u32::MAX, 1002, tcpflags::SYN | tcpflags::ACK);
    assert!(!client.is_seq_overflowing(client_addr(), Some(server_addr()), &other));
}

#[test]
fn acknowledgement_frees_segments() {
    let (mut tcp, id) = connected();
    send_all(&mut tcp, id, &[9; 3000], 0);
    // Covers the handshake and the first segment.
    let ack = from_server(5001, 2461, tcpflags::ACK);
    assert!(tcp.receive(client_addr(), Some(server_addr()), &ack, 1).is_none());
    assert_eq!(tcp.socket(id).unwrap().send_param().unacked_seq, 2461);
    assert!(tcp.take_event(id, TCPEventKind::Acked));
    // The same again acknowledges nothing new.
    assert!(tcp.receive(client_addr(), Some(server_addr()), &ack, 1).is_none());
    assert!(!tcp.take_event(id, TCPEventKind::Acked));
    let due = tcp.timer(3 * SECOND);
    assert_eq!(due.len(), 1);
    assert_eq!(due[0].packet.get_seq(), 2461);
}

#[test]
fn segment_without_ack_is_dropped() {
    let (mut tcp, id) = connected();
    send_all(&mut tcp, id, &[9; 10], 0);
    for flag in [0, tcpflags::SYN, tcpflags::PSH | tcpflags::FIN] {
        let segment = from_server(5001, 1011, flag);
        assert!(tcp.receive(client_addr(), Some(server_addr()), &segment, 1).is_none());
        assert_eq!(tcp.socket(id).unwrap().send_param().unacked_seq, 1001);
        assert_eq!(tcp.socket(id).unwrap().status(), TcpStatus::Estableished);
        assert!(!tcp.take_event(id, TCPEventKind::Acked));
    }
    // The segment that was sent is still kept.
    assert_eq!(seqs(&tcp.timer(3 * SECOND)), vec![1001]);
    let acked = from_server(5001, 1011, tcpflags::ACK | tcpflags::PSH);
    assert!(tcp.receive(client_addr(), Some(server_addr()), &acked, 1).is_none());
    assert_eq!(tcp.socket(id).unwrap().send_param().unacked_seq, 1011);
    assert!(tcp.take_event(id, TCPEventKind::Acked));
}

#[test]
fn acknowledgement_of_unsent_bytes_is_dropped() {
    let (mut tcp, id) = connected();
    send_all(&mut tcp, id, &[9; 10], 0);
    let ack = from_server(5001, 1012, tcpflags::ACK);
    assert!(tcp.receive(client_addr(), Some(server_addr()), &ack, 1).is_none());
    assert_eq!(tcp.socket(id).unwrap().send_param().unacked_seq, 1001);
    assert!(!tcp.take_event(id, TCPEventKind::Acked));
}

fn seqs(due: &Vec<Retransmission>) -> Vec<u32> {
    due.iter().map(|r| r.packet.get_seq()).collect()
}

#[test]
fn segment_is_sent_five_times_at_most() {
    let (mut tcp, id, syn) = connecting();
    assert!(tcp.timer(3 * SECOND - 1).is_empty());
    for _ in 0..4 {
        let due = tcp.timer(3 * SECOND);
        assert_eq!(due.len(), 1);
        assert_eq!(due[0].socket_id, id);
        assert_eq!(due[0].packet.as_bytes(), &syn[..]);
    }
    assert!(tcp.timer(3 * SECOND).is_empty());
    assert!(tcp.timer(30 * SECOND).is_empty());
}

#[test]
fn acknowledged_segments_are_not_sent_again() {
    let (mut tcp, _) = connected();
    assert!(tcp.timer(30 * SECOND).is_empty());
}

#[test]
fn retransmitted_segment_moves_to_the_end() {
    let (mut tcp, id) = connected();
    send_all(&mut tcp, id, &[9; 3000], 10 * SECOND);
    assert!(tcp.timer(12 * SECOND).is_empty());
    assert_eq!(seqs(&tcp.timer(13 * SECOND)), vec![1001]);
    assert_eq!(seqs(&tcp.timer(13 * SECOND)), vec![2461]);
    assert_eq!(seqs(&tcp.timer(13 * SECOND)), vec![3921]);
    assert_eq!(seqs(&tcp.timer(13 * SECOND)), vec![1001]);
}

#[test]
fn segment_that_is_not_due_holds_the_queue() {
    let (mut tcp, id) = connected();
    send_all(&mut tcp, id, &[1; 10], 10 * SECOND);
    send_all(&mut tcp, id, &[2; 10], 5 * SECOND);
    assert!(tcp.timer(12 * SECOND).is_empty());
}

#[test]
fn each_socket_is_served() {
    let mut tcp = TCP::new();
    for port in [1, 2, 3] {
        let open = Opening::connect(client_addr(), server_addr(), port, 80, 100 * port as u32);
        tcp.opened(open, 0);
    }
    let mut due = seqs(&tcp.timer(4 * SECOND));
    due.sort();
    assert_eq!(due, vec![100, 200, 300]);
}

#[test]
fn clock_behind_a_transmission() {
    let (mut tcp, id) = connected();
    assert!(!tcp.is_clock_behind(0));
    send_all(&mut tcp, id, &[1; 10], 10 * SECOND);
    assert!(tcp.is_clock_behind(10 * SECOND - 1));
    assert!(!tcp.is_clock_behind(10 * SECOND));
}

#[test]
fn last_event_counts() {
    let mut tcp = TCP::new();
    let first = tcp.listen(server_addr(), 1);
    let second = tcp.listen(server_addr(), 2);
    tcp.publish_event(first, TCPEventKind::ConnectionCompleted);
    assert!(!tcp.take_event(first, TCPEventKind::Acked));
    assert!(!tcp.take_event(second, TCPEventKind::ConnectionCompleted));
    tcp.publish_event(second, TCPEventKind::DataArrived);
    assert!(!tcp.take_event(first, TCPEventKind::ConnectionCompleted));
    assert!(tcp.take_event(second, TCPEventKind::DataArrived));
    assert!(!tcp.take_event(second, TCPEventKind::DataArrived));
    tcp.publish_event(first, TCPEventKind::ConnectionClosed);
    assert!(tcp.take_event(first, TCPEventKind::ConnectionClosed));
}

#[test]
fn peer_without_a_name_takes_the_listener() {
    let nobody = Ipv4Addr::new(0, 0, 0, 0);
    let mut tcp = TCP::new();
    let listening = tcp.listen(server_addr(), 40000);
    let fields = |seq, ack, flag| Fields { src: 0, dest: 40000, seq, ack, flag, window: 100 };
    let syn = TCPPacket::new(fields(7, 0, tcpflags::SYN), &[], nobody, server_addr());
    let open = opening(tcp.receive(server_addr(), Some(nobody), syn.as_bytes(), 900));
    assert_eq!(tcp.opened(open, 0), listening);
    let ack = TCPPacket::new(fields(8, 901, tcpflags::ACK), &[], nobody, server_addr());
    assert!(tcp.receive(server_addr(), Some(nobody), ack.as_bytes(), 1).is_none());
    assert_eq!(tcp.accept(listening), Ok(listening));
}
