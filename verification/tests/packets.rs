use toytcp::{tcpflags, Fields, Ipv4Addr, TCPPacket};

fn client() -> Ipv4Addr {
    Ipv4Addr::new(10, 0, 0, 1)
}

fn server() -> Ipv4Addr {
    Ipv4Addr::new(10, 0, 1, 1)
}

fn syn_fields() -> Fields {
    Fields {
        src: 42502,
        dest: 40000,
        seq: 1781165593,
        ack: 0,
        flag: tcpflags::SYN,
        window: 4380,
    }
}

#[test]
fn built_segment_has_the_expected_bytes() {
    let packet = TCPPacket::new(syn_fields(), &[], client(), server());
    assert_eq!(
        packet.as_bytes(),
        &[
            0xa6, 0x06, 0x9c, 0x40, 0x6a, 0x2a, 0x6e, 0x19, 0, 0, 0, 0, 0x50, 0x02, 0x11, 0x1c,
            0x6f, 0x3a, 0, 0
        ]
    );
}

#[test]
fn odd_payload_counts_its_last_byte() {
    let fields = Fields { flag: tcpflags::ACK, ..syn_fields() };
    let packet = TCPPacket::new(fields, &[1, 2, 3], client(), server());
    assert_eq!(packet.get_checksum(), 0x6b27);
    assert!(packet.is_correct_checksum(client(), server()));
    let mut bytes = packet.as_bytes().to_vec();
    bytes[22] = 4;
    let changed = TCPPacket::parse(&bytes).unwrap();
    assert!(!changed.is_correct_checksum(client(), server()));
}

#[test]
fn fields_read_back() {
    let fields = Fields {
        src: 1,
        dest: 65535,
        seq: u32::MAX,
        ack: 0x0102_0304,
        flag: tcpflags::SYN | tcpflags::ACK,
        window: 0x1234,
    };
    let packet = TCPPacket::new(fields, b"payload", client(), server());
    let bytes = packet.as_bytes().to_vec();
    let read = TCPPacket::parse(&bytes).unwrap();
    assert_eq!(read.get_src(), 1);
    assert_eq!(read.get_dest(), 65535);
    assert_eq!(read.get_seq(), u32::MAX);
    assert_eq!(read.get_ack(), 0x0102_0304);
    assert_eq!(read.get_flag(), 0x12);
    assert_eq!(read.get_window_size(), 0x1234);
    assert_eq!(&read.as_bytes()[20..], b"payload");
    assert!(!read.has_no_payload());
}

#[test]
fn checksum_is_correct_in_both_directions() {
    let packet = TCPPacket::new(syn_fields(), &[], client(), server());
    assert!(packet.is_correct_checksum(server(), client()));
    assert!(packet.is_correct_checksum(client(), server()));
    assert!(!packet.is_correct_checksum(client(), Ipv4Addr::new(10, 0, 1, 2)));
}

#[test]
fn too_short_for_a_header() {
    assert!(TCPPacket::parse(&[0; 19]).is_none());
    let shortest = TCPPacket::parse(&[7; 20]).unwrap();
    assert_eq!(shortest.as_bytes(), &[7; 20]);
    assert!(shortest.has_no_payload());
}

#[test]
fn clone_holds_the_same_bytes() {
    let packet = TCPPacket::new(syn_fields(), b"abc", client(), server());
    assert_eq!(packet.clone().as_bytes(), packet.as_bytes());
}
