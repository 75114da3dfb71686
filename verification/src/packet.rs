//! TCP segments as bytes.

use crate::addr::Ipv4Addr;
use crate::checksum;
use crate::checksum::{compute_tcp_checksum, MAX_SEGMENT_SIZE};
use crate::tcpflags;
use pnet::packet::tcp::TcpPacket;
use pnet::packet::Packet;
use vstd::prelude::*;

verus! {

/// The length of a header without options.
pub const TCP_HEADER_SIZE: usize = 20;

/// The data offset of such a header, in the high half of its byte.
pub const DATA_OFFSET: u8 = 0x50;

/// The number whose two big-endian bytes stand at `i`.
pub open spec fn be16(b: Seq<u8>, i: int) -> u16 {
    (b[i] * 0x100 + b[i + 1]) as u16
}

/// The number whose four big-endian bytes stand at `i`.
pub open spec fn be32(b: Seq<u8>, i: int) -> u32 {
    (b[i] * 0x100_0000 + b[i + 1] * 0x1_0000 + b[i + 2] * 0x100 + b[i + 3]) as u32
}

pub open spec fn be16_bytes(x: u16) -> Seq<u8> {
    seq![(x / 0x100) as u8, (x % 0x100) as u8]
}

pub open spec fn be32_bytes(x: u32) -> Seq<u8> {
    seq![
        (x / 0x100_0000) as u8,
        (x / 0x1_0000 % 0x100) as u8,
        (x / 0x100 % 0x100) as u8,
        (x % 0x100) as u8,
    ]
}

/// The source port of a segment.
pub open spec fn src_of(b: Seq<u8>) -> u16 {
    be16(b, 0)
}

/// The destination port of a segment.
pub open spec fn dest_of(b: Seq<u8>) -> u16 {
    be16(b, 2)
}

/// The sequence number of a segment.
pub open spec fn seq_of(b: Seq<u8>) -> u32 {
    be32(b, 4)
}

/// The acknowledgement number of a segment.
pub open spec fn ack_of(b: Seq<u8>) -> u32 {
    be32(b, 8)
}

/// The control bits of a segment.
pub open spec fn flag_of(b: Seq<u8>) -> u8 {
    b[13]
}

/// The window that a segment offers.
pub open spec fn window_of(b: Seq<u8>) -> u16 {
    be16(b, 14)
}

/// The checksum that a segment carries.
pub open spec fn checksum_of(b: Seq<u8>) -> u16 {
    be16(b, 16)
}

/// Whether one of the control bits `mask` is set.
pub open spec fn has_flag(b: Seq<u8>, mask: u8) -> bool {
    flag_of(b) & mask > 0
}

/// Whether a segment carries the checksum that it should between two addresses.
pub open spec fn checksum_ok(b: Seq<u8>, local: Ipv4Addr, remote: Ipv4Addr) -> bool {
    checksum_of(b) == checksum::tcp_checksum(b, local.bits, remote.bits)
}

/// Whether bytes are long enough for a header and fit into a datagram.
pub open spec fn segment_size_ok(b: Seq<u8>) -> bool {
    TCP_HEADER_SIZE <= b.len() <= MAX_SEGMENT_SIZE
}

/// What the sender of a segment chooses.
pub struct Fields {
    pub src: u16,
    pub dest: u16,
    pub seq: u32,
    pub ack: u32,
    pub flag: u8,
    pub window: u16,
}

/// A header with a given checksum field.
pub open spec fn header_bytes(f: Fields, checksum: u16) -> Seq<u8> {
    be16_bytes(f.src) + be16_bytes(f.dest) + be32_bytes(f.seq) + be32_bytes(f.ack) + seq![
        DATA_OFFSET,
        f.flag,
    ] + be16_bytes(f.window) + be16_bytes(checksum) + seq![0u8, 0u8]
}

/// The segment with these fields and this payload, sent from `source` to `destination`.
pub open spec fn segment_bytes(
    f: Fields,
    payload: Seq<u8>,
    source: Ipv4Addr,
    destination: Ipv4Addr,
) -> Seq<u8> {
    header_bytes(
        f,
        checksum::tcp_checksum(
            header_bytes(f, 0) + payload,
            source.bits,
            destination.bits,
        ),
    ) + payload
}

/// A TCP segment: a header, then options and payload.
pub struct TCPPacket {
    buffer: Vec<u8>,
}

impl View for TCPPacket {
    type V = Seq<u8>;

    closed spec fn view(&self) -> Seq<u8> {
        self.buffer@
    }
}

/// Calls `pnet::packet::tcp::TcpPacket::new` and copies the bytes out of what it returns.
///
/// Claimed of it: it accepts exactly the buffers of at least twenty bytes, and
/// the packet it makes holds the buffer unchanged.
#[verifier::external_body]
fn tcp_packet_bytes(payload: &[u8]) -> (r: Option<Vec<u8>>)
    ensures
        r is Some <==> payload@.len() >= 20,
        r matches Some(b) ==> b@ == payload@,
{
    match TcpPacket::new(payload) {
        Some(packet) => Some(packet.packet().to_vec()),
        None => None,
    }
}

fn push_be16(v: &mut Vec<u8>, x: u16)
    ensures
        final(v)@ == old(v)@ + be16_bytes(x),
{
    v.push((x / 0x100) as u8);
    v.push((x % 0x100) as u8);
}

fn push_be32(v: &mut Vec<u8>, x: u32)
    ensures
        final(v)@ == old(v)@ + be32_bytes(x),
{
    v.push((x / 0x100_0000) as u8);
    v.push((x / 0x1_0000 % 0x100) as u8);
    v.push((x / 0x100 % 0x100) as u8);
    v.push((x % 0x100) as u8);
}

fn header(f: &Fields, checksum: u16) -> (v: Vec<u8>)
    ensures
        v@ == header_bytes(*f, checksum),
{
    let mut v: Vec<u8> = Vec::new();
    push_be16(&mut v, f.src);
    push_be16(&mut v, f.dest);
    push_be32(&mut v, f.seq);
    push_be32(&mut v, f.ack);
    v.push(DATA_OFFSET);
    v.push(f.flag);
    push_be16(&mut v, f.window);
    push_be16(&mut v, checksum);
    v.push(0);
    v.push(0);
    v
}

impl TCPPacket {
    #[verifier::type_invariant]
    spec fn size_ok(&self) -> bool {
        segment_size_ok(self.buffer@)
    }

    /// Reads a segment out of the payload of a datagram; `None` if that is too
    /// short for a header.
    pub fn parse(payload: &[u8]) -> (r: Option<Self>)
        requires
            payload@.len() <= MAX_SEGMENT_SIZE,
        ensures
            r is Some <==> payload@.len() >= TCP_HEADER_SIZE,
            r matches Some(p) ==> p@ == payload@,
    {
        match tcp_packet_bytes(payload) {
            Some(buffer) => Some(TCPPacket { buffer }),
            None => None,
        }
    }

    /// Builds the segment that goes from `source` to `destination`.
    pub fn new(f: Fields, payload: &[u8], source: Ipv4Addr, destination: Ipv4Addr) -> (r: Self)
        requires
            payload@.len() <= MAX_SEGMENT_SIZE - TCP_HEADER_SIZE,
        ensures
            r@ == segment_bytes(f, payload@, source, destination),
    {
        let mut draft: Vec<u8> = header(&f, 0);
        draft.extend_from_slice(payload);
        assert(draft@ =~= header_bytes(f, 0) + payload@);
        let checksum: u16 = compute_tcp_checksum(
            draft.as_slice(),
            source.bits,
            destination.bits,
        );
        let mut buffer: Vec<u8> = header(&f, checksum);
        buffer.extend_from_slice(payload);
        TCPPacket { buffer }
    }

    fn get_be16(&self, i: usize) -> (r: u16)
        requires
            i + 1 < TCP_HEADER_SIZE,
        ensures
            r == be16(self@, i as int),
    {
        proof {
            use_type_invariant(self);
        }
        self.buffer[i] as u16 * 0x100 + self.buffer[i + 1] as u16
    }

    fn get_be32(&self, i: usize) -> (r: u32)
        requires
            i + 3 < TCP_HEADER_SIZE,
        ensures
            r == be32(self@, i as int),
    {
        proof {
            use_type_invariant(self);
        }
        self.buffer[i] as u32 * 0x100_0000 + self.buffer[i + 1] as u32 * 0x1_0000 + self.buffer[i
            + 2] as u32 * 0x100 + self.buffer[i + 3] as u32
    }

    pub fn get_src(&self) -> (r: u16)
        ensures
            r == src_of(self@),
    {
        self.get_be16(0)
    }

    pub fn get_dest(&self) -> (r: u16)
        ensures
            r == dest_of(self@),
    {
        self.get_be16(2)
    }

    pub fn get_seq(&self) -> (r: u32)
        ensures
            r == seq_of(self@),
    {
        self.get_be32(4)
    }

    pub fn get_ack(&self) -> (r: u32)
        ensures
            r == ack_of(self@),
    {
        self.get_be32(8)
    }

    pub fn get_flag(&self) -> (r: u8)
        ensures
            r == flag_of(self@),
    {
        proof {
            use_type_invariant(self);
        }
        self.buffer[13]
    }

    pub fn get_window_size(&self) -> (r: u16)
        ensures
            r == window_of(self@),
    {
        self.get_be16(14)
    }

    pub fn get_checksum(&self) -> (r: u16)
        ensures
            r == checksum_of(self@),
    {
        self.get_be16(16)
    }

    /// Whether the segment carries the checksum that it should between two addresses.
    pub fn is_correct_checksum(&self, local_addr: Ipv4Addr, remote_addr: Ipv4Addr) -> (r: bool)
        ensures
            r == checksum_ok(self@, local_addr, remote_addr),
    {
        proof {
            use_type_invariant(self);
        }
        self.get_checksum() == compute_tcp_checksum(
            self.buffer.as_slice(),
            local_addr.bits,
            remote_addr.bits,
        )
    }

    /// Whether the segment is a bare header.
    pub fn has_no_payload(&self) -> (r: bool)
        ensures
            r == (self@.len() == TCP_HEADER_SIZE),
    {
        self.buffer.len() == TCP_HEADER_SIZE
    }

    /// The bytes of the segment, as they go onto the wire.
    pub fn as_bytes(&self) -> (r: &[u8])
        ensures
            r@ == self@,
            segment_size_ok(r@),
    {
        proof {
            use_type_invariant(self);
        }
        self.buffer.as_slice()
    }
}

impl Clone for TCPPacket {
    fn clone(&self) -> (r: Self)
        ensures
            r@ == self@,
    {
        proof {
            use_type_invariant(self);
        }
        let mut buffer: Vec<u8> = Vec::new();
        buffer.extend_from_slice(self.buffer.as_slice());
        TCPPacket { buffer }
    }
}

/// The fields of a built segment are those it was built with, and its checksum
/// is correct in both directions.
pub proof fn built_segment_reads_back(
    f: Fields,
    payload: Seq<u8>,
    source: Ipv4Addr,
    destination: Ipv4Addr,
)
    ensures
        ({
            let b = segment_bytes(f, payload, source, destination);
            &&& b.len() == TCP_HEADER_SIZE + payload.len()
            &&& src_of(b) == f.src
            &&& dest_of(b) == f.dest
            &&& seq_of(b) == f.seq
            &&& ack_of(b) == f.ack
            &&& flag_of(b) == f.flag
            &&& window_of(b) == f.window
            &&& b[12] == 0x50
            &&& b[18] == 0
            &&& b[19] == 0
            &&& b.skip(TCP_HEADER_SIZE as int) == payload
            &&& checksum_ok(b, source, destination)
            &&& checksum_ok(b, destination, source)
        }),
{
    let draft = header_bytes(f, 0) + payload;
    let c = checksum::tcp_checksum(draft, source.bits, destination.bits);
    let b = segment_bytes(f, payload, source, destination);
    assert(b == header_bytes(f, c) + payload);
    assert(header_bytes(f, c).len() == 20);
    checksum::lemma_word_sum_skips(draft, b, 8, ((b.len() + 1) / 2) as nat);
    assert(b.skip(20) =~= payload);
}

/// Where the fields of a segment stand: the ports in its first four bytes, then
/// the two numbers, and after the data offset the control bits, the window and
/// the checksum, each with its highest byte first.
pub proof fn fields_stand_in_the_header(b: Seq<u8>)
    requires
        b.len() >= 20,
    ensures
        src_of(b) == b[0] * 256 + b[1],
        dest_of(b) == b[2] * 256 + b[3],
        seq_of(b) == ((b[4] * 256 + b[5]) * 256 + b[6]) * 256 + b[7],
        ack_of(b) == ((b[8] * 256 + b[9]) * 256 + b[10]) * 256 + b[11],
        flag_of(b) == b[13],
        window_of(b) == b[14] * 256 + b[15],
        checksum_of(b) == b[16] * 256 + b[17],
{
}

/// Whatever an IPv4 datagram can carry behind a header of its own is a segment,
/// from twenty bytes on.
pub proof fn datagrams_hold_segments(b: Seq<u8>)
    ensures
        segment_size_ok(b) <==> 20 <= b.len() <= 65535,
{
}

/// The control bits, from FIN, the lowest, to CWR. Of a segment, SYN is the
/// second lowest bit, and ACK the fifth.
pub proof fn flags_are_bits(b: Seq<u8>)
    requires
        b.len() >= 20,
    ensures
        has_flag(b, tcpflags::SYN) <==> b[13] / 2 % 2 == 1,
        has_flag(b, tcpflags::ACK) <==> b[13] / 16 % 2 == 1,
        tcpflags::FIN == 1,
        tcpflags::SYN == 2,
        tcpflags::RST == 4,
        tcpflags::PSH == 8,
        tcpflags::ACK == 16,
        tcpflags::URG == 32,
        tcpflags::ECE == 64,
        tcpflags::CWR == 128,
{
    let f = b[13];
    assert((f & 0x02u8 > 0) == (f / 2 % 2 == 1)) by (bit_vector);
    assert((f & 0x10u8 > 0) == (f / 16 % 2 == 1)) by (bit_vector);
}

/// A checksum is correct if and only if the words of the pseudo-header and of
/// the whole segment, the checksum among them, add up to a multiple of 65535,
/// and the checksum is not 65535 itself.
pub proof fn correct_checksum_closes_the_sum(b: Seq<u8>, local: Ipv4Addr, remote: Ipv4Addr)
    requires
        b.len() >= 20,
    ensures
        checksum_ok(b, local, remote) <==> b[16] * 256 + b[17] != 65535 && (local.bits / 0x1_0000
            + local.bits % 0x1_0000 + remote.bits / 0x1_0000 + remote.bits % 0x1_0000 + 6
            + b.len() + checksum::bytes_sum(b)) % 65535 == 0,
{
    checksum::lemma_words_and_bytes(b, 8, ((b.len() + 1) / 2) as nat);
    assert(b.take(b.len() as int) =~= b);
    let words = checksum::word_sum(b, 8, ((b.len() + 1) / 2) as nat);
    assert(checksum::bytes_sum(b) == words + b[16] * 256 + b[17]);
    checksum::lemma_word_sum_positive(b, 8, ((b.len() + 1) / 2) as nat);
    let sum = checksum::total_sum(b, 8, local.bits, remote.bits, 6);
    assert(sum >= 6);
    let carried = b[16] * 256 + b[17];
    assert(0 <= carried <= 65535);
    assert(checksum::fold_complement(sum) == 0xFFFE - (sum - 1) % 0xFFFF);
    let rest = (sum - 1) % 65535;
    let times = (sum - 1) / 65535;
    assert(sum - 1 == times * 65535 + rest);
    if carried == 65534 - rest {
        assert(sum + carried == (times + 1) * 65535);
    }
    if (sum + carried) % 65535 == 0 && carried != 65535 {
        assert((sum + carried - (times + 1) * 65535) % 65535 == 0);
        assert(sum + carried - (times + 1) * 65535 == rest + 1 + carried - 65535);
    }
}

} // verus!
