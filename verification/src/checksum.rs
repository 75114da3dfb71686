//! The Internet checksum of a segment and its IPv4 pseudo-header.

use pnet::packet::ip::IpNextHeaderProtocol;
use pnet::packet::util;
use vstd::prelude::*;

verus! {

/// The longest segment that an IPv4 datagram can carry.
pub const MAX_SEGMENT_SIZE: usize = 65535;

/// The protocol number of TCP.
pub const TCP_PROTOCOL: u8 = 6;

/// The big-endian word at word offset `i`; a lone last byte is its high half.
pub open spec fn word_at(data: Seq<u8>, i: int) -> int {
    data[2 * i] * 0x100 + if 2 * i + 1 < data.len() {
        data[2 * i + 1] as int
    } else {
        0
    }
}

/// The sum of the first `n` words, the one at word offset `skipword` left out.
pub open spec fn word_sum(data: Seq<u8>, skipword: int, n: nat) -> int
    decreases n,
{
    if n == 0 {
        0
    } else {
        word_sum(data, skipword, (n - 1) as nat) + if n - 1 == skipword {
            0
        } else {
            word_at(data, n - 1)
        }
    }
}

/// The two halves of an address added up.
pub open spec fn addr_sum(addr: u32) -> int {
    addr / 0x1_0000 + addr % 0x1_0000
}

/// The sum over pseudo-header and segment, before carries are folded in.
pub open spec fn total_sum(
    data: Seq<u8>,
    skipword: int,
    source: u32,
    destination: u32,
    protocol: u8,
) -> int {
    addr_sum(source) + addr_sum(destination) + protocol + data.len() + word_sum(
        data,
        skipword,
        ((data.len() + 1) / 2) as nat,
    )
}

/// The ones' complement of a ones' complement sum.
pub open spec fn fold_complement(sum: int) -> int {
    if sum == 0 {
        0xFFFF
    } else {
        0xFFFE - (sum - 1) % 0xFFFF
    }
}

/// The checksum of a TCP segment between two addresses; its own field, the
/// word at word offset 8, does not count.
pub open spec fn tcp_checksum(data: Seq<u8>, source: u32, destination: u32) -> u16 {
    fold_complement(total_sum(data, 8, source, destination, TCP_PROTOCOL)) as u16
}

/// Calls `pnet::packet::util::ipv4_checksum` with no extra data.
///
/// Claimed of it: it returns the ones' complement of the ones' complement sum of
/// the pseudo-header (both addresses, the protocol, the length) and the data's
/// big-endian words, the word at `skipword` left out. Its 32-bit sum cannot
/// overflow on data that fits into a datagram.
#[verifier::external_body]
fn ipv4_checksum(
    data: &[u8],
    skipword: usize,
    source: u32,
    destination: u32,
    protocol: u8,
) -> (r: u16)
    requires
        data@.len() <= MAX_SEGMENT_SIZE,
    ensures
        r == fold_complement(total_sum(data@, skipword as int, source, destination, protocol)),
{
    util::ipv4_checksum(
        data,
        skipword,
        &[],
        &source.into(),
        &destination.into(),
        IpNextHeaderProtocol(protocol),
    )
}

/// Computes the checksum of a TCP segment.
pub fn compute_tcp_checksum(data: &[u8], source: u32, destination: u32) -> (r: u16)
    requires
        data@.len() <= MAX_SEGMENT_SIZE,
    ensures
        r == tcp_checksum(data@, source, destination),
{
    ipv4_checksum(data, 8, source, destination, TCP_PROTOCOL)
}

/// The word sum does not depend on the word that is left out.
pub proof fn lemma_word_sum_skips(a: Seq<u8>, b: Seq<u8>, skipword: int, n: nat)
    requires
        a.len() == b.len(),
        2 * n <= a.len() + 1,
        forall|i: int|
            0 <= i < a.len() && i != 2 * skipword && i != 2 * skipword + 1 ==> a[i] == b[i],
    ensures
        word_sum(a, skipword, n) == word_sum(b, skipword, n),
    decreases n,
{
    if n > 0 {
        lemma_word_sum_skips(a, b, skipword, (n - 1) as nat);
    }
}

/// The bytes of `data` added up, every second of them from the first on in the
/// high half of a word.
pub open spec fn bytes_sum(data: Seq<u8>) -> int
    decreases data.len(),
{
    if data.len() == 0 {
        0
    } else {
        bytes_sum(data.drop_last()) + data.last() * if data.len() % 2 == 1 {
            256int
        } else {
            1
        }
    }
}

/// The words add up to what the bytes do, but for the one that is left out.
pub proof fn lemma_words_and_bytes(data: Seq<u8>, skipword: int, n: nat)
    requires
        2 * n <= data.len() + 1,
    ensures
        word_sum(data, skipword, n) + (if 0 <= skipword < n {
            word_at(data, skipword)
        } else {
            0
        }) == bytes_sum(
            data.take(
                if 2 * n <= data.len() {
                    2 * n as int
                } else {
                    data.len() as int
                },
            ),
        ),
    decreases n,
{
    if n > 0 {
        let m = 2 * n - 2;
        lemma_words_and_bytes(data, skipword, (n - 1) as nat);
        let high = data.take(m + 1);
        assert(high.drop_last() =~= data.take(m));
        assert(high.last() == data[m]);
        assert(bytes_sum(high) == bytes_sum(data.take(m)) + data[m] * 256);
        if 2 * n <= data.len() {
            let both = data.take(m + 2);
            assert(both.drop_last() =~= high);
            assert(both.last() == data[m + 1]);
            assert(bytes_sum(both) == bytes_sum(high) + data[m + 1] * 1);
        }
    } else {
        assert(data.take(0) =~= Seq::empty());
    }
}

/// Words do not add up to less than nothing.
pub proof fn lemma_word_sum_positive(data: Seq<u8>, skipword: int, n: nat)
    ensures
        word_sum(data, skipword, n) >= 0,
    decreases n,
{
    if n > 0 {
        lemma_word_sum_positive(data, skipword, (n - 1) as nat);
    }
}

} // verus!
